use terragen::generator::get_zones;
use terragen::tile::{Content, PreTile, PreTileType, TileType};
use terragen::vector2::Vector2;
use terragen::distribution::CityContentDist;
use terragen::zone::{extract, stamp, Mountain, Zone};
use terragen::zones::{paint_list, Zones};

use rand::rngs::StdRng;
use rand::SeedableRng;

fn v(x: usize, y: usize) -> Vector2 {
    Vector2::new(x, y)
}

/// A grid from a picture: a digit is a provisional category, `.` is grass,
/// `~` is water.
fn grid(picture: &[&str]) -> Vec<Vec<PreTileType>> {
    picture
        .iter()
        .map(|row| {
            row.chars()
                .map(|c| match c {
                    '.' => PreTileType::Grass,
                    '~' => PreTileType::Water,
                    d => PreTileType::Zone(d.to_digit(10).unwrap() as usize),
                })
                .collect()
        })
        .collect()
}

fn sorted(cells: &[Vector2]) -> Vec<(usize, usize)> {
    let mut out: Vec<(usize, usize)> = cells.iter().map(|p| (p.x, p.y)).collect();
    out.sort();
    out
}

#[test]
fn one_category_all_over_is_one_region() {
    let mut world = vec![vec![PreTileType::Zone(1); 4]; 4];
    let regions = extract(&mut world, 1);
    assert_eq!(regions.len(), 1);
    assert_eq!(regions[0].inner.len(), 16);
    // the mean of the rows 0 to 3 is 1.5, rounded down
    assert_eq!(regions[0].centroid, v(1, 1));
    assert_eq!(regions[0].inner[0], v(0, 0));
    assert_eq!(regions[0].tile, PreTileType::Void);
    let mut all: Vec<(usize, usize)> = Vec::new();
    for x in 0..4 {
        for y in 0..4 {
            all.push((x, y));
        }
    }
    assert_eq!(sorted(&regions[0].inner), all);
    assert_eq!(world, vec![vec![PreTileType::Void; 4]; 4]);
}

#[test]
fn regions_part_the_cells_of_their_category() {
    let picture = ["11.0011", "1..0.11", "..1...1", "00.1100", "0..1..0"];
    let before = grid(&picture);
    for id in 0..3usize {
        let mut world = before.clone();
        let regions = extract(&mut world, id);
        let mut seen = std::collections::HashSet::new();
        for region in &regions {
            assert!(!region.inner.is_empty());
            for p in &region.inner {
                assert_eq!(before[p.x][p.y], PreTileType::Zone(id));
                // in no region twice, in no two regions
                assert!(seen.insert((p.x, p.y)));
            }
            assert_eq!(region.centroid, Zone::compute_centroid(&region.inner));
        }
        for x in 0..before.len() {
            for y in 0..before[0].len() {
                let of_category = before[x][y] == PreTileType::Zone(id);
                assert_eq!(seen.contains(&(x, y)), of_category);
                let expected = if of_category { PreTileType::Void } else { before[x][y] };
                assert_eq!(world[x][y], expected);
            }
        }
    }
    let mut world = before.clone();
    let ones = extract(&mut world, 1);
    let cells: Vec<_> = ones.iter().map(|r| sorted(&r.inner)).collect();
    assert_eq!(
        cells,
        vec![
            vec![(0, 0), (0, 1), (1, 0)],
            vec![(0, 5), (0, 6), (1, 5), (1, 6), (2, 6)],
            vec![(2, 2)],
            vec![(3, 3), (3, 4), (4, 3)],
        ]
    );
    let mut world = before.clone();
    assert!(extract(&mut world, 2).is_empty());
    assert_eq!(world, before);
}

#[test]
fn diagonal_cells_are_apart() {
    let mut world = grid(&["1.", ".1"]);
    let regions = extract(&mut world, 1);
    assert_eq!(regions.len(), 2);
    assert_eq!(regions[0].inner, vec![v(0, 0)]);
    assert_eq!(regions[0].centroid, v(0, 0));
    assert_eq!(regions[1].inner, vec![v(1, 1)]);
    assert_eq!(regions[1].centroid, v(1, 1));
}

#[test]
fn region_around_a_cell() {
    let mut world = grid(&["0.00", "00.0", "..00"]);
    let zone = Zone::bfs(&mut world, 0, v(1, 1));
    assert_eq!(sorted(&zone.inner), vec![(0, 0), (1, 0), (1, 1)]);
    assert_eq!(zone.inner[0], v(1, 1));
    assert_eq!(zone.centroid, v(0, 0));
    assert_eq!(world, {
        let mut w = grid(&["0.00", "00.0", "..00"]);
        w[0][0] = PreTileType::Void;
        w[1][0] = PreTileType::Void;
        w[1][1] = PreTileType::Void;
        w
    });
    let mut pre: Vec<Vec<PreTile>> = (0..2)
        .map(|x| (0..3).map(|y| PreTile::new(if y == 1 { 5 } else { 4 }, 10 * x + y)).collect())
        .collect();
    let zone = Zone::dfs(&mut pre, 5, v(1, 1));
    assert_eq!(sorted(&zone.inner), vec![(0, 1), (1, 1)]);
    assert_eq!(zone.centroid, v(0, 1));
    for x in 0..2 {
        for y in 0..3 {
            // the elevation stays
            assert_eq!(pre[x][y].elevation, 10 * x + y);
            let expected = if y == 1 { PreTileType::Void } else { PreTileType::Zone(4) };
            assert_eq!(pre[x][y].pre_tiletype, expected);
        }
    }
}

#[test]
fn centroid_is_the_mean_rounded_down() {
    assert_eq!(Zone::compute_centroid(&vec![v(7, 9)]), v(7, 9));
    assert_eq!(Zone::compute_centroid(&vec![v(0, 0), v(1, 3)]), v(0, 1));
    assert_eq!(Zone::compute_centroid(&vec![v(2, 2), v(3, 2), v(4, 9)]), v(3, 4));
    let far = usize::MAX;
    assert_eq!(Zone::compute_centroid(&vec![v(far, far), v(far, far - 2)]), v(far, far - 1));
}

#[test]
fn categories_each_in_a_list() {
    let mut pre: Vec<Vec<PreTile>> = vec![
        vec![PreTile::new(0, 1), PreTile::new(1, 2), PreTile::new(0, 3)],
        vec![PreTile::new(0, 4), PreTile::new(1, 5), PreTile::new(3, 6)],
    ];
    let zones = get_zones(&mut pre, 3);
    assert_eq!(zones.len(), 3);
    assert_eq!(zones[0].len(), 2);
    assert_eq!(sorted(&zones[0][0].inner), vec![(0, 0), (1, 0)]);
    assert_eq!(sorted(&zones[0][1].inner), vec![(0, 2)]);
    assert_eq!(zones[1].len(), 1);
    assert_eq!(sorted(&zones[1][0].inner), vec![(0, 1), (1, 1)]);
    assert!(zones[2].is_empty());
    // a category that was not asked for stays
    assert_eq!(pre[1][2].pre_tiletype, PreTileType::Zone(3));
    assert_eq!(pre[0][0].pre_tiletype, PreTileType::Void);
    assert_eq!(pre[1][1].elevation, 5);
}

#[test]
fn upland_takes_the_pools_next_to_it() {
    let picture = ["2211.", "..12.", "2..22", "12..."];
    let mut world = grid(&picture);
    let mountain = Mountain::new(&mut world, v(0, 2));
    assert_eq!(sorted(&mountain.zone.inner), vec![(0, 2), (0, 3), (1, 2)]);
    assert_eq!(mountain.zone.inner[0], v(0, 2));
    assert_eq!(mountain.zone.centroid, v(0, 2));
    let mut pools: Vec<_> = mountain.lava_pools.iter().map(|p| sorted(&p.inner)).collect();
    pools.sort();
    // the pool at the left and the pool that winds down from the right; the
    // pools at the lower left do not touch this upland
    assert_eq!(pools, vec![vec![(0, 0), (0, 1)], vec![(1, 3), (2, 3), (2, 4)]]);
    assert_eq!(world[2][0], PreTileType::Zone(2));
    assert_eq!(world[3][0], PreTileType::Zone(1));
    assert_eq!(world[3][1], PreTileType::Zone(2));
    assert_eq!(world[0][0], PreTileType::Void);
    assert_eq!(world[2][4], PreTileType::Void);
    assert_eq!(world[0][4], PreTileType::Grass);
    let pool_cells: usize = mountain.lava_pools.iter().map(|p| p.inner.len()).sum();
    let city = mountain.to_city();
    assert_eq!(city.inner.len(), 3 + pool_cells);
    assert_eq!(&city.inner[..3], &[v(0, 2), v(0, 3), v(1, 2)][..]);
    assert_eq!(city.centroid, Zone::compute_centroid(&city.inner));
    assert_eq!(city.tile, PreTileType::Void);
}

#[test]
fn scan_finds_coasts_and_uplands() {
    let picture = ["00.11", "..~12", "0.2.."];
    let before = grid(&picture);
    let mut world = before.clone();
    let zones = Zones::scan(&mut world);
    assert_eq!(zones.coasts.len(), 2);
    assert_eq!(sorted(&zones.coasts[0].inner), vec![(0, 0), (0, 1)]);
    assert_eq!(sorted(&zones.coasts[1].inner), vec![(2, 0)]);
    assert_eq!(zones.mountains.len(), 1);
    assert_eq!(sorted(&zones.mountains[0].zone.inner), vec![(0, 3), (0, 4), (1, 3)]);
    assert_eq!(zones.mountains[0].lava_pools.len(), 1);
    assert_eq!(sorted(&zones.mountains[0].lava_pools[0].inner), vec![(1, 4)]);
    assert!(zones.cities.is_empty() && zones.hills.is_empty());
    // the hazard that touches no upland stays, and so do the terrains
    assert_eq!(world[2][2], PreTileType::Zone(2));
    assert_eq!(world[1][2], PreTileType::Water);
    assert_eq!(world[0][2], PreTileType::Grass);
    assert_eq!(world[0][0], PreTileType::Void);
    assert_eq!(world[1][4], PreTileType::Void);
}

fn lone(x: usize) -> Mountain {
    Mountain {
        zone: Zone { tile: PreTileType::Void, inner: vec![v(x, 0)], centroid: v(x, 0) },
        lava_pools: vec![Zone { tile: PreTileType::Void, inner: vec![v(x, 1)], centroid: v(x, 1) }],
    }
}

#[test]
fn two_thirds_are_promoted_and_half_of_those_demoted() {
    for (n, cities, hills) in
        [(0, 0, 0), (1, 0, 0), (2, 1, 0), (3, 1, 1), (4, 1, 1), (5, 2, 1), (6, 2, 2), (9, 3, 3)]
    {
        let mut zones = Zones {
            coasts: vec![],
            cities: vec![],
            hills: vec![],
            mountains: (0..n).map(lone).collect(),
        };
        zones.promote();
        assert_eq!(zones.cities.len(), 2 * n / 3);
        assert_eq!(zones.mountains.len(), n - 2 * n / 3);
        zones.demote();
        assert_eq!(zones.cities.len(), cities);
        assert_eq!(zones.hills.len(), hills);
        assert_eq!(zones.mountains.len() + cities + hills, n);
    }
}

#[test]
fn the_last_mountains_become_the_first_settlements() {
    let mut zones =
        Zones { coasts: vec![], cities: vec![], hills: vec![], mountains: (0..6).map(lone).collect() };
    zones.promote();
    let rows: Vec<usize> = zones.cities.iter().map(|c| c.inner[0].x).collect();
    assert_eq!(rows, vec![5, 4, 3, 2]);
    // a settlement has taken its pool
    assert_eq!(zones.cities[0].inner, vec![v(5, 0), v(5, 1)]);
    let left: Vec<usize> = zones.mountains.iter().map(|m| m.zone.inner[0].x).collect();
    assert_eq!(left, vec![0, 1]);
    zones.demote();
    let rows: Vec<usize> = zones.cities.iter().map(|c| c.inner[0].x).collect();
    assert_eq!(rows, vec![5, 4]);
    let hills: Vec<usize> = zones.hills.iter().map(|c| c.inner[0].x).collect();
    assert_eq!(hills, vec![2, 3]);
}

#[test]
fn fill_writes_the_terrain_of_every_region() {
    let picture = ["00.11", "..~12", "0.2.."];
    let mut world = grid(&picture);
    let mut zones = Zones::scan(&mut world);
    let mut rng = StdRng::seed_from_u64(3);
    zones.fill(&mut world, &mut rng);
    for coast in &zones.coasts {
        assert!(coast.tile == PreTileType::Sand || coast.tile == PreTileType::Grass);
        for p in &coast.inner {
            assert_eq!(world[p.x][p.y], coast.tile);
        }
    }
    assert_eq!(zones.mountains[0].zone.tile, PreTileType::Mountain);
    assert_eq!(world[0][3], PreTileType::Mountain);
    assert_eq!(world[0][4], PreTileType::Mountain);
    assert_eq!(world[1][3], PreTileType::Mountain);
    assert_eq!(zones.mountains[0].lava_pools[0].tile, PreTileType::Lava);
    assert_eq!(world[1][4], PreTileType::Lava);
    assert_eq!(world[2][2], PreTileType::Zone(2));
    assert_eq!(world[1][2], PreTileType::Water);
}

#[test]
fn coasts_get_sand_and_grass() {
    let mut world = vec![vec![PreTileType::Grass; 40]; 1];
    for y in (0..40).step_by(2) {
        world[0][y] = PreTileType::Zone(0);
    }
    let mut zones = Zones::scan(&mut world);
    assert_eq!(zones.coasts.len(), 20);
    let mut rng = StdRng::seed_from_u64(5);
    zones.fill(&mut world, &mut rng);
    let sand = zones.coasts.iter().filter(|c| c.tile == PreTileType::Sand).count();
    let grass = zones.coasts.iter().filter(|c| c.tile == PreTileType::Grass).count();
    assert_eq!(sand + grass, 20);
    assert!(sand > 0 && grass > 0);
}

#[test]
fn settlement_paves_over_its_pools() {
    // three uplands, each with a pool: two become settlements, one of those a foothill
    let picture = ["12.12.12"];
    let before = grid(&picture);
    let mut world = before.clone();
    let mut rng = StdRng::seed_from_u64(9);
    let zones = Zones::classify(&mut world, &mut rng);
    assert_eq!(zones.mountains.len(), 1);
    assert_eq!(zones.cities.len(), 1);
    assert_eq!(zones.hills.len(), 1);
    for m in &zones.mountains {
        let p = m.zone.inner[0];
        assert_eq!(world[p.x][p.y], PreTileType::Mountain);
        // the pool of a plain upland is lava
        assert_eq!(world[p.x][p.y + 1], PreTileType::Lava);
    }
    for c in &zones.cities {
        assert_eq!(c.inner.len(), 2);
        for p in &c.inner {
            assert_eq!(world[p.x][p.y], PreTileType::Grass);
        }
    }
    for h in &zones.hills {
        assert_eq!(h.inner.len(), 2);
        for p in &h.inner {
            assert_eq!(world[p.x][p.y], PreTileType::Hill);
        }
    }
    assert_eq!(world[0][2], PreTileType::Grass);
    assert_eq!(world[0][5], PreTileType::Grass);
    // every upland went somewhere
    let mut all: Vec<(usize, usize)> = Vec::new();
    for m in &zones.mountains {
        all.extend(sorted(&m.zone.inner));
        for p in &m.lava_pools {
            all.extend(sorted(&p.inner));
        }
    }
    for z in zones.cities.iter().chain(zones.hills.iter()) {
        all.extend(sorted(&z.inner));
    }
    all.sort();
    assert_eq!(all, vec![(0, 0), (0, 1), (0, 3), (0, 4), (0, 6), (0, 7)]);
}

#[test]
fn classification_leaves_no_coast_or_upland() {
    let picture = ["0011122..", "0.1112...", "..~~~.111", "00.~~.121", "0....2.11"];
    let before = grid(&picture);
    for seed in 0..20u64 {
        let mut world = before.clone();
        let mut rng = StdRng::seed_from_u64(seed);
        let zones = Zones::get_zones(&mut world, &mut rng);
        assert_eq!(zones.mountains.len() + zones.cities.len() + zones.hills.len(), 2);
        assert_eq!(zones.cities.len(), 1);
        assert_eq!(zones.coasts.len(), 2);
        for x in 0..before.len() {
            for y in 0..before[0].len() {
                let now = world[x][y];
                match before[x][y] {
                    PreTileType::Zone(0) => assert!(matches!(
                        now,
                        PreTileType::Sand | PreTileType::Grass | PreTileType::Road
                    )),
                    PreTileType::Zone(1) => assert!(matches!(
                        now,
                        PreTileType::Mountain
                            | PreTileType::Grass
                            | PreTileType::Hill
                            | PreTileType::Road
                    )),
                    PreTileType::Zone(2) => {
                        if (x, y) == (4, 5) {
                            // touches no upland: a hazard of its own
                            assert!(matches!(now, PreTileType::Lava | PreTileType::Road));
                        } else {
                            assert!(matches!(
                                now,
                                PreTileType::Lava
                                    | PreTileType::Grass
                                    | PreTileType::Hill
                                    | PreTileType::Road
                            ));
                        }
                    }
                    other => assert!(now == other || now == PreTileType::Road),
                }
                // no cell is left without a terrain
                assert!(now.to_tiletype().is_some());
            }
        }
    }
}

#[test]
fn classification_settles_what_no_region_takes() {
    // a hazard that touches no upland, a category that the classifier does
    // not know, and terrains
    let before = grid(&["2.7", "~.0"]);
    let mut world = before.clone();
    let mut rng = StdRng::seed_from_u64(4);
    let zones = Zones::classify(&mut world, &mut rng);
    assert!(zones.mountains.is_empty() && zones.cities.is_empty() && zones.hills.is_empty());
    assert_eq!(zones.coasts.len(), 1);
    assert_eq!(world[0][0], PreTileType::Lava);
    assert_eq!(world[0][1], PreTileType::Grass);
    assert_eq!(world[0][2], PreTileType::Grass);
    assert_eq!(world[1][0], PreTileType::Water);
    assert!(world[1][2] == PreTileType::Sand || world[1][2] == PreTileType::Grass);
}

#[test]
fn upland_regions_are_dealt_out() {
    // n upland regions: k = 2n/3 are promoted, k/2 of those demoted
    for n in 0..10usize {
        let mut row = String::new();
        for _ in 0..n {
            row.push_str("12.");
        }
        row.push('.');
        let before = grid(&[row.as_str()]);
        let mut world = before.clone();
        let mut rng = StdRng::seed_from_u64(n as u64);
        let zones = Zones::get_zones(&mut world, &mut rng);
        let k = 2 * n / 3;
        assert_eq!(zones.hills.len(), k / 2);
        assert_eq!(zones.cities.len(), k - k / 2);
        assert_eq!(zones.mountains.len(), n - k);
        // every upland region ends in exactly one of the three lists
        let mut seeds: Vec<usize> = Vec::new();
        for m in &zones.mountains {
            assert_eq!(m.zone.inner.len(), 1);
            assert_eq!(m.lava_pools.len(), 1);
            seeds.push(m.zone.inner[0].y);
        }
        for z in zones.cities.iter().chain(zones.hills.iter()) {
            // an upland cell and the cell of its pool
            assert_eq!(z.inner.len(), 2);
            assert_eq!(z.inner[1], v(0, z.inner[0].y + 1));
            seeds.push(z.inner[0].y);
        }
        seeds.sort();
        let expected: Vec<usize> = (0..n).map(|i| 3 * i).collect();
        assert_eq!(seeds, expected);
    }
}

#[test]
fn roads_run_between_the_chained_settlements() {
    // five upland cells in a row of grass: three are promoted, one of them demoted
    for seed in 0..20u64 {
        let before = grid(&["1...1...1...1...1"]);
        let mut world = before.clone();
        let mut rng = StdRng::seed_from_u64(seed);
        let zones = Zones::get_zones(&mut world, &mut rng);
        assert_eq!(zones.mountains.len(), 2);
        assert_eq!(zones.hills.len(), 1);
        assert_eq!(zones.cities.len(), 2);
        let from = zones.cities[0].centroid;
        let to = zones.cities[1].centroid;
        let (low, high) = (from.y.min(to.y), from.y.max(to.y));
        for y in 0..17 {
            let cell = world[0][y];
            if y == from.y {
                // the road leaves its first cell as it was
                assert_eq!(cell, PreTileType::Grass);
            } else if low <= y && y <= high {
                assert_eq!(cell, PreTileType::Road);
            } else if zones.hills[0].inner.contains(&v(0, y)) {
                assert_eq!(cell, PreTileType::Hill);
            } else if zones.mountains.iter().any(|m| m.zone.inner.contains(&v(0, y))) {
                assert_eq!(cell, PreTileType::Mountain);
            } else {
                assert_eq!(cell, PreTileType::Grass);
            }
        }
    }
}

#[test]
fn settlements_are_chained() {
    let mut world = vec![vec![PreTileType::Grass; 7]; 7];
    let city = |x: usize, y: usize| Zone {
        tile: PreTileType::Grass,
        inner: vec![v(x, y), v(x, y)],
        centroid: v(x, y),
    };
    let mut zones = Zones {
        coasts: vec![],
        cities: vec![city(0, 0), city(5, 5), city(1, 1), city(6, 0)],
        hills: vec![city(3, 3)],
        mountains: vec![],
    };
    zones.connect_cities(&mut world);
    let chain: Vec<Vector2> = zones.cities.iter().map(|c| c.centroid).collect();
    assert_eq!(chain, vec![v(0, 0), v(1, 1), v(6, 0), v(5, 5)]);
    // the regions went with their centroids
    for c in &zones.cities {
        assert_eq!(c.inner[0], c.centroid);
    }
    assert_eq!(zones.hills.len(), 1);
    // each is followed by the nearest of those behind it
    for i in 0..chain.len() - 1 {
        for j in i + 1..chain.len() {
            assert!(
                chain[i].manhattan_distance(chain[i + 1]) <= chain[i].manhattan_distance(chain[j])
            );
        }
    }
    for a in &chain[1..] {
        assert_eq!(world[a.x][a.y], PreTileType::Road);
    }
    assert_eq!(world[0][0], PreTileType::Grass);
}

#[test]
fn roads_join_the_settlements() {
    let mut world = vec![vec![PreTileType::Grass; 9]; 9];
    let city = |x: usize, y: usize| Zone { tile: PreTileType::Grass, inner: vec![v(x, y)], centroid: v(x, y) };
    let mut zones = Zones {
        coasts: vec![],
        cities: vec![city(0, 0), city(8, 8), city(0, 4)],
        hills: vec![],
        mountains: vec![],
    };
    zones.connect_cities(&mut world);
    assert_eq!(zones.cities.len(), 3);
    assert_eq!(zones.cities[0].centroid, v(0, 0));
    assert_eq!(zones.cities[1].centroid, v(0, 4));
    assert_eq!(zones.cities[2].centroid, v(8, 8));
    assert_eq!(world[0][4], PreTileType::Road);
    assert_eq!(world[8][8], PreTileType::Road);
    assert_eq!(world[0][0], PreTileType::Grass);
    let paved = world.iter().flatten().filter(|c| **c == PreTileType::Road).count();
    assert_eq!(paved, 4 + 12);
}

#[test]
fn stamps_and_paints() {
    let mut world = vec![vec![0u8; 3]; 2];
    stamp(&mut world, &vec![v(0, 0), v(1, 2), v(0, 0)], 9);
    assert_eq!(world, vec![vec![9, 0, 0], vec![0, 0, 9]]);
    let mut grid = vec![vec![PreTileType::Void; 3]; 2];
    let mut zone = Zone { tile: PreTileType::Void, inner: vec![v(1, 0), v(1, 1)], centroid: v(1, 0) };
    zone.fill(&mut grid, PreTileType::Sand);
    assert_eq!(zone.tile, PreTileType::Sand);
    assert_eq!(zone.inner, vec![v(1, 0), v(1, 1)]);
    assert_eq!(grid[1], vec![PreTileType::Sand, PreTileType::Sand, PreTileType::Void]);
    assert_eq!(grid[0], vec![PreTileType::Void; 3]);
    let mut list = vec![
        Zone { tile: PreTileType::Void, inner: vec![v(0, 0)], centroid: v(0, 0) },
        Zone { tile: PreTileType::Void, inner: vec![v(0, 2)], centroid: v(0, 2) },
    ];
    paint_list(&mut list, &mut grid, PreTileType::Hill);
    assert_eq!(grid[0], vec![PreTileType::Hill, PreTileType::Void, PreTileType::Hill]);
    assert!(list.iter().all(|z| z.tile == PreTileType::Hill));
}

#[test]
fn grass_of_a_settlement_gets_settlement_content() {
    let zones = Zones {
        coasts: vec![],
        cities: vec![Zone {
            tile: PreTileType::Grass,
            inner: vec![v(0, 0), v(0, 1), v(1, 1)],
            centroid: v(0, 0),
        }],
        hills: vec![],
        mountains: vec![],
    };
    let world = vec![
        vec![TileType::Grass, TileType::Street, TileType::Grass],
        vec![TileType::Grass, TileType::Grass, TileType::Grass],
    ];
    let table = CityContentDist::new(vec![(0..100, Content::Market(2))]);
    let mut contents = vec![vec![Content::Fire; 3]; 2];
    let mut rng = StdRng::seed_from_u64(1);
    zones.fill_cities_with_content(&world, &mut contents, &table, &mut rng);
    assert_eq!(contents[0], vec![Content::Market(2), Content::Fire, Content::Fire]);
    assert_eq!(contents[1], vec![Content::Fire, Content::Market(2), Content::Fire]);
    // with the default table what is drawn is one of its contents
    let table = CityContentDist::default();
    let offered = [
        Content::Empty,
        Content::Market(2),
        Content::Bank(0, 100),
        Content::Coin(10),
        Content::Crate(0, 100),
        Content::Garbage(1),
        Content::Tree(1),
        Content::Building,
    ];
    let mut seen = std::collections::HashSet::new();
    for _ in 0..300 {
        zones.fill_cities_with_content(&world, &mut contents, &table, &mut rng);
        assert!(offered.contains(&contents[0][0]));
        seen.insert(contents[0][0]);
        assert_eq!(contents[0][1], Content::Fire);
    }
    assert!(seen.len() > 3);
}

#[test]
fn settlements_are_picked_by_the_generator() {
    // six uplands in a row: four become settlements or foothills, two stay
    let picture = ["1.1.1.1.1.1"];
    let before = grid(&picture);
    let mut picks = std::collections::HashSet::new();
    for seed in 0..30u64 {
        let mut world = before.clone();
        let mut rng = StdRng::seed_from_u64(seed);
        let zones = Zones::classify(&mut world, &mut rng);
        assert_eq!(zones.mountains.len(), 2);
        assert_eq!(zones.cities.len(), 2);
        assert_eq!(zones.hills.len(), 2);
        let mut all: Vec<usize> = Vec::new();
        let mut left: Vec<usize> = zones.mountains.iter().map(|m| m.zone.inner[0].y).collect();
        left.sort();
        all.extend(&left);
        all.extend(zones.cities.iter().map(|c| c.inner[0].y));
        all.extend(zones.hills.iter().map(|c| c.inner[0].y));
        all.sort();
        assert_eq!(all, vec![0, 2, 4, 6, 8, 10]);
        picks.insert(left);
    }
    // not always the same two stay mountains
    assert!(picks.len() > 1);
}
