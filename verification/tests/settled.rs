use terragen::distribution::{CityContentDist, ContentDist, HoldRules, NoiseDist};
use terragen::generator_error::GeneratorError;
use terragen::tile::{Content, PreTileType, Tile, TileType};
use terragen::world_gen::{gen_world, scatter, terrains, to_tiles};

use rand::rngs::StdRng;
use rand::SeedableRng;

/// Percentiles of a grid of grass with three upland regions of two cells.
fn three_uplands() -> Vec<Vec<usize>> {
    let mut grid = vec![vec![60usize; 7]; 7];
    for (x, y) in [(0, 0), (0, 1), (2, 3), (2, 4), (5, 5), (5, 6)] {
        grid[x][y] = 75;
    }
    grid
}

fn elevations_of(size: usize) -> Vec<Vec<usize>> {
    (0..size).map(|x| (0..size).map(|y| 10 * x + y).collect()).collect()
}

/// A settlement table that gives one content for every roll.
fn only(content: Content) -> CityContentDist {
    CityContentDist::new(vec![(0..100, content)])
}

fn furnished(seed: u64) -> Vec<Vec<Tile>> {
    gen_world(
        &three_uplands(),
        &elevations_of(7),
        &NoiseDist::default(),
        &ContentDist::default(),
        &only(Content::Coin(77)),
        &HoldRules::permissive(),
        seed,
    )
    .unwrap()
}

#[test]
fn settlements_are_furnished_from_their_table() {
    for seed in 0..20u64 {
        let tiles = furnished(seed);
        assert_eq!(tiles.len(), 7);
        let regions = [[(0, 0), (0, 1)], [(2, 3), (2, 4)], [(5, 5), (5, 6)]];
        // of three upland regions one stays a mountain, one is a settlement
        // and one a foothill
        let mut kinds: Vec<TileType> = Vec::new();
        for region in regions {
            let first = tiles[region[0].0][region[0].1];
            for (x, y) in region {
                assert_eq!(tiles[x][y].tile_type, first.tile_type);
            }
            kinds.push(first.tile_type);
            if first.tile_type == TileType::Grass {
                for (x, y) in region {
                    assert_eq!(tiles[x][y].content, Content::Coin(77));
                }
            }
        }
        kinds.sort_by_key(|k| format!("{:?}", k));
        assert_eq!(kinds, vec![TileType::Grass, TileType::Hill, TileType::Mountain]);
        // no other cell is furnished, and every cell keeps its elevation
        let mut coins = 0;
        for x in 0..7 {
            assert_eq!(tiles[x].len(), 7);
            for y in 0..7 {
                assert_eq!(tiles[x][y].elevation, 10 * x + y);
                if tiles[x][y].content == Content::Coin(77) {
                    coins += 1;
                }
            }
        }
        assert_eq!(coins, 2);
        // a lone settlement has no road
        assert!(tiles.iter().flatten().all(|t| t.tile_type != TileType::Street));
    }
}

#[test]
fn furnished_world_is_the_same_for_the_same_seed() {
    assert_eq!(furnished(11), furnished(11));
}

#[test]
fn furnished_world_with_roads() {
    // six upland regions: four are promoted, two of them demoted
    let mut percentiles = vec![vec![60usize; 12]; 12];
    for (x, y) in [(0, 0), (0, 6), (4, 3), (6, 10), (10, 1), (11, 8)] {
        percentiles[x][y] = 75;
    }
    let tiles = gen_world(
        &percentiles,
        &elevations_of(12),
        &NoiseDist::default(),
        &ContentDist::default(),
        &only(Content::Coin(77)),
        &HoldRules::permissive(),
        5,
    )
    .unwrap();
    let count = |t: TileType| {
        [(0, 0), (0, 6), (4, 3), (6, 10), (10, 1), (11, 8)]
            .iter()
            .filter(|(x, y)| tiles[*x][*y].tile_type == t)
            .count()
    };
    // the first settlement of the chain stays grass and the road ends on the
    // other; the road may cross a mountain or a foothill
    assert_eq!(count(TileType::Grass), 1);
    assert!(count(TileType::Street) >= 1);
    assert!(count(TileType::Mountain) <= 2 && count(TileType::Hill) <= 2);
    assert_eq!(
        count(TileType::Mountain) + count(TileType::Hill) + count(TileType::Street),
        5
    );
    assert!(tiles.iter().flatten().filter(|t| t.tile_type == TileType::Street).count() >= 2);
    // a street holds what the content table gives a street
    let dist = ContentDist::default();
    for tile in tiles.iter().flatten().filter(|t| t.tile_type == TileType::Street) {
        assert!((0..100).any(|roll| dist.get_content(TileType::Street, roll) == tile.content));
    }
}

#[test]
fn run_with_a_settlement_table_at_fault_is_refused() {
    let run = |noise: NoiseDist, city: CityContentDist, rules: HoldRules, size: usize| {
        gen_world(
            &vec![vec![60usize; size]; size],
            &elevations_of(size),
            &noise,
            &ContentDist::default(),
            &city,
            &rules,
            1,
        )
    };
    assert!(run(NoiseDist::default(), CityContentDist::default(), HoldRules::permissive(), 3)
        .is_ok());
    assert_eq!(
        run(NoiseDist::default(), CityContentDist::new(vec![]), HoldRules::permissive(), 3),
        Err(GeneratorError::NonExhaustiveContentDistribution)
    );
    assert_eq!(
        run(
            NoiseDist::default(),
            CityContentDist::new(vec![(0..50, Content::Building), (60..100, Content::Empty)]),
            HoldRules::permissive(),
            3
        ),
        Err(GeneratorError::OverlappingDistribution)
    );
    assert_eq!(
        run(
            NoiseDist::default(),
            CityContentDist::new(vec![(0..50, Content::Building), (50..90, Content::Empty)]),
            HoldRules::permissive(),
            3
        ),
        Err(GeneratorError::NonExhaustiveContentDistribution)
    );
    // the content table is at fault under rules that permit nothing, and is
    // checked before the settlement table
    assert!(matches!(
        run(NoiseDist::default(), CityContentDist::new(vec![]), HoldRules::new(), 3),
        Err(GeneratorError::InvalidContent(_, _))
    ));
    // the category table is checked first
    assert_eq!(
        run(
            NoiseDist::new(vec![(0..50, PreTileType::Grass)]),
            CityContentDist::new(vec![]),
            HoldRules::new(),
            3
        ),
        Err(GeneratorError::NonExhaustiveContentDistribution)
    );
    assert_eq!(
        run(NoiseDist::default(), CityContentDist::default(), HoldRules::permissive(), 0),
        Err(GeneratorError::InvalidWorldSize)
    );
}

#[test]
fn settlement_table_must_suit_grass() {
    // under the strict rules grass cannot hold a market, which only the
    // settlement table lists
    let mut rules = HoldRules::new();
    let mut strict = HoldRules::new();
    let kinds = [
        Content::Rock(0),
        Content::Tree(0),
        Content::Garbage(0),
        Content::Fire,
        Content::Coin(0),
        Content::Bin(0, 0),
        Content::Crate(0, 0),
        Content::Bank(0, 0),
        Content::Water(0),
        Content::Market(0),
        Content::Fish(0),
        Content::Building,
        Content::Bush(0),
        Content::JollyBlock(0),
        Content::Scarecrow,
        Content::Empty,
    ];
    for slot in 0..terragen::tile::TERRAIN_KEYS {
        let tile = TileType::from_slot(slot);
        for content in kinds {
            if !(tile == TileType::Grass && content == Content::Market(0)) {
                strict.allow(tile, content);
            }
            rules.allow(tile, content);
        }
    }
    let run = |rules: &HoldRules| {
        gen_world(
            &three_uplands(),
            &elevations_of(7),
            &NoiseDist::default(),
            &ContentDist::default(),
            &CityContentDist::default(),
            rules,
            1,
        )
    };
    assert!(run(&rules).is_ok());
    assert_eq!(
        run(&strict).err(),
        Some(GeneratorError::InvalidContent(TileType::Grass, Content::Market(2)))
    );
}

#[test]
fn grid_with_other_elevations_is_refused() {
    assert_eq!(
        gen_world(
            &three_uplands(),
            &elevations_of(6),
            &NoiseDist::default(),
            &ContentDist::default(),
            &CityContentDist::default(),
            &HoldRules::permissive(),
            1,
        ),
        Err(GeneratorError::InvalidWorldSize)
    );
    assert_eq!(
        gen_world(
            &vec![vec![60usize; 4]; 3],
            &vec![vec![0usize; 4]; 3],
            &NoiseDist::default(),
            &ContentDist::default(),
            &CityContentDist::default(),
            &HoldRules::permissive(),
            1,
        ),
        Err(GeneratorError::InvalidWorldSize)
    );
}

#[test]
fn terrain_of_every_cell() {
    let world = vec![
        vec![PreTileType::Grass, PreTileType::Road, PreTileType::Lava],
        vec![PreTileType::DeepWater, PreTileType::Water],
        vec![],
        vec![PreTileType::Sand, PreTileType::Hill, PreTileType::Mountain],
    ];
    assert_eq!(
        terrains(&world),
        vec![
            vec![TileType::Grass, TileType::Street, TileType::Lava],
            vec![TileType::DeepWater, TileType::ShallowWater],
            vec![],
            vec![TileType::Sand, TileType::Hill, TileType::Mountain],
        ]
    );
}

#[test]
fn contents_are_scattered_by_terrain() {
    let terrain = vec![
        vec![TileType::Grass, TileType::DeepWater, TileType::Lava],
        vec![TileType::Street],
        vec![TileType::Hill, TileType::Sand],
    ];
    let dist = ContentDist::default();
    let mut rng = StdRng::seed_from_u64(3);
    let contents = scatter(&terrain, &dist, &mut rng);
    assert_eq!(contents.len(), 3);
    for x in 0..3 {
        assert_eq!(contents[x].len(), terrain[x].len());
        for y in 0..terrain[x].len() {
            assert!((0..100).any(|roll| dist.get_content(terrain[x][y], roll) == contents[x][y]));
        }
    }
}

#[test]
fn three_grids_make_the_tiles() {
    let terrain = vec![vec![TileType::Grass, TileType::Lava], vec![TileType::Sand]];
    let contents = vec![vec![Content::Tree(1), Content::Empty], vec![Content::Coin(3)]];
    let elevation = vec![vec![4, 5], vec![6]];
    assert_eq!(
        to_tiles(&terrain, &contents, &elevation),
        Ok(vec![
            vec![
                Tile { tile_type: TileType::Grass, content: Content::Tree(1), elevation: 4 },
                Tile { tile_type: TileType::Lava, content: Content::Empty, elevation: 5 },
            ],
            vec![Tile { tile_type: TileType::Sand, content: Content::Coin(3), elevation: 6 }],
        ])
    );
    let short = vec![vec![Content::Tree(1)], vec![Content::Coin(3)]];
    assert_eq!(to_tiles(&terrain, &short, &elevation), Err(GeneratorError::InvalidWorldSize));
    let fewer = vec![vec![4, 5]];
    assert_eq!(to_tiles(&terrain, &contents, &fewer), Err(GeneratorError::InvalidWorldSize));
    assert_eq!(to_tiles(&vec![], &vec![], &vec![]), Ok(vec![]));
}
