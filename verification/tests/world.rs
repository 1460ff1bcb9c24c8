use terragen::distribution::{default_list, ContentDist, HoldRules, NoiseDist};
use terragen::generator::{
    assemble, build_world, categorize, is_listed, put_content, settlement_anchors, shapes_match,
};
use terragen::generator_error::GeneratorError;
use terragen::tile::{Content, PreTileType, Tile, TileType};
use terragen::vector2::Vector2;
use terragen::zone::Zone;
use terragen::zones::resolve_leftovers;

use noise::{NoiseFn, Perlin};
use rand::rngs::StdRng;
use rand::{Rng, SeedableRng};
use std::collections::{HashMap, HashSet};

/// Elevation percentiles of a square grid: several octaves of noise, brought
/// into the range 0 to 100.
fn percentiles_from_noise(size: usize, seed: u32, octaves: i32, scale: f64) -> Vec<Vec<usize>> {
    let noise_fn = Perlin::new(seed);
    let mut matrix = Vec::with_capacity(size);
    for x in 0..size {
        let nx = x as f64 * scale / size as f64;
        let mut row = Vec::with_capacity(size);
        for y in 0..size {
            let ny = y as f64 * scale / size as f64;
            let mut elevation = noise_fn.get([nx, ny]);
            for i in 1..octaves {
                elevation += (1.0 / 2.0_f64.powi(i))
                    * noise_fn.get([nx * 2.0_f64.powi(i) + 0.420, ny * 2.0_f64.powi(i) - 0.420]);
            }
            elevation /= 1.8765420;
            elevation = (elevation + 1.0) / 2.0;
            row.push((elevation * 100.0) as usize);
        }
        matrix.push(row);
    }
    matrix
}

fn build(size: usize, seed: u32) -> (Vec<Vec<usize>>, Vec<Vec<Tile>>) {
    let percentiles = percentiles_from_noise(size, seed, 5, 4.2);
    let tiles = build_world(
        &percentiles,
        &percentiles,
        &NoiseDist::default(),
        &ContentDist::default(),
        &HoldRules::permissive(),
        &vec![TileType::Lava, TileType::DeepWater],
        seed as u64,
    )
    .unwrap();
    (percentiles, tiles)
}

/// The world that a generator with default settings makes for a size: noise
/// from a seed drawn at random, five octaves, the default tables.
fn gen(size: usize) -> Vec<Vec<Tile>> {
    let seed = rand::thread_rng().gen::<u32>();
    build(size, seed).1
}

#[test]
fn not_jagged() {
    let size = 420;
    let map = gen(size);
    assert_eq!(map.len(), size);
    for i in map {
        assert_eq!(i.len(), size);
    }
}

#[test]
fn no_true_teleporters() {
    let map = gen(420);

    assert!(!map.iter().flatten().any(|x| x.tile_type == TileType::Teleport(true)));
}

#[test]
fn the_world_is_square() {
    let rand = rand::thread_rng().gen_range(120..800);
    let map = gen(rand);
    assert_eq!(map.len(), map[0].len());
}

#[test]
fn content_dist_is_respected() {
    let map = gen(420);
    // I collect all the contents on the world map into sets for each tiletype
    let mut actual_dist: HashMap<TileType, HashSet<usize>> = HashMap::new();

    for i in map.iter().flatten() {
        let (tile_type, content) = (i.tile_type, i.content);
        actual_dist.entry(tile_type).or_default().insert(content.kind());
    }
    for (tile_type, content_set) in actual_dist {
        let content_vector = default_list(tile_type);
        let distribution_content_set: HashSet<usize> =
            content_vector.iter().map(|(_, x)| x.kind()).collect();
        println!(
            "first hashset: {:?}, second hashset: {:?}",
            distribution_content_set, content_set
        );
        assert!(content_set.is_subset(&distribution_content_set));
    }
}

#[test]
fn built_world_holds_what_the_table_lists() {
    let (_, map) = build(96, 42);
    let mut kinds = std::collections::HashSet::new();
    for tile in map.iter().flatten() {
        let listed: Vec<Content> =
            default_list(tile.tile_type).into_iter().map(|(_, c)| c).collect();
        assert!(listed.contains(&tile.content));
        kinds.insert(tile.tile_type);
    }
    // noise of this kind gives water, land and roads
    assert!(kinds.contains(&TileType::Grass));
    assert!(kinds.len() > 3);
}

#[test]
fn built_world_follows_the_categories() {
    let (percentiles, map) = build(64, 1234);
    let noise = NoiseDist::default();
    let mut streets = 0;
    for x in 0..64 {
        for y in 0..64 {
            let tile = map[x][y];
            assert_eq!(tile.elevation, percentiles[x][y]);
            if tile.tile_type == TileType::Street {
                streets += 1;
                assert_eq!(tile.content, Content::Empty);
                continue;
            }
            match noise.get(percentiles[x][y]) {
                PreTileType::DeepWater => assert_eq!(tile.tile_type, TileType::DeepWater),
                PreTileType::Water => assert_eq!(tile.tile_type, TileType::ShallowWater),
                PreTileType::Grass => assert_eq!(tile.tile_type, TileType::Grass),
                PreTileType::Zone(0) => {
                    assert!(matches!(tile.tile_type, TileType::Sand | TileType::Grass))
                }
                PreTileType::Zone(1) => assert!(matches!(
                    tile.tile_type,
                    TileType::Mountain | TileType::Grass | TileType::Hill
                )),
                PreTileType::Zone(2) => assert!(matches!(
                    tile.tile_type,
                    TileType::Lava | TileType::Grass | TileType::Hill
                )),
                other => panic!("the default table gives no {:?}", other),
            }
        }
    }
    assert!(streets > 0);
}

#[test]
fn same_seed_builds_the_same_world() {
    let (_, one) = build(48, 99);
    let (_, other) = build(48, 99);
    assert_eq!(one, other);
    let percentiles = percentiles_from_noise(48, 99, 5, 4.2);
    let with = |seed: u64| {
        build_world(
            &percentiles,
            &percentiles,
            &NoiseDist::default(),
            &ContentDist::default(),
            &HoldRules::permissive(),
            &vec![],
            seed,
        )
        .unwrap()
    };
    assert_eq!(with(5), with(5));
    assert_ne!(with(5), with(6));
}

#[test]
fn small_world_cell_by_cell() {
    // one coast, one water, one grass, one lone hazard
    let percentiles = vec![vec![45, 35], vec![60, 90]];
    let elevation = vec![vec![1, 2], vec![3, 4]];
    let tiles = build_world(
        &percentiles,
        &elevation,
        &NoiseDist::default(),
        &ContentDist::default(),
        &HoldRules::permissive(),
        &vec![],
        1,
    )
    .unwrap();
    assert!(matches!(tiles[0][0].tile_type, TileType::Sand | TileType::Grass));
    assert_eq!(tiles[0][1].tile_type, TileType::ShallowWater);
    assert_eq!(tiles[1][0].tile_type, TileType::Grass);
    assert_eq!(tiles[1][1].tile_type, TileType::Lava);
    assert_eq!(tiles[1][1].content, Content::Empty);
    assert!(matches!(tiles[0][1].content, Content::Water(5) | Content::Fish(2)));
    let heights: Vec<usize> = tiles.iter().flatten().map(|t| t.elevation).collect();
    assert_eq!(heights, vec![1, 2, 3, 4]);
}

#[test]
fn run_with_a_table_at_fault_is_refused() {
    let grid = vec![vec![10, 20], vec![30, 40]];
    let rules = HoldRules::permissive();
    let bad_noise = NoiseDist::new(vec![(0..50, PreTileType::Grass), (60..100, PreTileType::Sand)]);
    assert_eq!(
        build_world(&grid, &grid, &bad_noise, &ContentDist::default(), &rules, &vec![], 0),
        Err(GeneratorError::OverlappingDistribution)
    );
    assert_eq!(
        build_world(&grid, &grid, &NoiseDist::new(vec![]), &ContentDist::default(), &rules, &vec![], 0),
        Err(GeneratorError::NonExhaustiveContentDistribution)
    );
    let mut teleporting = ContentDist::default();
    teleporting.insert(TileType::Teleport(true), vec![(0..100, Content::Empty)]);
    assert_eq!(
        build_world(&grid, &grid, &NoiseDist::default(), &teleporting, &rules, &vec![], 0),
        Err(GeneratorError::ActiveTeleport)
    );
    assert_eq!(
        build_world(&grid, &grid, &NoiseDist::default(), &ContentDist::default(), &HoldRules::new(), &vec![], 0),
        Err(GeneratorError::InvalidContent(TileType::DeepWater, Content::Water(10)))
    );
    // the category table is looked at first, the grid last
    let none: Vec<Vec<usize>> = vec![];
    assert_eq!(
        build_world(&none, &none, &bad_noise, &teleporting, &rules, &vec![], 0),
        Err(GeneratorError::OverlappingDistribution)
    );
    assert_eq!(
        build_world(&none, &none, &NoiseDist::default(), &teleporting, &rules, &vec![], 0),
        Err(GeneratorError::ActiveTeleport)
    );
}

#[test]
fn grid_that_is_not_square_is_refused() {
    let rules = HoldRules::permissive();
    let run = |p: &Vec<Vec<usize>>, e: &Vec<Vec<usize>>| {
        build_world(p, e, &NoiseDist::default(), &ContentDist::default(), &rules, &vec![], 0)
    };
    let none: Vec<Vec<usize>> = vec![];
    assert_eq!(run(&none, &none), Err(GeneratorError::InvalidWorldSize));
    let wide = vec![vec![1, 2, 3], vec![4, 5, 6]];
    assert_eq!(run(&wide, &wide), Err(GeneratorError::InvalidWorldSize));
    let ragged = vec![vec![1, 2], vec![3]];
    assert_eq!(run(&ragged, &ragged), Err(GeneratorError::InvalidWorldSize));
    let square = vec![vec![1, 2], vec![3, 4]];
    assert_eq!(run(&square, &wide), Err(GeneratorError::InvalidWorldSize));
    assert_eq!(run(&square, &vec![vec![1, 2], vec![3]]), Err(GeneratorError::InvalidWorldSize));
    assert!(run(&square, &square).is_ok());
    assert!(run(&vec![vec![77]], &vec![vec![0]]).is_ok());
}

#[test]
fn percentiles_get_their_categories() {
    let world = categorize(&vec![vec![0, 31, 32], vec![52, 99, 100]], &NoiseDist::default());
    assert_eq!(
        world,
        vec![
            vec![PreTileType::DeepWater, PreTileType::DeepWater, PreTileType::Water],
            vec![PreTileType::Grass, PreTileType::Zone(2), PreTileType::Zone(2)],
        ]
    );
    assert_eq!(categorize(&vec![], &NoiseDist::default()), Vec::<Vec<PreTileType>>::new());
}

#[test]
fn leftovers_are_settled() {
    let mut world = vec![vec![
        PreTileType::Zone(2),
        PreTileType::Zone(0),
        PreTileType::Zone(7),
        PreTileType::Void,
        PreTileType::Water,
        PreTileType::Road,
        PreTileType::Lava,
    ]];
    resolve_leftovers(&mut world);
    assert_eq!(
        world,
        vec![vec![
            PreTileType::Lava,
            PreTileType::Grass,
            PreTileType::Grass,
            PreTileType::Grass,
            PreTileType::Water,
            PreTileType::Road,
            PreTileType::Lava,
        ]]
    );
    for cell in &world[0] {
        assert!(cell.to_tiletype().is_some());
    }
    assert_eq!(PreTileType::Zone(1).to_tiletype(), None);
    assert_eq!(PreTileType::Void.to_tiletype(), None);
    assert_eq!(PreTileType::Road.to_tiletype(), Some(TileType::Street));
    assert_eq!(PreTileType::Water.to_tiletype(), Some(TileType::ShallowWater));
    assert_eq!(PreTileType::Hill.to_tiletype(), Some(TileType::Hill));
}

#[test]
fn terrains_and_their_slots() {
    for slot in 0..12 {
        assert_eq!(TileType::from_slot(slot).slot(), slot);
    }
    assert_eq!(TileType::Teleport(true).slot(), 11);
    assert_eq!(TileType::DeepWater.slot(), 0);
    assert_eq!(TileType::from_slot(400), TileType::Teleport(true));
    assert_eq!(Content::Empty.kind(), 15);
    assert_eq!(Content::Rock(3).kind(), Content::Rock(8).kind());
    assert_ne!(Content::Bin(0, 1).kind(), Content::Crate(0, 1).kind());
}

#[test]
fn tiles_are_put_together() {
    let world = vec![vec![PreTileType::Lava, PreTileType::Sand], vec![PreTileType::Road, PreTileType::Hill]];
    let elevation = vec![vec![5, 6], vec![7, 8]];
    let mut rng = StdRng::seed_from_u64(2);
    let tiles = assemble(&world, &elevation, &ContentDist::default(), &mut rng);
    assert_eq!(tiles[0][0], Tile { tile_type: TileType::Lava, content: Content::Empty, elevation: 5 });
    assert_eq!(tiles[0][1].tile_type, TileType::Sand);
    assert_eq!(tiles[1][0].tile_type, TileType::Street);
    assert_eq!(tiles[1][1].tile_type, TileType::Hill);
    assert_eq!(tiles[1][1].elevation, 8);
    let sand: Vec<Content> = default_list(TileType::Sand).into_iter().map(|(_, c)| c).collect();
    assert!(sand.contains(&tiles[0][1].content));
}

#[test]
fn content_is_drawn_from_the_whole_list() {
    let table = ContentDist::default();
    let mut rng = StdRng::seed_from_u64(8);
    let listed: Vec<Content> = default_list(TileType::Snow).into_iter().map(|(_, c)| c).collect();
    let mut seen = std::collections::HashSet::new();
    for _ in 0..2000 {
        let content = put_content(&table, TileType::Snow, &mut rng);
        assert!(listed.contains(&content));
        seen.insert(content);
    }
    assert_eq!(seen.len(), 3);
    assert_eq!(put_content(&table, TileType::Teleport(true), &mut rng), Content::Empty);
}

#[test]
fn anchors_leave_out_what_cannot_be_spawned_on() {
    let tile = |t: TileType| Tile { tile_type: t, content: Content::Empty, elevation: 0 };
    let tiles = vec![
        vec![tile(TileType::Grass), tile(TileType::Lava)],
        vec![tile(TileType::DeepWater), tile(TileType::Hill)],
    ];
    let at = |x: usize, y: usize| Zone {
        tile: PreTileType::Grass,
        inner: vec![Vector2::new(x, y)],
        centroid: Vector2::new(x, y),
    };
    let cities = vec![at(1, 1), at(0, 1), at(5, 5), at(0, 0), at(1, 0)];
    let banned = vec![TileType::Lava, TileType::DeepWater];
    assert_eq!(
        settlement_anchors(&cities, &tiles, &banned),
        vec![Vector2::new(1, 1), Vector2::new(0, 0)]
    );
    assert_eq!(
        settlement_anchors(&cities, &tiles, &vec![]),
        vec![Vector2::new(1, 1), Vector2::new(0, 1), Vector2::new(0, 0), Vector2::new(1, 0)]
    );
    assert!(is_listed(&banned, TileType::Lava));
    assert!(!is_listed(&banned, TileType::Grass));
    assert!(!is_listed(&vec![TileType::Teleport(false)], TileType::Teleport(true)));
}

#[test]
fn shapes() {
    assert!(shapes_match(&vec![vec![1, 2], vec![3]], &vec![vec![0, 0], vec![0]]));
    assert!(!shapes_match(&vec![vec![1, 2], vec![3]], &vec![vec![0, 0], vec![0, 0]]));
    assert!(!shapes_match(&vec![vec![1, 2]], &vec![vec![0, 0], vec![0, 0]]));
    assert!(shapes_match::<usize, usize>(&vec![], &vec![]));
}
