use terragen::distribution::{
    check_ranges, default_list, noise_to_pretile, pick, zone_to_tiletype_dispatcher,
    CityContentDist, ContentDist, HoldRules, NoiseDist,
};
use terragen::generator_error::GeneratorError;
use terragen::tile::{Content, PreTile, PreTileType, TileType};

use rand::rngs::StdRng;
use rand::SeedableRng;

fn required_terrains() -> Vec<TileType> {
    vec![
        TileType::DeepWater,
        TileType::ShallowWater,
        TileType::Sand,
        TileType::Grass,
        TileType::Street,
        TileType::Hill,
        TileType::Mountain,
        TileType::Snow,
        TileType::Lava,
        TileType::Teleport(false),
        TileType::Wall,
    ]
}

fn whole(content: Content) -> Vec<(std::ops::Range<usize>, Content)> {
    vec![(0..100, content)]
}

fn table_with(tile: TileType, list: Vec<(std::ops::Range<usize>, Content)>) -> ContentDist {
    let mut table = ContentDist::default();
    table.insert(tile, list);
    table
}

/// Rules under which each terrain can hold the kinds of content that the
/// default table lists for it, and nothing else.
fn rules_of_the_default_table() -> HoldRules {
    let mut rules = HoldRules::new();
    for tile in required_terrains() {
        for (_, content) in default_list(tile) {
            rules.allow(tile, content);
        }
    }
    rules
}

#[test]
fn validity_test() {
    let dist = ContentDist::default();
    println!("{:?}", dist.is_valid(&rules_of_the_default_table()));
    assert!(dist.is_valid(&rules_of_the_default_table()).is_ok());
}

#[test]
fn default_content_dist_is_valid() {
    let content_dist = ContentDist::default();
    assert_eq!(content_dist.is_valid(&rules_of_the_default_table()), Ok(()))
}

#[test]
fn default_content_dist_is_refused_by_stricter_rules() {
    // the same rules but for one kind that the default table lists
    let mut rules = HoldRules::new();
    for tile in required_terrains() {
        for (_, content) in default_list(tile) {
            if !(tile == TileType::Hill && content == Content::Scarecrow) {
                rules.allow(tile, content);
            }
        }
    }
    assert_eq!(
        ContentDist::default().is_valid(&rules),
        Err(GeneratorError::InvalidContent(TileType::Hill, Content::Scarecrow))
    );
}

#[test]
fn default_tables_range_by_range() {
    let categories = NoiseDist::default();
    let expected = [
        (0, 32, PreTileType::DeepWater),
        (32, 42, PreTileType::Water),
        (42, 52, PreTileType::Zone(0)),
        (52, 70, PreTileType::Grass),
        (70, 81, PreTileType::Zone(1)),
        (81, 100, PreTileType::Zone(2)),
    ];
    for (start, end, category) in expected {
        for p in start..end {
            assert_eq!(categories.get(p), category);
        }
    }
    let city = CityContentDist::default();
    let expected = [
        (0, 60, Content::Empty),
        (60, 65, Content::Market(2)),
        (65, 70, Content::Bank(0, 100)),
        (70, 75, Content::Coin(10)),
        (75, 80, Content::Crate(0, 100)),
        (80, 85, Content::Garbage(1)),
        (85, 90, Content::Tree(1)),
        (90, 100, Content::Building),
    ];
    for (start, end, content) in expected {
        for p in start..end {
            assert_eq!(city.get_content(p), content);
        }
    }
}

#[test]
fn noise_to_tile_test() {
    let dist = NoiseDist::default();
    let z: f64 = 0.07;
    let normalized_z = (((z / 2.0) + 0.5) * 100.0).floor() as usize;
    assert_eq!(normalized_z, 53);
    assert_eq!(PreTileType::Grass, dist.get(normalized_z));
}

#[test]
fn two_ranges_classify_at_their_borders() {
    let table = NoiseDist::new(vec![(0..50, PreTileType::Sand), (50..100, PreTileType::Lava)]);
    assert_eq!(table.is_valid(), Ok(()));
    assert_eq!(table.get(0), PreTileType::Sand);
    assert_eq!(table.get(49), PreTileType::Sand);
    assert_eq!(table.get(50), PreTileType::Lava);
    assert_eq!(table.get(99), PreTileType::Lava);
}

#[test]
fn every_percentile_falls_in_the_range_that_holds_it() {
    let table = NoiseDist::default();
    let ranges = vec![
        (0..32, PreTileType::DeepWater),
        (32..42, PreTileType::Water),
        (42..52, PreTileType::Zone(0)),
        (52..70, PreTileType::Grass),
        (70..81, PreTileType::Zone(1)),
        (81..100, PreTileType::Zone(2)),
    ];
    for p in 0..100usize {
        let holding: Vec<_> = ranges.iter().filter(|(r, _)| r.contains(&p)).collect();
        assert_eq!(holding.len(), 1);
        assert_eq!(table.get(p), holding[0].1);
    }
}

#[test]
fn unmatched_percentile_gets_the_last_value() {
    let table = NoiseDist::new(vec![(0..10, PreTileType::Sand), (10..20, PreTileType::Hill)]);
    assert_eq!(table.get(20), PreTileType::Hill);
    assert_eq!(table.get(1000), PreTileType::Hill);
    assert_eq!(NoiseDist::default().get(100), PreTileType::Zone(2));
}

#[test]
fn empty_table_gives_the_fallback() {
    assert_eq!(NoiseDist::new(vec![]).get(5), PreTileType::Void);
    assert_eq!(CityContentDist::new(vec![]).get_content(5), Content::Empty);
    let empty: Vec<(std::ops::Range<usize>, u8)> = vec![];
    assert_eq!(pick(&empty, 3, 7u8), 7);
}

#[test]
fn first_range_that_holds_wins() {
    let overlapping = vec![(0..60, 1u8), (40..100, 2u8)];
    assert_eq!(pick(&overlapping, 50, 0), 1);
    assert_eq!(pick(&overlapping, 70, 0), 2);
}

#[test]
fn range_checks_name_the_fault() {
    let none: Vec<(std::ops::Range<usize>, u8)> = vec![];
    assert_eq!(check_ranges(&none), Err(GeneratorError::NonExhaustiveContentDistribution));
    assert_eq!(check_ranges(&vec![(0..50, 1u8), (50..100, 2u8)]), Ok(()));
    // a gap
    assert_eq!(
        check_ranges(&vec![(0..50, 1u8), (60..100, 2u8)]),
        Err(GeneratorError::OverlappingDistribution)
    );
    // an overlap
    assert_eq!(
        check_ranges(&vec![(0..50, 1u8), (40..100, 2u8)]),
        Err(GeneratorError::OverlappingDistribution)
    );
    // out of order
    assert_eq!(
        check_ranges(&vec![(50..100, 1u8), (0..50, 2u8)]),
        Err(GeneratorError::OverlappingDistribution)
    );
    // an empty range
    assert_eq!(
        check_ranges(&vec![(0..50, 1u8), (50..50, 2u8), (50..100, 3u8)]),
        Err(GeneratorError::OverlappingDistribution)
    );
    // does not begin at 0
    assert_eq!(
        check_ranges(&vec![(10..50, 1u8), (50..100, 2u8)]),
        Err(GeneratorError::NonExhaustiveContentDistribution)
    );
    // does not end at 100
    assert_eq!(
        check_ranges(&vec![(0..50, 1u8), (50..300, 2u8)]),
        Err(GeneratorError::NonExhaustiveContentDistribution)
    );
}

#[test]
fn default_tables_cover_the_percentiles() {
    assert_eq!(NoiseDist::default().is_valid(), Ok(()));
    assert_eq!(
        CityContentDist::default().is_valid(TileType::Grass, &HoldRules::permissive()),
        Ok(())
    );
    for tile in required_terrains() {
        assert_eq!(check_ranges(&default_list(tile)), Ok(()));
    }
    assert!(default_list(TileType::Teleport(true)).is_empty());
}

#[test]
fn default_contents_are_as_listed() {
    let table = ContentDist::default();
    assert_eq!(table.get_content(TileType::Grass, 0), Content::Empty);
    assert_eq!(table.get_content(TileType::Grass, 49), Content::Empty);
    assert_eq!(table.get_content(TileType::Grass, 50), Content::Tree(1));
    assert_eq!(table.get_content(TileType::Grass, 75), Content::Bin(0, 9));
    assert_eq!(table.get_content(TileType::Grass, 99), Content::Building);
    assert_eq!(table.get_content(TileType::ShallowWater, 89), Content::Water(5));
    assert_eq!(table.get_content(TileType::ShallowWater, 90), Content::Fish(2));
    assert_eq!(table.get_content(TileType::DeepWater, 95), Content::Fish(10));
    assert_eq!(table.get_content(TileType::Mountain, 85), Content::Crate(0, 5));
    assert_eq!(table.get_content(TileType::Hill, 80), Content::Scarecrow);
    assert_eq!(table.get_content(TileType::Sand, 94), Content::Bin(0, 10));
    assert_eq!(table.get_content(TileType::Street, 90), Content::Rock(1));
    assert_eq!(table.get_content(TileType::Snow, 95), Content::Rock(3));
    assert_eq!(table.get_content(TileType::Lava, 50), Content::Empty);
    assert_eq!(table.get_content(TileType::Wall, 50), Content::Empty);
    assert_eq!(table.get_content(TileType::Teleport(false), 50), Content::Empty);
    // no list for the active teleport
    assert_eq!(table.get_content(TileType::Teleport(true), 50), Content::Empty);
    let city = CityContentDist::default();
    assert_eq!(city.get_content(59), Content::Empty);
    assert_eq!(city.get_content(60), Content::Market(2));
    assert_eq!(city.get_content(65), Content::Bank(0, 100));
    assert_eq!(city.get_content(99), Content::Building);
}

#[test]
fn missing_terrain_is_not_exhaustive() {
    let mut lists = Vec::new();
    for tile in required_terrains() {
        if tile != TileType::Snow {
            lists.push((tile, whole(Content::Empty)));
        }
    }
    let table = ContentDist::new(lists);
    assert_eq!(
        table.is_valid(&HoldRules::permissive()),
        Err(GeneratorError::NonExhaustiveContentDistribution)
    );
    assert_eq!(
        ContentDist::empty().is_valid(&HoldRules::permissive()),
        Err(GeneratorError::NonExhaustiveContentDistribution)
    );
}

#[test]
fn active_teleport_is_refused() {
    let table = table_with(TileType::Teleport(true), whole(Content::Empty));
    assert_eq!(table.is_valid(&HoldRules::permissive()), Err(GeneratorError::ActiveTeleport));
}

#[test]
fn empty_list_is_not_exhaustive() {
    let table = table_with(TileType::Hill, vec![]);
    assert_eq!(
        table.is_valid(&HoldRules::permissive()),
        Err(GeneratorError::NonExhaustiveContentDistribution)
    );
}

#[test]
fn list_that_runs_past_100_is_not_exhaustive() {
    let table = table_with(
        TileType::ShallowWater,
        vec![(0..90, Content::Water(5)), (90..300, Content::Fish(2))],
    );
    assert_eq!(
        table.is_valid(&HoldRules::permissive()),
        Err(GeneratorError::NonExhaustiveContentDistribution)
    );
}

#[test]
fn gap_and_overlap_are_overlapping() {
    let gap = table_with(TileType::Sand, vec![(0..40, Content::Empty), (50..100, Content::Fire)]);
    assert_eq!(
        gap.is_valid(&HoldRules::permissive()),
        Err(GeneratorError::OverlappingDistribution)
    );
    let overlap =
        table_with(TileType::Sand, vec![(0..60, Content::Empty), (50..100, Content::Fire)]);
    assert_eq!(
        overlap.is_valid(&HoldRules::permissive()),
        Err(GeneratorError::OverlappingDistribution)
    );
}

#[test]
fn content_that_the_terrain_cannot_hold_is_invalid() {
    let mut rules = HoldRules::new();
    for tile in required_terrains() {
        for (_, content) in default_list(tile) {
            rules.allow(tile, content);
        }
    }
    assert_eq!(ContentDist::default().is_valid(&rules), Ok(()));
    // the default table offers no fire on lava
    assert!(!rules.can_hold(TileType::Lava, &Content::Fire));
    // kinds count, not quantities
    assert!(rules.can_hold(TileType::Grass, &Content::Tree(9)));
    let table = table_with(TileType::Lava, whole(Content::Fire));
    assert_eq!(
        table.is_valid(&rules),
        Err(GeneratorError::InvalidContent(TileType::Lava, Content::Fire))
    );
}

#[test]
fn first_fault_is_reported() {
    // deep water comes first in the order of terrains, lava later
    let mut table = ContentDist::default();
    table.insert(TileType::Lava, vec![]);
    table.insert(TileType::DeepWater, vec![(0..10, Content::Empty), (20..100, Content::Empty)]);
    assert_eq!(
        table.is_valid(&HoldRules::permissive()),
        Err(GeneratorError::OverlappingDistribution)
    );
    // within a list the content is looked at before the range
    let rules = HoldRules::new();
    assert_eq!(
        CityContentDist::new(vec![(5..1, Content::Fire)]).is_valid(TileType::Grass, &rules),
        Err(GeneratorError::InvalidContent(TileType::Grass, Content::Fire))
    );
    // a missing terrain is reported before the active teleport
    let mut lists = vec![(TileType::Teleport(true), whole(Content::Empty))];
    lists.push((TileType::Grass, whole(Content::Empty)));
    assert_eq!(
        ContentDist::new(lists).is_valid(&HoldRules::permissive()),
        Err(GeneratorError::NonExhaustiveContentDistribution)
    );
}

#[test]
fn hold_rules_start_empty_and_grow() {
    let mut rules = HoldRules::new();
    assert!(!rules.can_hold(TileType::Grass, &Content::Tree(1)));
    rules.allow(TileType::Grass, Content::Tree(1));
    assert!(rules.can_hold(TileType::Grass, &Content::Tree(1)));
    assert!(rules.can_hold(TileType::Grass, &Content::Tree(7)));
    assert!(!rules.can_hold(TileType::Grass, &Content::Rock(1)));
    assert!(!rules.can_hold(TileType::Sand, &Content::Tree(1)));
    rules.allow(TileType::Teleport(true), Content::Empty);
    assert!(rules.can_hold(TileType::Teleport(true), &Content::Empty));
    assert!(rules.can_hold(TileType::Grass, &Content::Tree(1)));
    assert!(HoldRules::permissive().can_hold(TileType::Wall, &Content::JollyBlock(3)));
}

#[test]
fn later_list_replaces_earlier() {
    let table = ContentDist::new(vec![
        (TileType::Grass, whole(Content::Fire)),
        (TileType::Sand, whole(Content::Coin(1))),
        (TileType::Grass, whole(Content::Building)),
    ]);
    assert_eq!(table.get_content(TileType::Grass, 10), Content::Building);
    assert_eq!(table.get_content(TileType::Sand, 10), Content::Coin(1));
    assert_eq!(table.get_content(TileType::Hill, 10), Content::Empty);
}

#[test]
fn percentile_becomes_a_provisional_cell() {
    let table = vec![
        (0..25, vec![TileType::DeepWater, TileType::ShallowWater]),
        (25..35, vec![TileType::ShallowWater]),
        (35..100, vec![]),
    ];
    let tile = noise_to_pretile(&table, 30);
    assert_eq!(tile.pre_tiletype, PreTileType::Zone(1));
    assert_eq!(tile.elevation, 30);
    assert_eq!(noise_to_pretile(&table, 0).pre_tiletype, PreTileType::Zone(0));
    assert_eq!(noise_to_pretile(&table, 250).pre_tiletype, PreTileType::Zone(2));
    let made = PreTile::new(4, 77);
    assert_eq!(made.pre_tiletype, PreTileType::Zone(4));
    assert_eq!(made.elevation, 77);
}

#[test]
fn region_terrain_is_one_of_the_choice() {
    let table = vec![
        (0..25, vec![TileType::DeepWater, TileType::ShallowWater]),
        (25..35, vec![TileType::Snow]),
        (35..100, vec![]),
    ];
    let mut rng = StdRng::seed_from_u64(11);
    let mut seen_deep = false;
    let mut seen_shallow = false;
    for _ in 0..200 {
        let picked = zone_to_tiletype_dispatcher(&table, 0, &mut rng);
        assert!(picked == TileType::DeepWater || picked == TileType::ShallowWater);
        seen_deep |= picked == TileType::DeepWater;
        seen_shallow |= picked == TileType::ShallowWater;
        assert_eq!(zone_to_tiletype_dispatcher(&table, 1, &mut rng), TileType::Snow);
        assert_eq!(zone_to_tiletype_dispatcher(&table, 2, &mut rng), TileType::ShallowWater);
    }
    assert!(seen_deep && seen_shallow);
}
