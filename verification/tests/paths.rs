use terragen::generator_error::GeneratorError;
use terragen::pathfinding::{build_road, shortest_path, shortest_priority, Node};
use terragen::roads::{connect, exchange};
use terragen::tile::{Content, PreTileType, Tile, TileType, Walkable};
use terragen::vector2::Vector2;

/// A cell with a price of its own choosing.
#[derive(Clone, Copy)]
struct Priced(u32);

impl Walkable for Priced {
    fn cost(&self) -> u32 {
        self.0
    }
}

fn uniform(rows: usize, columns: usize) -> Vec<Vec<PreTileType>> {
    vec![vec![PreTileType::Grass; columns]; rows]
}

fn priced(rows: &[&[u32]]) -> Vec<Vec<Priced>> {
    rows.iter().map(|r| r.iter().map(|w| Priced(*w)).collect()).collect()
}

fn v(x: usize, y: usize) -> Vector2 {
    Vector2::new(x, y)
}

fn step_apart(a: Vector2, b: Vector2) -> bool {
    a.x.abs_diff(b.x) + a.y.abs_diff(b.y) == 1
}

/// Checks that `path` leads from `start` to `end`, goal first and without the start.
fn assert_leads(path: &[Vector2], start: Vector2, end: Vector2, rows: usize, columns: usize) {
    if path.is_empty() {
        assert_eq!(start, end);
        return;
    }
    assert_eq!(path[0], end);
    assert!(step_apart(*path.last().unwrap(), start));
    for pair in path.windows(2) {
        assert!(step_apart(pair[0], pair[1]));
    }
    for p in path {
        assert!(p.x < rows && p.y < columns);
        // the path does not come back to the start
        assert_ne!(*p, start);
    }
    // and passes no cell twice
    let mut seen = std::collections::HashSet::new();
    for p in path {
        assert!(seen.insert((p.x, p.y)));
    }
}

fn price_of(map: &[Vec<Priced>], path: &[Vector2]) -> u64 {
    path.iter().map(|p| map[p.x][p.y].0 as u64).sum()
}

/// The price of the cheapest path, by relaxing every step until nothing changes.
fn cheapest_price(map: &[Vec<Priced>], start: Vector2, end: Vector2) -> u64 {
    let rows = map.len();
    let columns = map[0].len();
    let mut best = vec![vec![u64::MAX; columns]; rows];
    best[start.x][start.y] = 0;
    let mut changed = true;
    while changed {
        changed = false;
        for x in 0..rows {
            for y in 0..columns {
                if best[x][y] == u64::MAX {
                    continue;
                }
                for n in v(x, y).neighbours(rows, columns) {
                    let offer = best[x][y] + map[n.x][n.y].0 as u64;
                    if offer < best[n.x][n.y] {
                        best[n.x][n.y] = offer;
                        changed = true;
                    }
                }
            }
        }
    }
    best[end.x][end.y]
}

#[test]
fn three_by_three_corner_to_corner_takes_four_steps() {
    let map = uniform(3, 3);
    let path = shortest_path(&map, v(0, 0), v(2, 2)).unwrap();
    assert_eq!(path.len(), 4);
    assert_leads(&path, v(0, 0), v(2, 2), 3, 3);
    let path = shortest_priority(&map, v(0, 0), v(2, 2)).unwrap();
    assert_eq!(path.len(), 4);
    assert_leads(&path, v(0, 0), v(2, 2), 3, 3);
}

#[test]
fn uniform_grid_path_is_as_long_as_the_distance() {
    let map = uniform(7, 9);
    for (start, end) in [
        (v(0, 0), v(6, 8)),
        (v(6, 8), v(0, 0)),
        (v(3, 4), v(3, 0)),
        (v(5, 1), v(0, 7)),
        (v(2, 2), v(3, 2)),
    ] {
        let distance = start.manhattan_distance(end) as usize;
        for path in [
            shortest_path(&map, start, end).unwrap(),
            shortest_priority(&map, start, end).unwrap(),
        ] {
            assert_eq!(path.len(), distance);
            assert_leads(&path, start, end, 7, 9);
        }
    }
}

#[test]
fn path_to_the_start_itself_is_empty() {
    let map = uniform(4, 4);
    assert_eq!(shortest_path(&map, v(2, 1), v(2, 1)), Ok(vec![]));
    assert_eq!(shortest_priority(&map, v(2, 1), v(2, 1)), Ok(vec![]));
    let one = uniform(1, 1);
    assert_eq!(shortest_path(&one, v(0, 0), v(0, 0)), Ok(vec![]));
}

#[test]
fn path_is_written_from_the_goal_backwards() {
    let map = uniform(1, 4);
    assert_eq!(shortest_path(&map, v(0, 0), v(0, 3)), Ok(vec![v(0, 3), v(0, 2), v(0, 1)]));
    assert_eq!(shortest_priority(&map, v(0, 3), v(0, 1)), Ok(vec![v(0, 1), v(0, 2)]));
}

#[test]
fn grid_without_cells_is_refused() {
    let none: Vec<Vec<PreTileType>> = vec![];
    assert_eq!(shortest_path(&none, v(0, 0), v(0, 0)), Err(GeneratorError::InvalidWorldSize));
    let hollow: Vec<Vec<PreTileType>> = vec![vec![], vec![]];
    assert_eq!(shortest_priority(&hollow, v(0, 0), v(0, 0)), Err(GeneratorError::InvalidWorldSize));
}

#[test]
fn ragged_grid_is_refused() {
    let ragged = vec![vec![PreTileType::Grass; 3], vec![PreTileType::Grass; 2]];
    assert_eq!(shortest_path(&ragged, v(0, 0), v(1, 1)), Err(GeneratorError::InvalidWorldSize));
    assert_eq!(shortest_priority(&ragged, v(0, 0), v(1, 1)), Err(GeneratorError::InvalidWorldSize));
}

#[test]
fn ends_off_the_grid_are_out_of_bounds() {
    let map = uniform(3, 3);
    assert_eq!(shortest_path(&map, v(3, 0), v(1, 1)), Err(GeneratorError::OutOfBounds));
    assert_eq!(shortest_path(&map, v(1, 1), v(0, 3)), Err(GeneratorError::OutOfBounds));
    assert_eq!(shortest_priority(&map, v(0, 9), v(1, 1)), Err(GeneratorError::OutOfBounds));
    assert_eq!(shortest_priority(&map, v(1, 1), v(7, 7)), Err(GeneratorError::OutOfBounds));
}

#[test]
fn dear_cells_are_walked_around() {
    let map = priced(&[
        &[1, 900, 1, 1, 1],
        &[1, 900, 1, 900, 1],
        &[1, 900, 1, 900, 1],
        &[1, 1, 1, 900, 1],
    ]);
    for path in [
        shortest_path(&map, v(0, 0), v(0, 4)).unwrap(),
        shortest_priority(&map, v(0, 0), v(0, 4)).unwrap(),
    ] {
        assert_leads(&path, v(0, 0), v(0, 4), 4, 5);
        assert_eq!(price_of(&map, &path), 10);
        assert_eq!(path.len(), 10);
    }
}

#[test]
fn walled_in_goal_is_still_reached() {
    // every way to the goal crosses a dear cell: the path pays for one
    let map = priced(&[&[1, 1, 1], &[1, 500, 1], &[500, 1, 500], &[1, 500, 1]]);
    for path in [
        shortest_path(&map, v(0, 0), v(2, 1)).unwrap(),
        shortest_priority(&map, v(0, 0), v(2, 1)).unwrap(),
    ] {
        assert_leads(&path, v(0, 0), v(2, 1), 4, 3);
        assert_eq!(price_of(&map, &path), 502);
    }
}

#[test]
fn found_path_is_as_cheap_as_any() {
    // prices from a small generator of numbers, all at least 1
    let mut state: u64 = 0x2545_f491_4f6c_dd1d;
    let mut next = move || {
        state ^= state << 13;
        state ^= state >> 7;
        state ^= state << 17;
        state
    };
    for round in 0..40 {
        let rows = 2 + (round % 5);
        let columns = 2 + (round % 7);
        let map: Vec<Vec<Priced>> = (0..rows)
            .map(|_| (0..columns).map(|_| Priced(1 + (next() % 9) as u32)).collect())
            .collect();
        let start = v((next() % rows as u64) as usize, (next() % columns as u64) as usize);
        let end = v((next() % rows as u64) as usize, (next() % columns as u64) as usize);
        let cheapest = cheapest_price(&map, start, end);
        for path in [
            shortest_path(&map, start, end).unwrap(),
            shortest_priority(&map, start, end).unwrap(),
        ] {
            assert_leads(&path, start, end, rows, columns);
            assert_eq!(price_of(&map, &path), cheapest);
        }
    }
}

#[test]
fn free_cells_still_give_a_path() {
    let map = priced(&[&[0, 0, 5], &[7, 0, 0], &[1, 1, 0]]);
    for path in [
        shortest_path(&map, v(0, 0), v(2, 2)).unwrap(),
        shortest_priority(&map, v(0, 0), v(2, 2)).unwrap(),
    ] {
        assert_leads(&path, v(0, 0), v(2, 2), 3, 3);
    }
}

#[test]
fn path_over_free_cells_passes_no_cell_twice() {
    // roads cost nothing: a path may wander over them, but not in circles
    let map = vec![vec![PreTileType::Road; 6]; 6];
    for (start, end) in [(v(0, 0), v(5, 5)), (v(2, 3), v(2, 4)), (v(5, 0), v(0, 5))] {
        for path in [
            shortest_path(&map, start, end).unwrap(),
            shortest_priority(&map, start, end).unwrap(),
        ] {
            assert_leads(&path, start, end, 6, 6);
        }
    }
}

#[test]
fn items_change_places() {
    let mut items = vec![String::from("a"), String::from("b"), String::from("c")];
    exchange(&mut items, 0, 2);
    assert_eq!(items, vec!["c", "b", "a"]);
    exchange(&mut items, 1, 1);
    assert_eq!(items, vec!["c", "b", "a"]);
    exchange(&mut items, 1, 2);
    assert_eq!(items, vec!["c", "a", "b"]);
}

#[test]
fn node_records() {
    let n = Node::new(v(1, 2), 5, 3, 9);
    assert_eq!((n.coords, n.parent, n.g, n.h, n.weight, n.closed), (v(1, 2), None, 5, 3, 9, false));
    assert_eq!(n.g_cost(), 5);
    assert_eq!(n.f_cost(), 8);
    let mut m = Node::init(v(0, 0), 4, v(2, 3));
    assert_eq!(m.g, u64::MAX);
    assert_eq!(m.h, 5);
    assert_eq!(m.weight, 4);
    assert_eq!(m.parent, None);
    m.connect(v(0, 1), 12);
    assert_eq!(m.parent, Some(v(0, 1)));
    assert_eq!(m.g_cost(), 12);
    assert_eq!(m.f_cost(), 17);
    assert_eq!(m.weight, 4);
}

#[test]
fn prices_of_the_terrains() {
    let categories = [
        (PreTileType::Grass, 1),
        (PreTileType::Water, 3),
        (PreTileType::DeepWater, 10),
        (PreTileType::Sand, 1),
        (PreTileType::Mountain, 500),
        (PreTileType::Lava, 100000),
        (PreTileType::Road, 0),
        (PreTileType::Hill, 1),
        (PreTileType::Void, 1),
        (PreTileType::Zone(3), 1),
    ];
    for (c, price) in categories {
        assert_eq!(c.cost(), price);
    }
    let terrains = [
        (TileType::DeepWater, 500),
        (TileType::ShallowWater, 10),
        (TileType::Grass, 1),
        (TileType::Sand, 1),
        (TileType::Mountain, 3),
        (TileType::Snow, 4),
        (TileType::Lava, 666),
        (TileType::Teleport(false), 69),
        (TileType::Teleport(true), 69),
        (TileType::Hill, 2),
        (TileType::Street, 0),
        (TileType::Wall, 0),
    ];
    for (t, price) in terrains {
        let tile = Tile { tile_type: t, content: Content::Empty, elevation: 0 };
        assert_eq!(tile.cost(), price);
    }
}

#[test]
fn road_paves_the_cells_of_the_path() {
    let mut world = uniform(3, 3);
    build_road(&mut world, vec![v(0, 1), v(1, 1), v(1, 1)]);
    for x in 0..3 {
        for y in 0..3 {
            let expected = if (x, y) == (0, 1) || (x, y) == (1, 1) {
                PreTileType::Road
            } else {
                PreTileType::Grass
            };
            assert_eq!(world[x][y], expected);
        }
    }
    let tile = Tile { tile_type: TileType::Grass, content: Content::Tree(2), elevation: 7 };
    let mut tiles = vec![vec![tile; 2]; 2];
    build_road(&mut tiles, vec![v(1, 0)]);
    assert_eq!(
        tiles[1][0],
        Tile { tile_type: TileType::Street, content: Content::Empty, elevation: 7 }
    );
    assert_eq!(tiles[0][0], tile);
    assert_eq!(tiles[1][1], tile);
    build_road(&mut tiles, vec![]);
    assert_eq!(tiles[0][1], tile);
}

#[test]
fn anchors_are_chained_to_the_nearest() {
    let mut world = uniform(10, 10);
    let mut anchors = vec![v(0, 0), v(9, 9), v(0, 3), v(5, 5), v(0, 1)];
    connect(&mut world, &mut anchors);
    assert_eq!(anchors, vec![v(0, 0), v(0, 1), v(0, 3), v(5, 5), v(9, 9)]);
    // every anchor but the first lies on a road
    for a in &anchors[1..] {
        assert_eq!(world[a.x][a.y], PreTileType::Road);
    }
    assert_eq!(world[0][0], PreTileType::Grass);
    assert_eq!(world[0][2], PreTileType::Road);
    // each link is as long as the distance: 1 + 2 + 7 + 8 cells
    let paved = world.iter().flatten().filter(|c| **c == PreTileType::Road).count();
    assert_eq!(paved, 18);
}

#[test]
fn of_equally_near_anchors_the_last_comes_next() {
    let mut world = uniform(5, 5);
    let mut anchors = vec![v(2, 2), v(2, 4), v(0, 2), v(4, 2)];
    connect(&mut world, &mut anchors);
    assert_eq!(anchors[0], v(2, 2));
    assert_eq!(anchors[1], v(4, 2));
}

#[test]
fn fewer_than_two_anchors_make_no_road() {
    let mut world = uniform(4, 4);
    let mut none: Vec<Vector2> = vec![];
    connect(&mut world, &mut none);
    assert_eq!(world, uniform(4, 4));
    let mut one = vec![v(1, 1)];
    connect(&mut world, &mut one);
    assert_eq!(world, uniform(4, 4));
    assert_eq!(one, vec![v(1, 1)]);
}

#[test]
fn link_that_cannot_be_searched_is_skipped() {
    let mut world = uniform(4, 4);
    let mut anchors = vec![v(0, 0), v(40, 40), v(0, 2)];
    connect(&mut world, &mut anchors);
    assert_eq!(anchors, vec![v(0, 0), v(0, 2), v(40, 40)]);
    assert_eq!(world[0][1], PreTileType::Road);
    assert_eq!(world[0][2], PreTileType::Road);
    let paved = world.iter().flatten().filter(|c| **c == PreTileType::Road).count();
    assert_eq!(paved, 2);
}

#[test]
fn road_over_tiles_clears_what_they_hold() {
    let tile = Tile { tile_type: TileType::Grass, content: Content::Coin(3), elevation: 4 };
    let mut tiles = vec![vec![tile; 4]; 1];
    let mut anchors = vec![v(0, 0), v(0, 3)];
    connect(&mut tiles, &mut anchors);
    assert_eq!(tiles[0][0], tile);
    for y in 1..4 {
        assert_eq!(
            tiles[0][y],
            Tile { tile_type: TileType::Street, content: Content::Empty, elevation: 4 }
        );
    }
}

#[test]
fn positions() {
    let p = v(3, 4);
    assert_eq!(p.as_tuple(), (3, 4));
    assert_eq!((p.x, p.y), (3, 4));
    assert_eq!(p.manhattan_distance(v(0, 0)), 7);
    assert_eq!(p.manhattan_distance(v(5, 1)), 5);
    assert_eq!(p.manhattan_distance(p), 0);
    assert_eq!(p.add(v(1, 2)), v(4, 6));
    // the row before, the row after, the column before, the column after
    assert_eq!(v(1, 1).neighbours(3, 3), vec![v(0, 1), v(2, 1), v(1, 0), v(1, 2)]);
    assert_eq!(v(0, 0).neighbours(3, 3), vec![v(1, 0), v(0, 1)]);
    assert_eq!(v(2, 2).neighbours(3, 3), vec![v(1, 2), v(2, 1)]);
    assert_eq!(v(0, 1).neighbours(1, 3), vec![v(0, 0), v(0, 2)]);
    assert_eq!(v(0, 0).neighbours(1, 1), vec![]);
}
