//! Cheapest paths over a grid whose cells each have a price of entry.
//!
//! The grid is the graph: every cell is a vertex, its 4-neighbours are its
//! edges, and stepping onto a cell costs what the cell says. The search keeps,
//! for every cell it has reached, the cheapest price found so far and the cell
//! it was reached from, and settles the reached cell whose price plus distance
//! to the goal is least.

use crate::generator_error::GeneratorError;
use crate::grid::{
    cell_at, count_grid, dimensions, lemma_count_grid_bounds, lemma_count_grid_change,
    one_cell_changed, rectangular,
};
use crate::open_list::OpenList;
use crate::tile::{Paved, Walkable};
use crate::vector2::{
    adjacent, lemma_neighbours_are_adjacent, manhattan, neighbours_of, on_grid, stepwise,
    Vector2,
};
use vstd::prelude::*;

verus! {

/// A grid can be searched if it is rectangular, has a cell, and has at most this many.
pub const CELL_LIMIT: usize = 0xFFFF_FFFF;

/// The price recorded for a cell that the search has not reached.
pub const UNVISITED: u64 = 0xFFFF_FFFF_FFFF_FFFF;

/// The highest price of a single step.
pub const STEP_LIMIT: u64 = 0xFFFF_FFFF;

/// The grid is rectangular, has a cell and does not exceed `CELL_LIMIT`.
pub open spec fn searchable<T>(map: &Vec<Vec<T>>) -> bool {
    &&& map.len() > 0
    &&& map[0].len() > 0
    &&& rectangular(map@, map.len(), map[0].len())
    &&& map.len() * map[0].len() <= CELL_LIMIT
}

/// The price of stepping onto the cell at `p`.
pub open spec fn step_cost<T: Walkable>(map: &Vec<Vec<T>>, p: Vector2) -> int {
    cell_at(map@, p).spec_cost() as int
}

/// Every cell of the grid costs at least 1 to step onto.
pub open spec fn all_positive<T: Walkable>(map: &Vec<Vec<T>>) -> bool {
    forall|p: Vector2| on_grid(p, map.len(), map[0].len()) ==> #[trigger] step_cost(map, p) >= 1
}

/// `path` leads from `start` to `end` over the grid, written from the goal
/// backwards and without `start`: it begins with `end`, each cell is adjacent
/// to the next, and the last is adjacent to `start`. From a cell to itself the
/// empty path leads.
pub open spec fn is_route(
    rows: usize,
    columns: usize,
    start: Vector2,
    end: Vector2,
    path: Seq<Vector2>,
) -> bool {
    &&& on_grid(start, rows, columns)
    &&& forall|i: int| 0 <= i < path.len() ==> on_grid(#[trigger] path[i], rows, columns)
    &&& stepwise(path)
    &&& if path.len() == 0 {
        end == start
    } else {
        path[0] == end && adjacent(path.last(), start)
    }
}

/// The price of a path: the sum of the prices of its cells.
pub open spec fn route_cost<T: Walkable>(map: &Vec<Vec<T>>, path: Seq<Vector2>) -> int
    decreases path.len(),
{
    if path.len() == 0 {
        0
    } else {
        step_cost(map, path[0]) + route_cost(map, path.skip(1))
    }
}

/// What the search knows of one cell.
#[derive(Debug, Clone, Copy)]
pub struct Node {
    /// Where the cell is.
    pub coords: Vector2,
    /// The cell from which the cheapest known path steps onto this one.
    pub parent: Option<Vector2>,
    /// The price of the cheapest known path from the start, `UNVISITED` if none is known.
    pub g: u64,
    /// Distance to the goal.
    pub h: u32,
    /// The price of stepping onto the cell.
    pub weight: u32,
    /// The cell is settled: its price is final.
    pub closed: bool,
}

impl Node {
    /// The record of an open cell without parent.
    pub fn new(coords: Vector2, g: u64, h: u32, weight: u32) -> (n: Self)
        ensures
            n == (Node { coords, parent: None, g, h, weight, closed: false }),
    {
        Self { coords, parent: None, g, h, weight, closed: false }
    }

    /// The record of a cell that has not been reached.
    pub fn init(coords: Vector2, weight: u32, end: Vector2) -> (n: Self)
        requires
            manhattan(coords, end) <= u32::MAX,
        ensures
            n == (Node {
                coords,
                parent: None,
                g: UNVISITED,
                h: manhattan(coords, end) as u32,
                weight,
                closed: false,
            }),
    {
        Self {
            coords,
            parent: None,
            g: UNVISITED,
            h: coords.manhattan_distance(end),
            weight,
            closed: false,
        }
    }

    /// Price so far plus distance to the goal.
    pub fn f_cost(&self) -> (f: u64)
        requires
            self.g + self.h <= u64::MAX,
        ensures
            f == self.g + self.h,
    {
        self.g_cost() + self.h as u64
    }

    /// Records that the cell is reached from `parent` at the price `cost`.
    pub fn connect(&mut self, parent: Vector2, cost: u64)
        ensures
            *final(self) == (Node { parent: Some(parent), g: cost, ..*old(self) }),
    {
        self.parent = Some(parent);
        self.g = cost;
    }

    /// The price of the cheapest known path from the start.
    pub fn g_cost(&self) -> (g: u64)
        ensures
            g == self.g,
    {
        self.g
    }
}

/// The search has reached the cell.
pub open spec fn reached(n: Node) -> bool {
    n.g < UNVISITED
}

/// The cell is reached and not settled.
pub open spec fn is_open(n: Node) -> bool {
    n.g < UNVISITED && !n.closed
}

/// The cells that are not settled.
pub open spec fn pending() -> spec_fn(Node) -> bool {
    |n: Node| !n.closed
}

/// The distance that the search records for a cell: none for the start.
pub open spec fn heuristic(start: Vector2, end: Vector2, p: Vector2) -> int {
    if p == start {
        0
    } else {
        manhattan(p, end)
    }
}

/// Price so far plus distance to the goal.
pub open spec fn f_of(n: Node) -> int {
    n.g + n.h
}

/// The bookkeeping of a search that is not executed: the path by which each
/// reached cell was reached, and the number of cells settled.
pub struct Ledger {
    pub routes: Map<Vector2, Seq<Vector2>>,
    pub settled: nat,
}

/// Every cell of the path but its first is settled.
pub open spec fn tail_settled(nodes: Seq<Vec<Node>>, path: Seq<Vector2>) -> bool {
    forall|i: int| 1 <= i < path.len() ==> cell_at(nodes, #[trigger] path[i]).closed
}

/// The record of the cell at `p` is sound.
pub open spec fn node_ok<T: Walkable>(
    map: &Vec<Vec<T>>,
    start: Vector2,
    end: Vector2,
    nodes: Seq<Vec<Node>>,
    led: Ledger,
    p: Vector2,
) -> bool {
    let n = cell_at(nodes, p);
    &&& n.coords == p
    &&& n.weight == step_cost(map, p)
    &&& n.h == heuristic(start, end, p)
    &&& (n.closed ==> reached(n))
    &&& (!reached(n) ==> n.parent is None)
    &&& (led.settled == 0 ==> !n.closed && (reached(n) ==> p == start))
    &&& (p == start && led.settled > 0 ==> n.closed)
    &&& (reached(n) ==> {
        &&& is_route(map.len(), map[0].len(), start, p, led.routes[p])
        &&& led.routes[p].no_duplicates()
        &&& !led.routes[p].contains(start)
        &&& tail_settled(nodes, led.routes[p])
        &&& route_cost(map, led.routes[p]) == n.g
        &&& n.g + (if n.closed {
            STEP_LIMIT as int
        } else {
            0
        }) <= led.settled * STEP_LIMIT
        &&& if p == start {
            n.parent is None && n.g == 0 && led.routes[p].len() == 0
        } else {
            &&& n.parent is Some
            &&& on_grid(n.parent->0, map.len(), map[0].len())
            &&& adjacent(n.parent->0, p)
            &&& cell_at(nodes, n.parent->0).closed
            &&& led.routes[p] == seq![p] + led.routes[n.parent->0]
        }
    })
}

/// The step from the settled cell `p` onto `q` has been weighed.
pub open spec fn edge_done<T: Walkable>(
    map: &Vec<Vec<T>>,
    nodes: Seq<Vec<Node>>,
    p: Vector2,
    q: Vector2,
) -> bool {
    &&& reached(cell_at(nodes, q))
    &&& (all_positive(map) ==> cell_at(nodes, q).g <= cell_at(nodes, p).g + step_cost(map, q))
}

/// Every step from `p` has been weighed.
pub open spec fn cell_done<T: Walkable>(map: &Vec<Vec<T>>, nodes: Seq<Vec<Node>>, p: Vector2) -> bool {
    forall|q: Vector2|
        on_grid(q, map.len(), map[0].len()) && adjacent(p, q) ==> #[trigger] edge_done(
            map,
            nodes,
            p,
            q,
        )
}

/// Where all prices are positive, no settled cell has a higher price plus
/// distance than an open one.
pub open spec fn ordered<T: Walkable>(map: &Vec<Vec<T>>, nodes: Seq<Vec<Node>>) -> bool {
    all_positive(map) ==> forall|c: Vector2, o: Vector2|
        on_grid(c, map.len(), map[0].len()) && on_grid(o, map.len(), map[0].len())
            && #[trigger] cell_at(nodes, c).closed && is_open(#[trigger] cell_at(nodes, o))
            ==> f_of(cell_at(nodes, c)) <= f_of(cell_at(nodes, o))
}

/// What holds of a search between two settlings, but for the steps from `busy`,
/// which are being weighed.
pub open spec fn search_inv<T: Walkable>(
    map: &Vec<Vec<T>>,
    start: Vector2,
    end: Vector2,
    nodes: Seq<Vec<Node>>,
    led: Ledger,
    busy: Option<Vector2>,
) -> bool {
    &&& searchable(map)
    &&& on_grid(start, map.len(), map[0].len())
    &&& on_grid(end, map.len(), map[0].len())
    &&& rectangular(nodes, map.len(), map[0].len())
    &&& led.settled + count_grid(nodes, pending()) == map.len() * map[0].len()
    &&& reached(cell_at(nodes, start))
    &&& forall|p: Vector2|
        on_grid(p, map.len(), map[0].len()) ==> #[trigger] node_ok(map, start, end, nodes, led, p)
    &&& forall|p: Vector2|
        on_grid(p, map.len(), map[0].len()) && (#[trigger] cell_at(nodes, p)).closed && Some(p)
            != busy ==> cell_done(map, nodes, p)
    &&& ordered(map, nodes)
}

/// The cell `u` is open and no open cell has a lower price plus distance.
pub open spec fn is_cheapest(nodes: Seq<Vec<Node>>, rows: usize, columns: usize, u: Vector2) -> bool {
    &&& on_grid(u, rows, columns)
    &&& is_open(cell_at(nodes, u))
    &&& forall|o: Vector2|
        on_grid(o, rows, columns) && is_open(#[trigger] cell_at(nodes, o)) ==> f_of(
            cell_at(nodes, u),
        ) <= f_of(cell_at(nodes, o))
}

/// The cell that a path has reached after all but its first `k` cells: the
/// start itself where `k` is the whole length.
pub open spec fn waypoint(start: Vector2, path: Seq<Vector2>, k: int) -> Vector2 {
    if k >= path.len() {
        start
    } else {
        path[k]
    }
}

/// A path costs nothing less than 0 and no more than the dearest step for each of its cells.
pub proof fn lemma_route_cost_bounds<T: Walkable>(map: &Vec<Vec<T>>, path: Seq<Vector2>)
    ensures
        0 <= route_cost(map, path) <= path.len() * STEP_LIMIT,
    decreases path.len(),
{
    if path.len() > 0 {
        lemma_route_cost_bounds(map, path.skip(1));
        assert(path.len() * STEP_LIMIT == (path.len() - 1) * STEP_LIMIT + STEP_LIMIT)
            by (nonlinear_arith);
    }
}

/// What is left of a path after its first `k` cells leads to its waypoint.
pub proof fn lemma_route_suffix(
    rows: usize,
    columns: usize,
    start: Vector2,
    end: Vector2,
    path: Seq<Vector2>,
    k: int,
)
    requires
        is_route(rows, columns, start, end, path),
        0 <= k <= path.len(),
    ensures
        is_route(rows, columns, start, waypoint(start, path, k), path.skip(k)),
{
    let rest = path.skip(k);
    assert forall|i: int| 0 <= i < rest.len() implies on_grid(#[trigger] rest[i], rows, columns) by {
        assert(rest[i] == path[i + k]);
    }
    assert forall|i: int| 0 <= i < rest.len() - 1 implies adjacent(
        #[trigger] rest[i],
        rest[i + 1],
    ) by {
        assert(rest[i] == path[i + k]);
        assert(rest[i + 1] == path[i + k + 1]);
    }
    if rest.len() > 0 {
        assert(rest[0] == path[k]);
        assert(rest.last() == path.last());
    }
}

/// A path that leads to `c`, with a neighbour `v` of `c` put before it, leads to `v`.
pub proof fn lemma_route_extend<T: Walkable>(
    map: &Vec<Vec<T>>,
    start: Vector2,
    c: Vector2,
    v: Vector2,
    path: Seq<Vector2>,
)
    requires
        is_route(map.len(), map[0].len(), start, c, path),
        on_grid(v, map.len(), map[0].len()),
        adjacent(c, v),
    ensures
        is_route(map.len(), map[0].len(), start, v, seq![v] + path),
        route_cost(map, seq![v] + path) == step_cost(map, v) + route_cost(map, path),
{
    let longer = seq![v] + path;
    assert(longer.skip(1) =~= path);
    assert(longer[0] == v);
    assert forall|i: int| 0 <= i < longer.len() implies on_grid(
        #[trigger] longer[i],
        map.len(),
        map[0].len(),
    ) by {
        if i > 0 {
            assert(longer[i] == path[i - 1]);
        }
    }
    assert forall|i: int| 0 <= i < longer.len() - 1 implies adjacent(
        #[trigger] longer[i],
        longer[i + 1],
    ) by {
        assert(longer[i + 1] == path[i]);
        if i > 0 {
            assert(longer[i] == path[i - 1]);
        }
    }
    if path.len() > 0 {
        assert(longer.last() == path.last());
    }
}

/// Where every step costs at least 1, the price paid so far plus the distance
/// still to go never falls along a path.
pub proof fn lemma_potential<T: Walkable>(
    map: &Vec<Vec<T>>,
    start: Vector2,
    u: Vector2,
    goal: Vector2,
    path: Seq<Vector2>,
    k: int,
)
    requires
        is_route(map.len(), map[0].len(), start, u, path),
        all_positive(map),
        0 <= k <= path.len(),
    ensures
        route_cost(map, path.skip(k)) + manhattan(waypoint(start, path, k), goal) <= route_cost(
            map,
            path,
        ) + manhattan(u, goal),
    decreases k,
{
    if k == 0 {
        assert(path.skip(0) =~= path);
    } else {
        lemma_potential(map, start, u, goal, path, k - 1);
        let rest = path.skip(k - 1);
        assert(rest[0] == path[k - 1]);
        assert(rest.skip(1) =~= path.skip(k));
        assert(step_cost(map, path[k - 1]) >= 1);
        if k < path.len() {
            assert(adjacent(path[k - 1], path[k]));
        }
    }
}

/// Along any path from the start, looking from the start towards the path's
/// end and no further than the waypoint `j`: either some waypoint is open, or
/// waypoint `j` itself is reached; in both cases at no more than the price of
/// the path up to it.
pub proof fn lemma_frontier<T: Walkable>(
    map: &Vec<Vec<T>>,
    start: Vector2,
    end: Vector2,
    nodes: Seq<Vec<Node>>,
    led: Ledger,
    u: Vector2,
    path: Seq<Vector2>,
    j: int,
) -> (k: int)
    requires
        search_inv(map, start, end, nodes, led, None),
        all_positive(map),
        is_route(map.len(), map[0].len(), start, u, path),
        0 <= j <= path.len(),
    ensures
        j <= k <= path.len(),
        on_grid(waypoint(start, path, k), map.len(), map[0].len()),
        reached(cell_at(nodes, waypoint(start, path, k))),
        cell_at(nodes, waypoint(start, path, k)).g <= route_cost(map, path.skip(k)),
        k == j || !cell_at(nodes, waypoint(start, path, k)).closed,
    decreases path.len() - j,
{
    if j == path.len() {
        assert(node_ok(map, start, end, nodes, led, start));
        assert(path.skip(j).len() == 0);
        j
    } else {
        let k = lemma_frontier(map, start, end, nodes, led, u, path, j + 1);
        let c = waypoint(start, path, k);
        if k == j + 1 && cell_at(nodes, c).closed {
            let q = path[j];
            assert(adjacent(c, q)) by {
                if j + 1 < path.len() {
                    assert(adjacent(path[j], path[j + 1]));
                }
            }
            assert(cell_done(map, nodes, c));
            assert(edge_done(map, nodes, c, q));
            let rest = path.skip(j);
            assert(rest[0] == q);
            assert(rest.skip(1) =~= path.skip(j + 1));
            j
        } else {
            k
        }
    }
}

/// Where every step costs at least 1, the open cell with the least price plus
/// distance has the price of the cheapest path to it.
pub proof fn lemma_cheapest_is_tight<T: Walkable>(
    map: &Vec<Vec<T>>,
    start: Vector2,
    end: Vector2,
    nodes: Seq<Vec<Node>>,
    led: Ledger,
    u: Vector2,
    path: Seq<Vector2>,
)
    requires
        search_inv(map, start, end, nodes, led, None),
        all_positive(map),
        is_cheapest(nodes, map.len(), map[0].len(), u),
        is_route(map.len(), map[0].len(), start, u, path),
    ensures
        cell_at(nodes, u).g <= route_cost(map, path),
{
    assert(node_ok(map, start, end, nodes, led, u));
    lemma_route_cost_bounds(map, path);
    if u != start {
        let k = lemma_frontier(map, start, end, nodes, led, u, path, 0);
        let c = waypoint(start, path, k);
        if k == 0 {
            assert(path.skip(0) =~= path);
            assert(path.len() > 0);
        } else {
            assert(node_ok(map, start, end, nodes, led, c));
            assert(is_open(cell_at(nodes, c)));
            lemma_potential(map, start, u, end, path, k);
        }
    }
}

/// A set of cells that holds `from` and, with each of its cells, the cell's
/// neighbours on the grid, holds every cell of the grid.
pub proof fn lemma_grid_connected(
    rows: usize,
    columns: usize,
    inside: spec_fn(Vector2) -> bool,
    from: Vector2,
    to: Vector2,
)
    requires
        on_grid(from, rows, columns),
        on_grid(to, rows, columns),
        inside(from),
        forall|p: Vector2, q: Vector2|
            on_grid(p, rows, columns) && on_grid(q, rows, columns) && #[trigger] inside(p)
                && #[trigger] adjacent(p, q) ==> inside(q),
    ensures
        inside(to),
    decreases manhattan(from, to),
{
    if to != from {
        let nearer = if to.x > from.x {
            Vector2 { x: (to.x - 1) as usize, y: to.y }
        } else if to.x < from.x {
            Vector2 { x: (to.x + 1) as usize, y: to.y }
        } else if to.y > from.y {
            Vector2 { x: to.x, y: (to.y - 1) as usize }
        } else {
            Vector2 { x: to.x, y: (to.y + 1) as usize }
        };
        lemma_grid_connected(rows, columns, inside, from, nearer);
        assert(adjacent(nearer, to));
    }
}

/// On a grid that can be searched no two cells are further apart than `CELL_LIMIT`.
pub proof fn lemma_distance_fits(rows: usize, columns: usize, a: Vector2, b: Vector2)
    requires
        on_grid(a, rows, columns),
        on_grid(b, rows, columns),
        rows * columns <= CELL_LIMIT,
    ensures
        manhattan(a, b) < CELL_LIMIT,
{
    assert(rows + columns <= rows * columns + 1) by (nonlinear_arith)
        requires
            rows >= 1,
            columns >= 1,
    ;
}

/// No recorded price, with a step and a distance added, leaves the range of the numbers.
pub proof fn lemma_prices_fit<T: Walkable>(
    map: &Vec<Vec<T>>,
    start: Vector2,
    end: Vector2,
    nodes: Seq<Vec<Node>>,
    led: Ledger,
    busy: Option<Vector2>,
)
    requires
        search_inv(map, start, end, nodes, led, busy),
    ensures
        led.settled * STEP_LIMIT <= 0xFFFF_FFFE_0000_0001,
        forall|p: Vector2|
            on_grid(p, map.len(), map[0].len()) && reached(#[trigger] cell_at(nodes, p)) ==> f_of(
                cell_at(nodes, p),
            ) <= 0xFFFF_FFFF_0000_0000,
{
    let cells = map.len() * map[0].len();
    assert(led.settled <= cells);
    assert(led.settled * STEP_LIMIT <= 0xFFFF_FFFE_0000_0001) by (nonlinear_arith)
        requires
            led.settled <= 0xFFFF_FFFF,
            STEP_LIMIT == 0xFFFF_FFFF,
    ;
    assert forall|p: Vector2|
        on_grid(p, map.len(), map[0].len()) && reached(#[trigger] cell_at(nodes, p)) implies f_of(
        cell_at(nodes, p),
    ) <= 0xFFFF_FFFF_0000_0000 by {
        assert(node_ok(map, start, end, nodes, led, p));
    }
}

/// The records of a search that has reached nothing but its start.
fn node_map<T: Walkable>(
    map: &Vec<Vec<T>>,
    rows: usize,
    columns: usize,
    start: Vector2,
    end: Vector2,
) -> (nodes: Vec<Vec<Node>>)
    requires
        searchable(map),
        rows == map.len(),
        columns == map[0].len(),
        on_grid(start, rows, columns),
        on_grid(end, rows, columns),
    ensures
        rectangular(nodes@, rows, columns),
        forall|p: Vector2|
            on_grid(p, rows, columns) ==> #[trigger] cell_at(nodes@, p) == (Node {
                coords: p,
                parent: None,
                g: if p == start {
                    0
                } else {
                    UNVISITED
                },
                h: heuristic(start, end, p) as u32,
                weight: step_cost(map, p) as u32,
                closed: false,
            }),
{
    let mut nodes: Vec<Vec<Node>> = Vec::new();
    let mut x: usize = 0;
    while x < rows
        invariant
            searchable(map),
            rows == map.len(),
            columns == map[0].len(),
            on_grid(end, rows, columns),
            x <= rows,
            rectangular(nodes@, x, columns),
            forall|p: Vector2|
                on_grid(p, x, columns) ==> #[trigger] cell_at(nodes@, p) == (Node {
                    coords: p,
                    parent: None,
                    g: UNVISITED,
                    h: manhattan(p, end) as u32,
                    weight: step_cost(map, p) as u32,
                    closed: false,
                }),
        decreases rows - x,
    {
        let mut row: Vec<Node> = Vec::new();
        let mut y: usize = 0;
        while y < columns
            invariant
                searchable(map),
                rows == map.len(),
                columns == map[0].len(),
                on_grid(end, rows, columns),
                x < rows,
                y <= columns,
                row.len() == y,
                forall|j: int|
                    0 <= j < y ==> #[trigger] row[j] == (Node {
                        coords: Vector2 { x, y: j as usize },
                        parent: None,
                        g: UNVISITED,
                        h: manhattan(Vector2 { x, y: j as usize }, end) as u32,
                        weight: step_cost(map, Vector2 { x, y: j as usize }) as u32,
                        closed: false,
                    }),
            decreases columns - y,
        {
            let here = Vector2::new(x, y);
            proof {
                lemma_distance_fits(rows, columns, here, end);
            }
            let weight = map[x][y].cost();
            row.push(Node::init(here, weight, end));
            y += 1;
        }
        let ghost before = nodes@;
        nodes.push(row);
        proof {
            assert forall|p: Vector2| on_grid(p, (x + 1) as usize, columns) implies #[trigger] cell_at(
                nodes@,
                p,
            ) == (Node {
                coords: p,
                parent: None,
                g: UNVISITED,
                h: manhattan(p, end) as u32,
                weight: step_cost(map, p) as u32,
                closed: false,
            }) by {
                if p.x < x {
                    assert(cell_at(nodes@, p) == cell_at(before, p));
                } else {
                    assert(cell_at(nodes@, p) == row[p.y as int]);
                }
            }
        }
        x += 1;
    }
    let ghost before = nodes@;
    let first = Node::new(start, 0, 0, map[start.x][start.y].cost());
    nodes[start.x][start.y] = first;
    proof {
        assert(one_cell_changed(before, nodes@, start));
        assert forall|p: Vector2| on_grid(p, rows, columns) implies #[trigger] cell_at(nodes@, p) == (
        Node {
            coords: p,
            parent: None,
            g: if p == start {
                0
            } else {
                UNVISITED
            },
            h: heuristic(start, end, p) as u32,
            weight: step_cost(map, p) as u32,
            closed: false,
        }) by {
            if p != start {
                assert(cell_at(nodes@, p) == cell_at(before, p));
            }
        }
    }
    nodes
}

/// The open cell with the least price plus distance, the first such in reading
/// order; none if no cell is open.
fn take_min(nodes: &Vec<Vec<Node>>, rows: usize, columns: usize) -> (out: Option<Vector2>)
    requires
        rectangular(nodes@, rows, columns),
        forall|p: Vector2|
            on_grid(p, rows, columns) && reached(#[trigger] cell_at(nodes@, p)) ==> f_of(
                cell_at(nodes@, p),
            ) <= u64::MAX,
    ensures
        match out {
            Some(u) => is_cheapest(nodes@, rows, columns, u),
            None => forall|p: Vector2|
                on_grid(p, rows, columns) ==> !is_open(#[trigger] cell_at(nodes@, p)),
        },
{
    let mut best: Option<Vector2> = None;
    let mut least: u64 = 0;
    let mut x: usize = 0;
    while x < rows
        invariant
            rectangular(nodes@, rows, columns),
            forall|p: Vector2|
                on_grid(p, rows, columns) && reached(#[trigger] cell_at(nodes@, p)) ==> f_of(
                    cell_at(nodes@, p),
                ) <= u64::MAX,
            x <= rows,
            match best {
                Some(u) => on_grid(u, rows, columns) && is_open(cell_at(nodes@, u)) && least
                    == f_of(cell_at(nodes@, u)),
                None => true,
            },
            forall|p: Vector2|
                on_grid(p, x, columns) && is_open(#[trigger] cell_at(nodes@, p)) ==> best is Some
                    && least <= f_of(cell_at(nodes@, p)),
        decreases rows - x,
    {
        let mut y: usize = 0;
        while y < columns
            invariant
                rectangular(nodes@, rows, columns),
                forall|p: Vector2|
                    on_grid(p, rows, columns) && reached(#[trigger] cell_at(nodes@, p)) ==> f_of(
                        cell_at(nodes@, p),
                    ) <= u64::MAX,
                x < rows,
                y <= columns,
                match best {
                    Some(u) => on_grid(u, rows, columns) && is_open(cell_at(nodes@, u)) && least
                        == f_of(cell_at(nodes@, u)),
                    None => true,
                },
                forall|p: Vector2|
                    (on_grid(p, x, columns) || (p.x == x && p.y < y)) && is_open(
                        #[trigger] cell_at(nodes@, p),
                    ) ==> best is Some && least <= f_of(cell_at(nodes@, p)),
            decreases columns - y,
        {
            let n = nodes[x][y];
            let ghost here = Vector2 { x, y };
            assert(n == cell_at(nodes@, here));
            if !n.closed && n.g < UNVISITED {
                let f = n.f_cost();
                if best.is_none() || f < least {
                    best = Some(Vector2::new(x, y));
                    least = f;
                }
            }
            y += 1;
        }
        x += 1;
    }
    best
}

/// What holds while the steps from the closed cell `current` are weighed.
pub open spec fn weighing<T: Walkable>(
    map: &Vec<Vec<T>>,
    start: Vector2,
    end: Vector2,
    nodes: Seq<Vec<Node>>,
    led: Ledger,
    current: Vector2,
) -> bool {
    &&& search_inv(map, start, end, nodes, led, Some(current))
    &&& on_grid(current, map.len(), map[0].len())
    &&& cell_at(nodes, current).closed
    &&& all_positive(map) ==> forall|c: Vector2|
        on_grid(c, map.len(), map[0].len()) && (#[trigger] cell_at(nodes, c)).closed ==> f_of(
            cell_at(nodes, c),
        ) <= f_of(cell_at(nodes, current))
}

/// The record of the open or new cell `v` has been replaced by a cheaper one
/// that leads through its closed neighbour `current`.
pub open spec fn rerouted<T: Walkable>(
    map: &Vec<Vec<T>>,
    start: Vector2,
    end: Vector2,
    before: Seq<Vec<Node>>,
    after: Seq<Vec<Node>>,
    was: Ledger,
    now: Ledger,
    current: Vector2,
    v: Vector2,
) -> bool {
    let old_record = cell_at(before, v);
    let offer = cell_at(before, current).g + old_record.weight;
    &&& weighing(map, start, end, before, was, current)
    &&& on_grid(v, map.len(), map[0].len())
    &&& adjacent(current, v)
    &&& !old_record.closed
    &&& (old_record.g == UNVISITED || offer < old_record.g)
    &&& offer < UNVISITED
    &&& one_cell_changed(before, after, v)
    &&& cell_at(after, v) == (Node { parent: Some(current), g: offer as u64, ..old_record })
    &&& now == (Ledger {
        routes: was.routes.insert(v, seq![v] + was.routes[current]),
        settled: was.settled,
    })
}

/// A new record for `v` changes no other cell, closes none and keeps the shape of the grid.
proof fn lemma_rerouted_frame<T: Walkable>(
    map: &Vec<Vec<T>>,
    start: Vector2,
    end: Vector2,
    before: Seq<Vec<Node>>,
    after: Seq<Vec<Node>>,
    was: Ledger,
    now: Ledger,
    current: Vector2,
    v: Vector2,
)
    requires
        rerouted(map, start, end, before, after, was, now, current, v),
    ensures
        rectangular(after, map.len(), map[0].len()),
        count_grid(after, pending()) == count_grid(before, pending()),
        v != current,
        v != start,
        forall|p: Vector2|
            on_grid(p, map.len(), map[0].len()) && p != v ==> #[trigger] cell_at(after, p)
                == cell_at(before, p),
{
    assert(node_ok(map, start, end, before, was, start));
    assert(node_ok(map, start, end, before, was, current));
    lemma_count_grid_change(before, after, v, pending());
    assert forall|i: int| 0 <= i < after.len() implies (#[trigger] after[i]).len()
        == map[0].len() by {
        if i != v.x {
            assert(after[i] == before[i]);
        }
    }
}

/// A new record for `v` leaves every record sound.
proof fn lemma_rerouted_nodes<T: Walkable>(
    map: &Vec<Vec<T>>,
    start: Vector2,
    end: Vector2,
    before: Seq<Vec<Node>>,
    after: Seq<Vec<Node>>,
    was: Ledger,
    now: Ledger,
    current: Vector2,
    v: Vector2,
)
    requires
        rerouted(map, start, end, before, after, was, now, current, v),
    ensures
        forall|p: Vector2|
            on_grid(p, map.len(), map[0].len()) ==> #[trigger] node_ok(map, start, end, after, now, p),
{
    let rows = map.len();
    let columns = map[0].len();
    lemma_rerouted_frame(map, start, end, before, after, was, now, current, v);
    assert(node_ok(map, start, end, before, was, current));
    assert(node_ok(map, start, end, before, was, v));
    lemma_route_extend(map, start, current, v, was.routes[current]);
    lemma_route_grows_simple(before, rows, columns, start, current, v, was.routes[current]);
    lemma_tail_stays(before, after, rows, columns, v, seq![v] + was.routes[current]);
    assert forall|p: Vector2| on_grid(p, rows, columns) implies #[trigger] node_ok(
        map,
        start,
        end,
        after,
        now,
        p,
    ) by {
        assert(node_ok(map, start, end, before, was, p));
        if p != v {
            assert(cell_at(after, p) == cell_at(before, p));
            let n = cell_at(after, p);
            if reached(n) && p != start {
                let q = n.parent->0;
                assert(cell_at(after, q) == cell_at(before, q));
            }
            if reached(n) {
                lemma_tail_stays(before, after, rows, columns, v, was.routes[p]);
            }
        }
    }
}

/// A path whose tail is settled keeps a settled tail when the record of one
/// cell changes and no cell is opened again.
proof fn lemma_tail_stays(
    before: Seq<Vec<Node>>,
    after: Seq<Vec<Node>>,
    rows: usize,
    columns: usize,
    changed: Vector2,
    path: Seq<Vector2>,
)
    requires
        rectangular(before, rows, columns),
        one_cell_changed(before, after, changed),
        cell_at(before, changed).closed ==> cell_at(after, changed).closed,
        forall|i: int| 0 <= i < path.len() ==> on_grid(#[trigger] path[i], rows, columns),
        tail_settled(before, path),
    ensures
        tail_settled(after, path),
{
    assert forall|i: int| 1 <= i < path.len() implies cell_at(after, #[trigger] path[i]).closed by {
        let r = path[i];
        assert(on_grid(r, rows, columns));
        if r != changed {
            if r.x != changed.x {
                assert(after[r.x as int] == before[r.x as int]);
            }
            assert(cell_at(after, r) == cell_at(before, r));
        }
    }
}

/// A simple path of settled cells that ends at the settled cell `current`,
/// with a neighbour `v` that is not settled put before it, is simple, has a
/// settled tail and does not come back to the start.
proof fn lemma_route_grows_simple(
    nodes: Seq<Vec<Node>>,
    rows: usize,
    columns: usize,
    start: Vector2,
    current: Vector2,
    v: Vector2,
    path: Seq<Vector2>,
)
    requires
        is_route(rows, columns, start, current, path),
        path.no_duplicates(),
        !path.contains(start),
        tail_settled(nodes, path),
        cell_at(nodes, current).closed,
        !cell_at(nodes, v).closed,
        v != start,
    ensures
        (seq![v] + path).no_duplicates(),
        !(seq![v] + path).contains(start),
        tail_settled(nodes, seq![v] + path),
{
    let longer = seq![v] + path;
    assert forall|i: int| 0 <= i < path.len() implies cell_at(nodes, #[trigger] path[i]).closed by {
        if i == 0 {
            assert(path[0] == current);
        }
    }
    assert forall|i: int| 1 <= i < longer.len() implies cell_at(
        nodes,
        #[trigger] longer[i],
    ).closed by {
        assert(longer[i] == path[i - 1]);
    }
    assert forall|i: int, j: int| 0 <= i < longer.len() && 0 <= j < longer.len() && i
        != j implies longer[i] != longer[j] by {
        if i > 0 {
            assert(longer[i] == path[i - 1]);
        }
        if j > 0 {
            assert(longer[j] == path[j - 1]);
        }
    }
    if longer.contains(start) {
        let k = choose|k: int| 0 <= k < longer.len() && longer[k] == start;
        if k > 0 {
            assert(path[k - 1] == start);
        }
    }
}

/// A new record for `v` leaves weighed what was weighed, and weighs the step onto `v`.
proof fn lemma_rerouted_edges<T: Walkable>(
    map: &Vec<Vec<T>>,
    start: Vector2,
    end: Vector2,
    before: Seq<Vec<Node>>,
    after: Seq<Vec<Node>>,
    was: Ledger,
    now: Ledger,
    current: Vector2,
    v: Vector2,
)
    requires
        rerouted(map, start, end, before, after, was, now, current, v),
    ensures
        forall|p: Vector2|
            on_grid(p, map.len(), map[0].len()) && (#[trigger] cell_at(after, p)).closed && p
                != current ==> cell_done(map, after, p),
        edge_done(map, after, current, v),
        forall|q: Vector2|
            on_grid(q, map.len(), map[0].len()) && edge_done(map, before, current, q)
                ==> #[trigger] edge_done(map, after, current, q),
{
    let rows = map.len();
    let columns = map[0].len();
    lemma_rerouted_frame(map, start, end, before, after, was, now, current, v);
    assert(node_ok(map, start, end, before, was, v));
    assert forall|p: Vector2|
        on_grid(p, rows, columns) && (#[trigger] cell_at(after, p)).closed && p
            != current implies cell_done(map, after, p) by {
        assert(cell_at(after, p) == cell_at(before, p));
        assert(cell_done(map, before, p));
        assert forall|q: Vector2|
            on_grid(q, rows, columns) && adjacent(p, q) implies #[trigger] edge_done(
            map,
            after,
            p,
            q,
        ) by {
            assert(edge_done(map, before, p, q));
            if q != v {
                assert(cell_at(after, q) == cell_at(before, q));
            }
        }
    }
    assert forall|q: Vector2|
        on_grid(q, rows, columns) && edge_done(map, before, current, q) implies #[trigger] edge_done(
        map,
        after,
        current,
        q,
    ) by {
        if q != v {
            assert(cell_at(after, q) == cell_at(before, q));
        }
    }
}

/// A new record for `v` keeps the settled cells no dearer than the open ones.
proof fn lemma_rerouted_order<T: Walkable>(
    map: &Vec<Vec<T>>,
    start: Vector2,
    end: Vector2,
    before: Seq<Vec<Node>>,
    after: Seq<Vec<Node>>,
    was: Ledger,
    now: Ledger,
    current: Vector2,
    v: Vector2,
)
    requires
        rerouted(map, start, end, before, after, was, now, current, v),
    ensures
        ordered(map, after),
        all_positive(map) ==> forall|c: Vector2|
            on_grid(c, map.len(), map[0].len()) && (#[trigger] cell_at(after, c)).closed ==> f_of(
                cell_at(after, c),
            ) <= f_of(cell_at(after, current)),
{
    let rows = map.len();
    let columns = map[0].len();
    lemma_rerouted_frame(map, start, end, before, after, was, now, current, v);
    assert(node_ok(map, start, end, before, was, v));
    assert(node_ok(map, start, end, before, was, current));
    if all_positive(map) {
        assert(step_cost(map, v) >= 1);
        assert(f_of(cell_at(before, current)) <= f_of(cell_at(after, v)));
        assert forall|c: Vector2|
            on_grid(c, rows, columns) && (#[trigger] cell_at(after, c)).closed implies f_of(
            cell_at(after, c),
        ) <= f_of(cell_at(after, current)) by {
            assert(cell_at(after, c) == cell_at(before, c));
        }
        assert forall|c: Vector2, o: Vector2|
            on_grid(c, rows, columns) && on_grid(o, rows, columns) && #[trigger] cell_at(
                after,
                c,
            ).closed && is_open(#[trigger] cell_at(after, o)) implies f_of(cell_at(after, c))
            <= f_of(cell_at(after, o)) by {
            assert(cell_at(after, c) == cell_at(before, c));
            if o != v {
                assert(cell_at(after, o) == cell_at(before, o));
            }
        }
    }
}

/// The step from the closed cell `current` onto a closed neighbour needs no weighing.
proof fn lemma_closed_neighbour<T: Walkable>(
    map: &Vec<Vec<T>>,
    start: Vector2,
    end: Vector2,
    nodes: Seq<Vec<Node>>,
    led: Ledger,
    current: Vector2,
    v: Vector2,
)
    requires
        weighing(map, start, end, nodes, led, current),
        on_grid(v, map.len(), map[0].len()),
        adjacent(current, v),
        cell_at(nodes, v).closed,
    ensures
        edge_done(map, nodes, current, v),
{
    assert(node_ok(map, start, end, nodes, led, v));
    assert(node_ok(map, start, end, nodes, led, current));
    assert(node_ok(map, start, end, nodes, led, start));
    if all_positive(map) {
        assert(step_cost(map, v) >= 1);
    }
}

/// Weighs the step from the closed cell `current` onto its neighbour `v`. If
/// `v` is not closed and is new, or cheaper to reach through `current` than it
/// was, it gets `current` as its parent and the new price. Says whether the
/// record of `v` changed.
fn relax<T: Walkable>(
    map: &Vec<Vec<T>>,
    start: Vector2,
    end: Vector2,
    nodes: &mut Vec<Vec<Node>>,
    current: Vector2,
    v: Vector2,
    led: Ghost<Ledger>,
) -> (out: (bool, Ghost<Ledger>))
    requires
        weighing(map, start, end, old(nodes)@, led@, current),
        on_grid(v, map.len(), map[0].len()),
        adjacent(current, v),
    ensures
        weighing(map, start, end, final(nodes)@, out.1@, current),
        out.1@.settled == led@.settled,
        edge_done(map, final(nodes)@, current, v),
        forall|q: Vector2|
            on_grid(q, map.len(), map[0].len()) && edge_done(map, old(nodes)@, current, q)
                ==> #[trigger] edge_done(map, final(nodes)@, current, q),
        forall|p: Vector2|
            on_grid(p, map.len(), map[0].len()) && p != v ==> #[trigger] cell_at(final(nodes)@, p)
                == cell_at(old(nodes)@, p),
        cell_at(final(nodes)@, v).closed == cell_at(old(nodes)@, v).closed,
        out.0 ==> is_open(cell_at(final(nodes)@, v)),
        !out.0 ==> cell_at(final(nodes)@, v) == cell_at(old(nodes)@, v),
{
    let ghost at_entry = nodes@;
    let ghost led_entry = led@;
    proof {
        lemma_prices_fit(map, start, end, at_entry, led_entry, Some(current));
        assert(node_ok(map, start, end, at_entry, led_entry, v));
        assert(node_ok(map, start, end, at_entry, led_entry, current));
    }
    let here = nodes[current.x][current.y];
    let mut there = nodes[v.x][v.y];
    if there.closed {
        proof {
            lemma_closed_neighbour(map, start, end, at_entry, led_entry, current, v);
        }
        return (false, led);
    }
    let offer: u64 = here.g_cost() + there.weight as u64;
    if !(there.g == UNVISITED || offer < there.g) {
        return (false, led);
    }
    there.connect(current, offer);
    nodes[v.x][v.y] = there;
    let ghost now = Ledger {
        routes: led_entry.routes.insert(v, seq![v] + led_entry.routes[current]),
        settled: led_entry.settled,
    };
    proof {
        assert(one_cell_changed(at_entry, nodes@, v));
        assert(rerouted(map, start, end, at_entry, nodes@, led_entry, now, current, v));
        lemma_rerouted_frame(map, start, end, at_entry, nodes@, led_entry, now, current, v);
        lemma_rerouted_nodes(map, start, end, at_entry, nodes@, led_entry, now, current, v);
        lemma_rerouted_edges(map, start, end, at_entry, nodes@, led_entry, now, current, v);
        lemma_rerouted_order(map, start, end, at_entry, nodes@, led_entry, now, current, v);
        assert(cell_at(nodes@, start) == cell_at(at_entry, start));
    }
    (true, Ghost(now))
}

/// Settles the cheapest open cell: closes it and weighs the step onto each of
/// its neighbours. Returns the neighbours whose record changed.
#[verifier::rlimit(40)]
fn settle<T: Walkable>(
    map: &Vec<Vec<T>>,
    start: Vector2,
    end: Vector2,
    nodes: &mut Vec<Vec<Node>>,
    current: Vector2,
    led: Ghost<Ledger>,
) -> (out: (Vec<Vector2>, Ghost<Ledger>))
    requires
        search_inv(map, start, end, old(nodes)@, led@, None),
        is_cheapest(old(nodes)@, map.len(), map[0].len(), current),
    ensures
        search_inv(map, start, end, final(nodes)@, out.1@, None),
        out.1@.settled == led@.settled + 1,
        cell_at(final(nodes)@, current) == (Node { closed: true, ..cell_at(old(nodes)@, current) }),
        all_positive(map) ==> forall|r: Seq<Vector2>| #[trigger]
            is_route(map.len(), map[0].len(), start, current, r) ==> cell_at(
                final(nodes)@,
                current,
            ).g <= route_cost(map, r),
        forall|i: int|
            0 <= i < out.0@.len() ==> on_grid(#[trigger] out.0@[i], map.len(), map[0].len())
                && is_open(cell_at(final(nodes)@, out.0@[i])),
        forall|p: Vector2|
            on_grid(p, map.len(), map[0].len()) && p != current && !out.0@.contains(p)
                ==> #[trigger] cell_at(final(nodes)@, p) == cell_at(old(nodes)@, p),
        forall|p: Vector2|
            on_grid(p, map.len(), map[0].len()) && p != current ==> (#[trigger] cell_at(
                final(nodes)@,
                p,
            )).closed == cell_at(old(nodes)@, p).closed,
{
    let rows = nodes.len();
    let columns = nodes[0].len();
    let ghost before = nodes@;
    let ghost was = led@;
    proof {
        lemma_prices_fit(map, start, end, before, was, None);
        assert(node_ok(map, start, end, before, was, current));
        if all_positive(map) {
            assert forall|r: Seq<Vector2>| #[trigger]
                is_route(rows, columns, start, current, r) implies cell_at(before, current).g
                <= route_cost(map, r) by {
                lemma_cheapest_is_tight(map, start, end, before, was, current, r);
            }
        }
    }
    let mut here = nodes[current.x][current.y];
    here.closed = true;
    nodes[current.x][current.y] = here;
    let mut now: Ghost<Ledger> = Ghost(Ledger { routes: was.routes, settled: was.settled + 1 });
    proof {
        lemma_close(map, start, end, before, nodes@, was, now@, current);
    }
    let around = current.neighbours(rows, columns);
    let mut changed: Vec<Vector2> = Vec::new();
    let mut i: usize = 0;
    while i < around.len()
        invariant
            rows == map.len(),
            columns == map[0].len(),
            around@ == neighbours_of(current, rows, columns),
            i <= around.len(),
            weighing(map, start, end, nodes@, now@, current),
            now@.settled == was.settled + 1,
            cell_at(nodes@, current) == here,
            forall|j: int| 0 <= j < i ==> edge_done(map, nodes@, current, #[trigger] around@[j]),
            forall|k: int|
                0 <= k < changed@.len() ==> on_grid(#[trigger] changed@[k], rows, columns)
                    && is_open(cell_at(nodes@, changed@[k])),
            forall|p: Vector2|
                on_grid(p, rows, columns) && p != current && !changed@.contains(p)
                    ==> #[trigger] cell_at(nodes@, p) == cell_at(before, p),
            forall|p: Vector2|
                on_grid(p, rows, columns) && p != current ==> (#[trigger] cell_at(nodes@, p)).closed
                    == cell_at(before, p).closed,
        decreases around.len() - i,
    {
        let v = around[i];
        let ghost at_entry = nodes@;
        let ghost listed = changed@;
        proof {
            lemma_neighbours_are_adjacent(current, rows, columns, v);
            assert(around@.contains(v));
        }
        let (moved, next) = relax(map, start, end, nodes, current, v, now);
        now = next;
        if moved {
            changed.push(v);
        }
        proof {
            assert forall|k: int| 0 <= k < changed@.len() implies on_grid(
                #[trigger] changed@[k],
                rows,
                columns,
            ) && is_open(cell_at(nodes@, changed@[k])) by {
                if k < listed.len() {
                    assert(changed@[k] == listed[k]);
                    if listed[k] != v {
                        assert(cell_at(nodes@, listed[k]) == cell_at(at_entry, listed[k]));
                    }
                }
            }
            assert forall|p: Vector2|
                on_grid(p, rows, columns) && p != current && !changed@.contains(
                    p,
                ) implies #[trigger] cell_at(nodes@, p) == cell_at(before, p) by {
                if p != v {
                    assert(cell_at(nodes@, p) == cell_at(at_entry, p));
                    if listed.contains(p) {
                        let k = choose|k: int| 0 <= k < listed.len() && listed[k] == p;
                        assert(changed@[k] == p);
                    }
                } else {
                    if moved {
                        assert(changed@.last() == v);
                    }
                }
            }
            assert forall|p: Vector2| on_grid(p, rows, columns) && p != current implies (
            #[trigger] cell_at(nodes@, p)).closed == cell_at(before, p).closed by {
                if p != v {
                    assert(cell_at(nodes@, p) == cell_at(at_entry, p));
                }
            }
            assert forall|j: int| 0 <= j < i + 1 implies edge_done(
                map,
                nodes@,
                current,
                #[trigger] around@[j],
            ) by {
                if j < i {
                    assert(edge_done(map, at_entry, current, around@[j]));
                }
            }
        }
        i += 1;
    }
    proof {
        assert forall|q: Vector2|
            on_grid(q, rows, columns) && adjacent(current, q) implies #[trigger] edge_done(
            map,
            nodes@,
            current,
            q,
        ) by {
            lemma_neighbours_are_adjacent(current, rows, columns, q);
            let j = choose|j: int| 0 <= j < around@.len() && around@[j] == q;
            assert(edge_done(map, nodes@, current, around@[j]));
        }
        assert(cell_done(map, nodes@, current));
    }
    (changed, now)
}

/// Closing the cheapest open cell keeps the search sound.
#[verifier::rlimit(40)]
proof fn lemma_close<T: Walkable>(
    map: &Vec<Vec<T>>,
    start: Vector2,
    end: Vector2,
    before: Seq<Vec<Node>>,
    after: Seq<Vec<Node>>,
    was: Ledger,
    now: Ledger,
    current: Vector2,
)
    requires
        search_inv(map, start, end, before, was, None),
        is_cheapest(before, map.len(), map[0].len(), current),
        one_cell_changed(before, after, current),
        cell_at(after, current) == (Node { closed: true, ..cell_at(before, current) }),
        now == (Ledger { routes: was.routes, settled: was.settled + 1 }),
    ensures
        weighing(map, start, end, after, now, current),
{
    let rows = map.len();
    let columns = map[0].len();
    assert forall|p: Vector2| on_grid(p, rows, columns) && p != current implies #[trigger] cell_at(
        after,
        p,
    ) == cell_at(before, p) by {}
    lemma_count_grid_change(before, after, current, pending());
    assert((was.settled + 1) * STEP_LIMIT == was.settled * STEP_LIMIT + STEP_LIMIT)
        by (nonlinear_arith);
    assert(node_ok(map, start, end, before, was, current));
    assert(node_ok(map, start, end, before, was, start));
    assert forall|p: Vector2| on_grid(p, rows, columns) implies #[trigger] node_ok(
        map,
        start,
        end,
        after,
        now,
        p,
    ) by {
        assert(node_ok(map, start, end, before, was, p));
        if p != current {
            assert(cell_at(after, p) == cell_at(before, p));
        }
        let n = cell_at(after, p);
        if reached(n) && p != start {
            let q = n.parent->0;
            if q != current {
                assert(cell_at(after, q) == cell_at(before, q));
            }
        }
        if reached(n) {
            lemma_tail_stays(before, after, rows, columns, current, was.routes[p]);
        }
    }
    assert forall|p: Vector2|
        on_grid(p, rows, columns) && (#[trigger] cell_at(after, p)).closed && p
            != current implies cell_done(map, after, p) by {
        assert(cell_at(after, p) == cell_at(before, p));
        assert(cell_done(map, before, p));
        assert forall|q: Vector2|
            on_grid(q, rows, columns) && adjacent(p, q) implies #[trigger] edge_done(
            map,
            after,
            p,
            q,
        ) by {
            assert(edge_done(map, before, p, q));
            if q != current {
                assert(cell_at(after, q) == cell_at(before, q));
            }
        }
    }
    if all_positive(map) {
        assert forall|c: Vector2, o: Vector2|
            on_grid(c, rows, columns) && on_grid(o, rows, columns) && #[trigger] cell_at(
                after,
                c,
            ).closed && is_open(#[trigger] cell_at(after, o)) implies f_of(cell_at(after, c))
            <= f_of(cell_at(after, o)) by {
            assert(cell_at(after, o) == cell_at(before, o));
            if c != current {
                assert(cell_at(after, c) == cell_at(before, c));
            }
        }
        assert forall|c: Vector2|
            on_grid(c, rows, columns) && (#[trigger] cell_at(after, c)).closed implies f_of(
            cell_at(after, c),
        ) <= f_of(cell_at(after, current)) by {
            if c != current {
                assert(cell_at(after, c) == cell_at(before, c));
            }
        }
    }
}

/// Walks from the goal back along the parents and hands out the cells passed,
/// the goal first, the start left out.
fn trace<T: Walkable>(
    map: &Vec<Vec<T>>,
    start: Vector2,
    end: Vector2,
    nodes: &Vec<Vec<Node>>,
    led: Ghost<Ledger>,
) -> (out: Result<Vec<Vector2>, GeneratorError>)
    requires
        search_inv(map, start, end, nodes@, led@, None),
        cell_at(nodes@, end).closed,
    ensures
        out matches Ok(path) && path@ == led@.routes[end],
{
    let mut path: Vec<Vector2> = Vec::new();
    let mut current = end;
    while current != start
        invariant
            search_inv(map, start, end, nodes@, led@, None),
            on_grid(current, map.len(), map[0].len()),
            cell_at(nodes@, current).closed,
            path@ + led@.routes[current] == led@.routes[end],
        decreases led@.routes[current].len(),
    {
        proof {
            assert(node_ok(map, start, end, nodes@, led@, current));
        }
        path.push(current);
        match nodes[current.x][current.y].parent {
            Some(p) => {
                proof {
                    let longer = seq![current] + led@.routes[p];
                    assert(path@ + led@.routes[p] =~= path@.drop_last() + longer);
                }
                current = p;
            },
            None => {
                return Err(GeneratorError::NoPathFound);
            },
        }
    }
    proof {
        assert(node_ok(map, start, end, nodes@, led@, start));
        assert(path@ + led@.routes[start] =~= path@);
    }
    Ok(path)
}

/// Whether a search over `map` between the two cells can start: the error that
/// refuses it, if any.
pub open spec fn refusal<T>(map: &Vec<Vec<T>>, start: Vector2, end: Vector2) -> Option<
    GeneratorError,
> {
    if !searchable(map) {
        Some(GeneratorError::InvalidWorldSize)
    } else if !(on_grid(start, map.len(), map[0].len()) && on_grid(end, map.len(), map[0].len())) {
        Some(GeneratorError::OutOfBounds)
    } else {
        None
    }
}

/// `path` is a cheapest path from `start` to `end` where every step costs at
/// least 1, and in any case a path from `start` to `end` that passes no cell
/// twice and does not come back to `start`.
pub open spec fn is_answer<T: Walkable>(
    map: &Vec<Vec<T>>,
    start: Vector2,
    end: Vector2,
    path: Seq<Vector2>,
) -> bool {
    &&& is_route(map.len(), map[0].len(), start, end, path)
    &&& path.no_duplicates()
    &&& !path.contains(start)
    &&& (start == end ==> path.len() == 0)
    &&& all_positive(map) ==> forall|other: Seq<Vector2>| #[trigger]
        is_route(map.len(), map[0].len(), start, end, other) ==> route_cost(map, path)
            <= route_cost(map, other)
}

/// Checks that a search can start and gives the size of the grid.
fn survey<T>(map: &Vec<Vec<T>>, start: Vector2, end: Vector2) -> (out: Result<
    (usize, usize),
    GeneratorError,
>)
    ensures
        match out {
            Ok((rows, columns)) => refusal(map, start, end) is None && rows == map.len() && columns
                == map[0].len(),
            Err(e) => refusal(map, start, end) == Some(e),
        },
{
    let (rows, columns) = match dimensions(map) {
        Some(d) => d,
        None => {
            return Err(GeneratorError::InvalidWorldSize);
        },
    };
    match rows.checked_mul(columns) {
        Some(cells) => {
            if cells > CELL_LIMIT {
                return Err(GeneratorError::InvalidWorldSize);
            }
        },
        None => {
            return Err(GeneratorError::InvalidWorldSize);
        },
    }
    if !(start.x < rows && start.y < columns && end.x < rows && end.y < columns) {
        return Err(GeneratorError::OutOfBounds);
    }
    Ok((rows, columns))
}

/// The state in which a search starts is sound.
proof fn lemma_search_starts<T: Walkable>(
    map: &Vec<Vec<T>>,
    start: Vector2,
    end: Vector2,
    nodes: Seq<Vec<Node>>,
    led: Ledger,
)
    requires
        refusal(map, start, end) is None,
        rectangular(nodes, map.len(), map[0].len()),
        forall|p: Vector2|
            on_grid(p, map.len(), map[0].len()) ==> #[trigger] cell_at(nodes, p) == (Node {
                coords: p,
                parent: None,
                g: if p == start {
                    0
                } else {
                    UNVISITED
                },
                h: heuristic(start, end, p) as u32,
                weight: step_cost(map, p) as u32,
                closed: false,
            }),
        led == (Ledger {
            routes: Map::<Vector2, Seq<Vector2>>::empty().insert(start, Seq::empty()),
            settled: 0,
        }),
    ensures
        search_inv(map, start, end, nodes, led, None),
{
    let rows = map.len();
    let columns = map[0].len();
    lemma_count_grid_bounds(nodes, rows, columns, pending());
    assert forall|p: Vector2| on_grid(p, rows, columns) implies #[trigger] node_ok(
        map,
        start,
        end,
        nodes,
        led,
        p,
    ) by {
        lemma_distance_fits(rows, columns, p, end);
    }
}

/// The search cannot run dry before the goal is closed.
proof fn lemma_never_dry<T: Walkable>(
    map: &Vec<Vec<T>>,
    start: Vector2,
    end: Vector2,
    nodes: Seq<Vec<Node>>,
    led: Ledger,
)
    requires
        search_inv(map, start, end, nodes, led, None),
        forall|p: Vector2|
            on_grid(p, map.len(), map[0].len()) ==> !is_open(#[trigger] cell_at(nodes, p)),
    ensures
        cell_at(nodes, end).closed,
{
    let rows = map.len();
    let columns = map[0].len();
    let inside = |p: Vector2| cell_at(nodes, p).closed;
    assert forall|p: Vector2, q: Vector2|
        on_grid(p, rows, columns) && on_grid(q, rows, columns) && #[trigger] inside(p)
            && #[trigger] adjacent(p, q) implies inside(q) by {
        assert(cell_done(map, nodes, p));
        assert(edge_done(map, nodes, p, q));
    }
    lemma_grid_connected(rows, columns, inside, start, end);
}

/// The cheapest path from `start` to `end` over the grid `map`, found by
/// settling in turn the reached cell whose price plus distance to the goal is
/// least; among equals, the first in reading order.
///
/// The path is written from the goal backwards and leaves out `start`; from a
/// cell to itself it is empty. A grid that is empty, ragged or larger than
/// `CELL_LIMIT` is refused as `InvalidWorldSize`, an end off the grid as
/// `OutOfBounds`; every other search succeeds.
pub fn shortest_path<T: Walkable>(map: &Vec<Vec<T>>, start: Vector2, end: Vector2) -> (out: Result<
    Vec<Vector2>,
    GeneratorError,
>)
    ensures
        match out {
            Ok(path) => refusal(map, start, end) is None && is_answer(map, start, end, path@),
            Err(e) => refusal(map, start, end) == Some(e),
        },
{
    let (rows, columns) = match survey(map, start, end) {
        Ok(d) => d,
        Err(e) => {
            return Err(e);
        },
    };
    let mut nodes = node_map(map, rows, columns, start, end);
    let mut led: Ghost<Ledger> = Ghost(
        Ledger {
            routes: Map::<Vector2, Seq<Vector2>>::empty().insert(start, Seq::empty()),
            settled: 0,
        },
    );
    proof {
        lemma_search_starts(map, start, end, nodes@, led@);
    }
    loop
        invariant_except_break
            !cell_at(nodes@, end).closed,
        invariant
            rows == map.len(),
            columns == map[0].len(),
            search_inv(map, start, end, nodes@, led@, None),
        ensures
            cell_at(nodes@, end).closed,
            all_positive(map) ==> forall|r: Seq<Vector2>| #[trigger]
                is_route(rows, columns, start, end, r) ==> cell_at(nodes@, end).g <= route_cost(
                    map,
                    r,
                ),
        decreases count_grid(nodes@, pending()),
    {
        proof {
            lemma_prices_fit(map, start, end, nodes@, led@, None);
        }
        let current = match take_min(&nodes, rows, columns) {
            Some(c) => c,
            None => {
                proof {
                    lemma_never_dry(map, start, end, nodes@, led@);
                }
                return Err(GeneratorError::NoPathFound);
            },
        };
        let (_, next) = settle(map, start, end, &mut nodes, current, led);
        led = next;
        if current == end {
            break;
        }
    }
    proof {
        assert(node_ok(map, start, end, nodes@, led@, end));
    }
    trace(map, start, end, &nodes, led)
}

/// The frontier holds the open cells `pending` aside, each under its price plus distance.
pub open spec fn in_step(
    list: Map<Vector2, u64>,
    nodes: Seq<Vec<Node>>,
    rows: usize,
    columns: usize,
    pending: Seq<Vector2>,
) -> bool {
    &&& forall|p: Vector2| #[trigger] list.contains_key(p) ==> on_grid(p, rows, columns)
    &&& forall|p: Vector2|
        on_grid(p, rows, columns) && !pending.contains(p) ==> (#[trigger] list.contains_key(p)
            <==> is_open(cell_at(nodes, p)))
    &&& forall|p: Vector2|
        on_grid(p, rows, columns) && !pending.contains(p) && #[trigger] list.contains_key(p)
            ==> list[p] == f_of(cell_at(nodes, p))
}

/// The cheapest path from `start` to `end` over the grid `map`, as
/// `shortest_path` finds it, with the open cells kept in a priority queue:
/// among equally cheap cells the one queued first is settled first.
#[verifier::rlimit(40)]
pub fn shortest_priority<T: Walkable>(map: &Vec<Vec<T>>, start: Vector2, end: Vector2) -> (out:
    Result<Vec<Vector2>, GeneratorError>)
    ensures
        match out {
            Ok(path) => refusal(map, start, end) is None && is_answer(map, start, end, path@),
            Err(e) => refusal(map, start, end) == Some(e),
        },
{
    let (rows, columns) = match survey(map, start, end) {
        Ok(d) => d,
        Err(e) => {
            return Err(e);
        },
    };
    let mut nodes = node_map(map, rows, columns, start, end);
    let mut led: Ghost<Ledger> = Ghost(
        Ledger {
            routes: Map::<Vector2, Seq<Vector2>>::empty().insert(start, Seq::empty()),
            settled: 0,
        },
    );
    let mut open_list = OpenList::new();
    proof {
        lemma_search_starts(map, start, end, nodes@, led@);
    }
    open_list.add(start, nodes[start.x][start.y].f_cost());
    loop
        invariant_except_break
            !cell_at(nodes@, end).closed,
        invariant
            rows == map.len(),
            columns == map[0].len(),
            search_inv(map, start, end, nodes@, led@, None),
            in_step(open_list@, nodes@, rows, columns, Seq::empty()),
        ensures
            cell_at(nodes@, end).closed,
            all_positive(map) ==> forall|r: Seq<Vector2>| #[trigger]
                is_route(rows, columns, start, end, r) ==> cell_at(nodes@, end).g <= route_cost(
                    map,
                    r,
                ),
        decreases count_grid(nodes@, pending()),
    {
        let ghost queued = open_list@;
        let ghost before = nodes@;
        let current = match open_list.min() {
            Some(c) => c,
            None => {
                proof {
                    assert forall|p: Vector2| on_grid(p, rows, columns) implies !is_open(
                        #[trigger] cell_at(nodes@, p),
                    ) by {
                        assert(!queued.contains_key(p));
                    }
                    lemma_never_dry(map, start, end, nodes@, led@);
                }
                return Err(GeneratorError::NoPathFound);
            },
        };
        proof {
            assert(queued.contains_key(current));
            assert forall|o: Vector2|
                on_grid(o, rows, columns) && is_open(#[trigger] cell_at(nodes@, o)) implies f_of(
                cell_at(nodes@, current),
            ) <= f_of(cell_at(nodes@, o)) by {
                assert(queued.contains_key(o));
            }
        }
        let (changed, next) = settle(map, start, end, &mut nodes, current, led);
        led = next;
        proof {
            lemma_prices_fit(map, start, end, nodes@, led@, None);
            assert(changed@.skip(0) =~= changed@);
            assert forall|p: Vector2|
                on_grid(p, rows, columns) && !changed@.contains(p) implies (
            #[trigger] open_list@.contains_key(p) <==> is_open(cell_at(nodes@, p))) by {
                if p != current {
                    assert(cell_at(nodes@, p) == cell_at(before, p));
                    assert(queued.contains_key(p) <==> is_open(cell_at(before, p)));
                }
            }
            assert forall|p: Vector2|
                on_grid(p, rows, columns) && !changed@.contains(p)
                    && #[trigger] open_list@.contains_key(p) implies open_list@[p] == f_of(
                cell_at(nodes@, p),
            ) by {
                assert(cell_at(nodes@, p) == cell_at(before, p));
                assert(queued.contains_key(p));
            }
        }
        let mut i: usize = 0;
        while i < changed.len()
            invariant
                i <= changed.len(),
                rectangular(nodes@, rows, columns),
                forall|k: int|
                    0 <= k < changed@.len() ==> on_grid(#[trigger] changed@[k], rows, columns)
                        && is_open(cell_at(nodes@, changed@[k])),
                forall|p: Vector2|
                    on_grid(p, rows, columns) && reached(#[trigger] cell_at(nodes@, p)) ==> f_of(
                        cell_at(nodes@, p),
                    ) <= 0xFFFF_FFFF_0000_0000,
                in_step(open_list@, nodes@, rows, columns, changed@.skip(i as int)),
            decreases changed.len() - i,
        {
            let v = changed[i];
            let ghost listed = open_list@;
            let ghost left = changed@.skip(i as int);
            assert(reached(cell_at(nodes@, v)));
            open_list.add(v, nodes[v.x][v.y].f_cost());
            proof {
                let rest = changed@.skip(i + 1);
                assert forall|p: Vector2| p != v && !rest.contains(p) implies !left.contains(p) by {
                    if left.contains(p) {
                        let k = choose|k: int| 0 <= k < left.len() && left[k] == p;
                        assert(left[0] == v);
                        assert(rest[k - 1] == p);
                    }
                }
            }
            i += 1;
        }
        proof {
            assert(changed@.skip(changed@.len() as int) =~= Seq::<Vector2>::empty());
        }
        if current == end {
            break;
        }
    }
    proof {
        assert(node_ok(map, start, end, nodes@, led@, end));
    }
    trace(map, start, end, &nodes, led)
}

/// Every cell of the grid costs exactly 1 to step onto.
pub open spec fn unit_priced<T: Walkable>(map: &Vec<Vec<T>>) -> bool {
    forall|p: Vector2| on_grid(p, map.len(), map[0].len()) ==> #[trigger] step_cost(map, p) == 1
}

/// Where every step costs 1, a path costs as much as it has cells.
pub proof fn lemma_unit_price<T: Walkable>(
    map: &Vec<Vec<T>>,
    start: Vector2,
    end: Vector2,
    path: Seq<Vector2>,
)
    requires
        unit_priced(map),
        is_route(map.len(), map[0].len(), start, end, path),
    ensures
        route_cost(map, path) == path.len(),
    decreases path.len(),
{
    if path.len() > 0 {
        lemma_route_suffix(map.len(), map[0].len(), start, end, path, 1);
        lemma_unit_price(map, start, waypoint(start, path, 1), path.skip(1));
        assert(step_cost(map, path[0]) == 1);
    }
}

/// No path is shorter than the distance between its ends.
pub proof fn lemma_route_spans_distance(
    rows: usize,
    columns: usize,
    start: Vector2,
    end: Vector2,
    path: Seq<Vector2>,
)
    requires
        is_route(rows, columns, start, end, path),
    ensures
        path.len() >= manhattan(start, end),
    decreases path.len(),
{
    if path.len() > 0 {
        lemma_route_suffix(rows, columns, start, end, path, 1);
        lemma_route_spans_distance(rows, columns, start, waypoint(start, path, 1), path.skip(1));
        if path.len() > 1 {
            assert(adjacent(path[0], path[1]));
        }
    }
}

/// Between any two cells of the grid runs a path as short as their distance.
pub proof fn lemma_direct_route(rows: usize, columns: usize, start: Vector2, end: Vector2) -> (path:
    Seq<Vector2>)
    requires
        on_grid(start, rows, columns),
        on_grid(end, rows, columns),
    ensures
        is_route(rows, columns, start, end, path),
        path.len() == manhattan(start, end),
    decreases manhattan(start, end),
{
    if end == start {
        Seq::empty()
    } else {
        let nearer = if end.x > start.x {
            Vector2 { x: (end.x - 1) as usize, y: end.y }
        } else if end.x < start.x {
            Vector2 { x: (end.x + 1) as usize, y: end.y }
        } else if end.y > start.y {
            Vector2 { x: end.x, y: (end.y - 1) as usize }
        } else {
            Vector2 { x: end.x, y: (end.y + 1) as usize }
        };
        let shorter = lemma_direct_route(rows, columns, start, nearer);
        let path = seq![end] + shorter;
        assert(adjacent(nearer, end));
        assert forall|i: int| 0 <= i < path.len() implies on_grid(
            #[trigger] path[i],
            rows,
            columns,
        ) by {
            if i > 0 {
                assert(path[i] == shorter[i - 1]);
            }
        }
        assert forall|i: int| 0 <= i < path.len() - 1 implies adjacent(
            #[trigger] path[i],
            path[i + 1],
        ) by {
            assert(path[i + 1] == shorter[i]);
            if i > 0 {
                assert(path[i] == shorter[i - 1]);
            }
        }
        if shorter.len() > 0 {
            assert(path.last() == shorter.last());
        }
        path
    }
}

/// On a grid where every step costs 1, the path that a search answers with has
/// as many cells as its ends are apart; from a cell to itself it is empty.
pub proof fn lemma_unit_priced_answer_length<T: Walkable>(
    map: &Vec<Vec<T>>,
    start: Vector2,
    end: Vector2,
    path: Seq<Vector2>,
)
    requires
        refusal(map, start, end) is None,
        unit_priced(map),
        is_answer(map, start, end, path),
    ensures
        path.len() == manhattan(start, end),
        start == end ==> path.len() == 0,
{
    let rows = map.len();
    let columns = map[0].len();
    assert(all_positive(map)) by {
        assert forall|p: Vector2| on_grid(p, rows, columns) implies #[trigger] step_cost(map, p)
            >= 1 by {
            assert(step_cost(map, p) == 1);
        }
    }
    let direct = lemma_direct_route(rows, columns, start, end);
    assert(is_route(rows, columns, start, end, direct));
    lemma_unit_price(map, start, end, direct);
    lemma_unit_price(map, start, end, path);
    lemma_route_spans_distance(rows, columns, start, end, path);
}

/// The grid after a road has been laid along `path`: the cells of the path are
/// paved, the others are as they were.
pub open spec fn road_laid<T: Paved>(before: Seq<Vec<T>>, after: Seq<Vec<T>>, path: Seq<Vector2>) -> bool {
    &&& after.len() == before.len()
    &&& forall|i: int| 0 <= i < before.len() ==> (#[trigger] after[i]).len() == before[i].len()
    &&& forall|p: Vector2|
        p.x < before.len() && p.y < before[p.x as int].len() ==> #[trigger] cell_at(after, p) == (
        if path.contains(p) {
            cell_at(before, p).paved()
        } else {
            cell_at(before, p)
        })
}

/// Lays a road along `path`: paves each of its cells.
pub fn build_road<T: Paved>(world: &mut Vec<Vec<T>>, path: Vec<Vector2>)
    requires
        forall|i: int|
            0 <= i < path@.len() ==> (#[trigger] path@[i]).x < old(world).len() && path@[i].y < old(
                world,
            )[path@[i].x as int].len(),
    ensures
        road_laid(old(world)@, final(world)@, path@),
{
    let ghost before = world@;
    let mut i: usize = 0;
    while i < path.len()
        invariant
            i <= path.len(),
            forall|k: int|
                0 <= k < path@.len() ==> (#[trigger] path@[k]).x < before.len() && path@[k].y
                    < before[path@[k].x as int].len(),
            road_laid(before, world@, path@.take(i as int)),
        decreases path.len() - i,
    {
        let p = path[i];
        let ghost at_entry = world@;
        let ghost done = path@.take(i as int);
        assert(path@[i as int] == p);
        let paved = world[p.x][p.y].pave();
        world[p.x][p.y] = paved;
        proof {
            let next = path@.take(i + 1);
            assert(next =~= done.push(p));
            assert forall|q: Vector2|
                q.x < before.len() && q.y < before[q.x as int].len() implies #[trigger] cell_at(
                world@,
                q,
            ) == (if next.contains(q) {
                cell_at(before, q).paved()
            } else {
                cell_at(before, q)
            }) by {
                assert(cell_at(at_entry, q) == (if done.contains(q) {
                    cell_at(before, q).paved()
                } else {
                    cell_at(before, q)
                }));
                if q == p {
                    assert(next.last() == p);
                    cell_at(before, q).lemma_paved_once();
                } else {
                    if q.x != p.x {
                        assert(world@[q.x as int] == at_entry[q.x as int]);
                    }
                    assert(cell_at(world@, q) == cell_at(at_entry, q));
                    if next.contains(q) {
                        let k = choose|k: int| 0 <= k < next.len() && next[k] == q;
                        assert(done[k] == q);
                    }
                    if done.contains(q) {
                        let k = choose|k: int| 0 <= k < done.len() && done[k] == q;
                        assert(next[k] == q);
                    }
                }
            }
            assert forall|r: int| 0 <= r < before.len() implies (#[trigger] world@[r]).len()
                == before[r].len() by {
                assert(at_entry[r].len() == before[r].len());
                if r != p.x {
                    assert(world@[r] == at_entry[r]);
                }
            }
        }
        i += 1;
    }
    proof {
        assert(path@.take(path@.len() as int) =~= path@);
    }
}

} // verus!
