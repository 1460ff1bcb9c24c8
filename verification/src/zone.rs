//! Regions: maximal 4-connected groups of cells of one provisional category.

use crate::grid::{
    cell_at, count_grid, lemma_count_grid_change, lemma_count_grid_same, one_cell_changed,
    rectangular,
};
use crate::tile::{Cell, PreTile, PreTileType};
use crate::vector2::{
    adjacent, lemma_neighbours_are_adjacent, neighbours_of, on_grid, stepwise, Vector2,
};
use vstd::prelude::*;

verus! {

/// The cell at `p` has the provisional category `id`.
pub open spec fn in_category<T: Cell>(g: Seq<Vec<T>>, id: usize, p: Vector2) -> bool {
    cell_at(g, p).kind() == PreTileType::Zone(id)
}

/// The cells of the provisional category `id`.
pub open spec fn of_category<T: Cell>(id: usize) -> spec_fn(T) -> bool {
    |c: T| c.kind() == PreTileType::Zone(id)
}

/// `path` is a chain of adjacent cells of category `id`.
pub open spec fn is_chain<T: Cell>(
    g: Seq<Vec<T>>,
    rows: usize,
    columns: usize,
    id: usize,
    path: Seq<Vector2>,
) -> bool {
    &&& path.len() > 0
    &&& forall|i: int|
        0 <= i < path.len() ==> on_grid(#[trigger] path[i], rows, columns) && in_category(
            g,
            id,
            path[i],
        )
    &&& stepwise(path)
}

/// A chain of adjacent cells of category `id` leads from `a` to `b`.
pub open spec fn linked<T: Cell>(
    g: Seq<Vec<T>>,
    rows: usize,
    columns: usize,
    id: usize,
    a: Vector2,
    b: Vector2,
) -> bool {
    exists|path: Seq<Vector2>| #[trigger]
        is_chain(g, rows, columns, id, path) && path[0] == a && path.last() == b
}

/// A cell of the category is linked to itself.
pub proof fn lemma_linked_to_itself<T: Cell>(
    g: Seq<Vec<T>>,
    rows: usize,
    columns: usize,
    id: usize,
    a: Vector2,
)
    requires
        on_grid(a, rows, columns),
        in_category(g, id, a),
    ensures
        linked(g, rows, columns, id, a, a),
{
    let path = seq![a];
    assert(is_chain(g, rows, columns, id, path));
    assert(path[0] == a && path.last() == a);
}

/// A neighbour of the same category of a linked cell is linked.
pub proof fn lemma_link_grows<T: Cell>(
    g: Seq<Vec<T>>,
    rows: usize,
    columns: usize,
    id: usize,
    a: Vector2,
    m: Vector2,
    q: Vector2,
)
    requires
        linked(g, rows, columns, id, a, m),
        adjacent(m, q),
        on_grid(q, rows, columns),
        in_category(g, id, q),
    ensures
        linked(g, rows, columns, id, a, q),
{
    let path = choose|path: Seq<Vector2>| #[trigger]
        is_chain(g, rows, columns, id, path) && path[0] == a && path.last() == m;
    let longer = path.push(q);
    assert forall|i: int| 0 <= i < longer.len() implies on_grid(
        #[trigger] longer[i],
        rows,
        columns,
    ) && in_category(g, id, longer[i]) by {
        if i < path.len() {
            assert(longer[i] == path[i]);
        }
    }
    assert forall|i: int| 0 <= i < longer.len() - 1 implies adjacent(
        #[trigger] longer[i],
        longer[i + 1],
    ) by {
        assert(longer[i] == path[i]);
        if i < path.len() - 1 {
            assert(longer[i + 1] == path[i + 1]);
        }
    }
    assert(is_chain(g, rows, columns, id, longer));
    assert(longer[0] == a && longer.last() == q);
}

/// A set of cells that holds `a` and, with each of its cells, the cell's
/// neighbours of category `id`, holds every cell linked to `a`.
pub proof fn lemma_closed_set_holds_linked<T: Cell>(
    g: Seq<Vec<T>>,
    rows: usize,
    columns: usize,
    id: usize,
    inside: spec_fn(Vector2) -> bool,
    a: Vector2,
    b: Vector2,
)
    requires
        inside(a),
        forall|p: Vector2, q: Vector2|
            #[trigger] inside(p) && on_grid(q, rows, columns) && #[trigger] adjacent(p, q)
                && in_category(g, id, q) ==> inside(q),
        linked(g, rows, columns, id, a, b),
    ensures
        inside(b),
{
    let path = choose|path: Seq<Vector2>| #[trigger]
        is_chain(g, rows, columns, id, path) && path[0] == a && path.last() == b;
    lemma_chain_stays_inside(g, rows, columns, id, inside, path, path.len() - 1);
}

/// A chain that begins in a set closed under the neighbours of the category stays in it.
proof fn lemma_chain_stays_inside<T: Cell>(
    g: Seq<Vec<T>>,
    rows: usize,
    columns: usize,
    id: usize,
    inside: spec_fn(Vector2) -> bool,
    path: Seq<Vector2>,
    i: int,
)
    requires
        is_chain(g, rows, columns, id, path),
        inside(path[0]),
        forall|p: Vector2, q: Vector2|
            #[trigger] inside(p) && on_grid(q, rows, columns) && #[trigger] adjacent(p, q)
                && in_category(g, id, q) ==> inside(q),
        0 <= i < path.len(),
    ensures
        inside(path[i]),
    decreases i,
{
    if i > 0 {
        lemma_chain_stays_inside(g, rows, columns, id, inside, path, i - 1);
        assert(adjacent(path[i - 1], path[i]));
    }
}

/// Sum of the rows of the positions.
pub open spec fn sum_x(s: Seq<Vector2>) -> nat
    decreases s.len(),
{
    if s.len() == 0 {
        0
    } else {
        sum_x(s.drop_last()) + s.last().x as nat
    }
}

/// Sum of the columns of the positions.
pub open spec fn sum_y(s: Seq<Vector2>) -> nat
    decreases s.len(),
{
    if s.len() == 0 {
        0
    } else {
        sum_y(s.drop_last()) + s.last().y as nat
    }
}

/// The centroid of a group of positions: the mean of the rows and the mean of
/// the columns, each rounded down.
pub open spec fn centroid_of(s: Seq<Vector2>) -> Vector2 {
    Vector2 { x: (sum_x(s) / s.len()) as usize, y: (sum_y(s) / s.len()) as usize }
}

/// A region: the cells that belong to it, their centroid, and the category
/// that the region was given.
pub struct Zone {
    pub tile: PreTileType,
    pub inner: Vec<Vector2>,
    pub centroid: Vector2,
}

/// What a flood from `point` over the category `id` leaves: the members are
/// the cells linked to `point`, each listed once, the seed first; their cells
/// have become the placeholder and no other cell has changed.
pub open spec fn flooded<T: Cell>(
    before: Seq<Vec<T>>,
    after: Seq<Vec<T>>,
    rows: usize,
    columns: usize,
    id: usize,
    point: Vector2,
    members: Seq<Vector2>,
) -> bool {
    &&& rectangular(after, rows, columns)
    &&& members.no_duplicates()
    &&& members.len() > 0
    &&& members[0] == point
    &&& forall|p: Vector2|
        #[trigger] members.contains(p) <==> on_grid(p, rows, columns) && linked(
            before,
            rows,
            columns,
            id,
            point,
            p,
        )
    &&& forall|p: Vector2|
        on_grid(p, rows, columns) ==> #[trigger] cell_at(after, p) == (if members.contains(p) {
            cell_at(before, p).with_kind(PreTileType::Void)
        } else {
            cell_at(before, p)
        })
}

/// The sums of the coordinates of up to `n` positions stay below `n` times the highest number.
proof fn lemma_sums_fit(s: Seq<Vector2>)
    ensures
        sum_x(s) <= s.len() * usize::MAX,
        sum_y(s) <= s.len() * usize::MAX,
    decreases s.len(),
{
    if s.len() > 0 {
        lemma_sums_fit(s.drop_last());
        assert(s.len() * usize::MAX == (s.len() - 1) * usize::MAX + usize::MAX)
            by (nonlinear_arith);
    }
}

/// The mean of numbers that lie below a bound lies below the bound.
proof fn lemma_mean_fits(total: nat, n: nat, bound: nat)
    requires
        n > 0,
        total <= n * bound,
    ensures
        total / n <= bound,
{
    assert(total / n <= bound) by (nonlinear_arith)
        requires
            n > 0,
            total <= n * bound,
    ;
}

impl Zone {
    /// The centroid of a non-empty group of positions.
    pub fn compute_centroid(points: &Vec<Vector2>) -> (c: Vector2)
        requires
            points@.len() > 0,
        ensures
            c == centroid_of(points@),
    {
        let mut total_x: u128 = 0;
        let mut total_y: u128 = 0;
        let mut i: usize = 0;
        while i < points.len()
            invariant
                i <= points.len(),
                total_x == sum_x(points@.take(i as int)),
                total_y == sum_y(points@.take(i as int)),
            decreases points.len() - i,
        {
            proof {
                let next = points@.take(i + 1);
                assert(next.drop_last() =~= points@.take(i as int));
                assert(next.last() == points@[i as int]);
                lemma_sums_fit(next);
                assert(next.len() * usize::MAX <= u64::MAX * u64::MAX) by (nonlinear_arith)
                    requires
                        next.len() <= u64::MAX,
                        usize::MAX <= u64::MAX,
                ;
            }
            total_x = total_x + points[i].x as u128;
            total_y = total_y + points[i].y as u128;
            i += 1;
        }
        proof {
            assert(points@.take(points@.len() as int) =~= points@);
            lemma_sums_fit(points@);
            lemma_mean_fits(sum_x(points@), points@.len(), usize::MAX as nat);
            lemma_mean_fits(sum_y(points@), points@.len(), usize::MAX as nat);
        }
        let n = points.len() as u128;
        Vector2::new((total_x / n) as usize, (total_y / n) as usize)
    }
}

/// No cell is drained.
pub open spec fn nowhere() -> spec_fn(Vector2) -> bool {
    |p: Vector2| false
}

/// What holds while a flood runs: `members` are the cells taken so far,
/// `stack` the cells still to be looked at, `drained` the cells of other
/// categories that have been taken out of the grid meanwhile.
pub open spec fn flooding<T: Cell>(
    before: Seq<Vec<T>>,
    now: Seq<Vec<T>>,
    rows: usize,
    columns: usize,
    id: usize,
    point: Vector2,
    members: Seq<Vector2>,
    stack: Seq<Vector2>,
    drained: spec_fn(Vector2) -> bool,
) -> bool {
    &&& rectangular(before, rows, columns)
    &&& rectangular(now, rows, columns)
    &&& on_grid(point, rows, columns)
    &&& in_category(before, id, point)
    &&& members.no_duplicates()
    &&& forall|i: int|
        0 <= i < members.len() ==> on_grid(#[trigger] members[i], rows, columns) && linked(
            before,
            rows,
            columns,
            id,
            point,
            members[i],
        )
    &&& forall|i: int|
        0 <= i < stack.len() ==> on_grid(#[trigger] stack[i], rows, columns) && (in_category(
            before,
            id,
            stack[i],
        ) ==> linked(before, rows, columns, id, point, stack[i]))
    &&& forall|p: Vector2|
        on_grid(p, rows, columns) ==> #[trigger] cell_at(now, p) == (if members.contains(p)
            || drained(p) {
            cell_at(before, p).with_kind(PreTileType::Void)
        } else {
            cell_at(before, p)
        })
    &&& forall|p: Vector2| #[trigger] drained(p) ==> !in_category(before, id, p)
    &&& forall|m: Vector2, q: Vector2|
        #[trigger] members.contains(m) && on_grid(q, rows, columns) && #[trigger] adjacent(m, q)
            && in_category(before, id, q) ==> members.contains(q) || stack.contains(q)
    &&& (members.contains(point) || stack.contains(point))
    &&& (members.len() > 0 ==> members[0] == point)
    &&& (members.len() == 0 ==> stack == seq![point])
}

/// Looking at a cell that is not of the category (any more) keeps the flood sound.
proof fn lemma_flood_skips<T: Cell>(
    before: Seq<Vec<T>>,
    now: Seq<Vec<T>>,
    rows: usize,
    columns: usize,
    id: usize,
    point: Vector2,
    members: Seq<Vector2>,
    stack: Seq<Vector2>,
    drained: spec_fn(Vector2) -> bool,
)
    requires
        flooding(before, now, rows, columns, id, point, members, stack, drained),
        stack.len() > 0,
        !in_category(now, id, stack.last()),
    ensures
        flooding(before, now, rows, columns, id, point, members, stack.drop_last(), drained),
{
    let p = stack.last();
    let rest = stack.drop_last();
    assert(on_grid(p, rows, columns));
    assert(cell_at(now, p) == (if members.contains(p) || drained(p) {
        cell_at(before, p).with_kind(PreTileType::Void)
    } else {
        cell_at(before, p)
    }));
    cell_at(before, p).lemma_with_kind(PreTileType::Void);
    assert forall|q: Vector2| stack.contains(q) && q != p implies rest.contains(q) by {
        let k = choose|k: int| 0 <= k < stack.len() && stack[k] == q;
        assert(rest[k] == q);
    }
    assert forall|i: int| 0 <= i < rest.len() implies on_grid(#[trigger] rest[i], rows, columns)
        && (in_category(before, id, rest[i]) ==> linked(
        before,
        rows,
        columns,
        id,
        point,
        rest[i],
    )) by {
        assert(rest[i] == stack[i]);
    }
    if members.len() == 0 {
        assert(stack[0] == point);
        assert(!members.contains(p));
    }
}

/// Taking a cell of the category into the region, with its neighbours put on
/// the stack, keeps the flood sound.
#[verifier::rlimit(40)]
proof fn lemma_flood_takes<T: Cell>(
    before: Seq<Vec<T>>,
    now: Seq<Vec<T>>,
    after: Seq<Vec<T>>,
    rows: usize,
    columns: usize,
    id: usize,
    point: Vector2,
    members: Seq<Vector2>,
    stack: Seq<Vector2>,
    drained: spec_fn(Vector2) -> bool,
)
    requires
        flooding(before, now, rows, columns, id, point, members, stack, drained),
        stack.len() > 0,
        in_category(now, id, stack.last()),
        one_cell_changed(now, after, stack.last()),
        cell_at(after, stack.last()) == cell_at(now, stack.last()).with_kind(PreTileType::Void),
    ensures
        flooding(
            before,
            after,
            rows,
            columns,
            id,
            point,
            members.push(stack.last()),
            stack.drop_last() + neighbours_of(stack.last(), rows, columns),
            drained,
        ),
        count_grid(after, of_category::<T>(id)) + 1 == count_grid(now, of_category::<T>(id)),
{
    let p = stack.last();
    let rest = stack.drop_last();
    let around = neighbours_of(p, rows, columns);
    let grown = members.push(p);
    let next = rest + around;
    assert(on_grid(p, rows, columns));
    assert(cell_at(now, p) == (if members.contains(p) || drained(p) {
        cell_at(before, p).with_kind(PreTileType::Void)
    } else {
        cell_at(before, p)
    }));
    cell_at(before, p).lemma_with_kind(PreTileType::Void);
    cell_at(now, p).lemma_with_kind(PreTileType::Void);
    assert(!members.contains(p));
    assert(in_category(before, id, p));
    assert(linked(before, rows, columns, id, point, p));
    lemma_count_grid_change(now, after, p, of_category::<T>(id));
    assert forall|i: int| 0 <= i < after.len() implies (#[trigger] after[i]).len() == columns by {
        if i != p.x {
            assert(after[i] == now[i]);
        }
    }
    assert forall|q: Vector2| members.contains(q) implies grown.contains(q) by {
        let k = choose|k: int| 0 <= k < members.len() && members[k] == q;
        assert(grown[k] == q);
    }
    assert(grown.last() == p);
    assert forall|q: Vector2| grown.contains(q) implies members.contains(q) || q == p by {
        let k = choose|k: int| 0 <= k < grown.len() && grown[k] == q;
        if k < members.len() {
            assert(members[k] == q);
        }
    }
    assert forall|q: Vector2| stack.contains(q) && q != p implies next.contains(q) by {
        let k = choose|k: int| 0 <= k < stack.len() && stack[k] == q;
        assert(next[k] == q);
    }
    assert forall|q: Vector2| around.contains(q) implies next.contains(q) by {
        let k = choose|k: int| 0 <= k < around.len() && around[k] == q;
        assert(next[rest.len() + k] == q);
    }
    assert forall|i: int| 0 <= i < grown.len() implies on_grid(
        #[trigger] grown[i],
        rows,
        columns,
    ) && linked(before, rows, columns, id, point, grown[i]) by {
        if i < members.len() {
            assert(grown[i] == members[i]);
        }
    }
    assert forall|i: int| 0 <= i < next.len() implies on_grid(#[trigger] next[i], rows, columns)
        && (in_category(before, id, next[i]) ==> linked(
        before,
        rows,
        columns,
        id,
        point,
        next[i],
    )) by {
        if i < rest.len() {
            assert(next[i] == stack[i]);
        } else {
            let q = around[i - rest.len()];
            assert(next[i] == q);
            assert(around.contains(q));
            lemma_neighbours_are_adjacent(p, rows, columns, q);
            if in_category(before, id, q) {
                lemma_link_grows(before, rows, columns, id, point, p, q);
            }
        }
    }
    assert forall|q: Vector2| on_grid(q, rows, columns) implies #[trigger] cell_at(after, q) == (
    if grown.contains(q) || drained(q) {
        cell_at(before, q).with_kind(PreTileType::Void)
    } else {
        cell_at(before, q)
    }) by {
        if q != p {
            if q.x != p.x {
                assert(after[q.x as int] == now[q.x as int]);
            }
            assert(cell_at(after, q) == cell_at(now, q));
        }
    }
    assert forall|m: Vector2, q: Vector2|
        #[trigger] grown.contains(m) && on_grid(q, rows, columns) && #[trigger] adjacent(m, q)
            && in_category(before, id, q) implies grown.contains(q) || next.contains(q) by {
        if m == p {
            lemma_neighbours_are_adjacent(p, rows, columns, q);
        } else {
            assert(members.contains(m));
        }
    }
    assert(grown.no_duplicates()) by {
        assert forall|i: int, j: int| 0 <= i < grown.len() && 0 <= j < grown.len() && i != j implies grown[i] != grown[j] by {
            if i < members.len() && j < members.len() {
                assert(grown[i] == members[i] && grown[j] == members[j]);
            } else if i < members.len() {
                assert(members.contains(grown[i]));
            } else {
                assert(members.contains(grown[j]));
            }
        }
    }
    if members.len() == 0 {
        assert(stack[0] == point);
    } else {
        assert(grown[0] == members[0]);
    }
}

/// When nothing is left to look at, the cells taken are the cells linked to the seed.
proof fn lemma_flood_done<T: Cell>(
    before: Seq<Vec<T>>,
    now: Seq<Vec<T>>,
    rows: usize,
    columns: usize,
    id: usize,
    point: Vector2,
    members: Seq<Vector2>,
    drained: spec_fn(Vector2) -> bool,
)
    requires
        flooding(before, now, rows, columns, id, point, members, Seq::empty(), drained),
    ensures
        members.len() > 0,
        members[0] == point,
        forall|p: Vector2|
            #[trigger] members.contains(p) <==> on_grid(p, rows, columns) && linked(
                before,
                rows,
                columns,
                id,
                point,
                p,
            ),
{
    let none = Seq::<Vector2>::empty();
    let inside = |p: Vector2| members.contains(p);
    assert(!none.contains(point));
    assert forall|m: Vector2, q: Vector2|
        #[trigger] inside(m) && on_grid(q, rows, columns) && #[trigger] adjacent(m, q)
            && in_category(before, id, q) implies inside(q) by {
        assert(members.contains(q) || none.contains(q));
    }
    assert forall|p: Vector2|
        on_grid(p, rows, columns) && linked(
            before,
            rows,
            columns,
            id,
            point,
            p,
        ) implies #[trigger] members.contains(p) by {
        lemma_closed_set_holds_linked(before, rows, columns, id, inside, point, p);
    }
    assert forall|p: Vector2| #[trigger] members.contains(p) implies on_grid(p, rows, columns)
        && linked(before, rows, columns, id, point, p) by {
        let k = choose|k: int| 0 <= k < members.len() && members[k] == p;
        assert(members[k] == p);
    }
    assert(none.len() == 0);
    if members.len() == 0 {
        assert(none =~= seq![point]);
    }
}

/// Takes the cells of category `id` that are linked to `point` out of the
/// grid: looks at `point`, then at the neighbours of every cell taken, until
/// none is left to look at.
fn flood<T: Cell>(world: &mut Vec<Vec<T>>, id: usize, point: Vector2) -> (members: Vec<Vector2>)
    requires
        old(world).len() > 0,
        rectangular(old(world)@, old(world).len(), old(world)[0].len()),
        on_grid(point, old(world).len(), old(world)[0].len()),
        in_category(old(world)@, id, point),
    ensures
        final(world).len() == old(world).len(),
        flooded(
            old(world)@,
            final(world)@,
            old(world).len(),
            old(world)[0].len(),
            id,
            point,
            members@,
        ),
{
    let rows = world.len();
    let columns = world[0].len();
    let ghost before = world@;
    let mut members: Vec<Vector2> = Vec::new();
    let mut stack: Vec<Vector2> = Vec::new();
    stack.push(point);
    proof {
        lemma_linked_to_itself(before, rows, columns, id, point);
        assert(stack@ =~= seq![point]);
        assert(stack@[0] == point);
    }
    while stack.len() > 0
        invariant
            rows == world.len(),
            flooding(before, world@, rows, columns, id, point, members@, stack@, nowhere()),
        decreases 5 * count_grid(world@, of_category::<T>(id)) + stack.len(),
    {
        let ghost now = world@;
        let ghost listed = stack@;
        let ghost taken = members@;
        let p = stack.pop().unwrap();
        assert(p == listed.last());
        assert(stack@ == listed.drop_last());
        assert(on_grid(p, rows, columns));
        let found = world[p.x][p.y].get_kind();
        let wanted = match found {
            PreTileType::Zone(i) => i == id,
            _ => false,
        };
        if wanted {
            members.push(p);
            let mut around = p.neighbours(rows, columns);
            stack.append(&mut around);
            let cleared = world[p.x][p.y].set_kind(PreTileType::Void);
            world[p.x][p.y] = cleared;
            proof {
                assert(one_cell_changed(now, world@, p));
                lemma_flood_takes(
                    before,
                    now,
                    world@,
                    rows,
                    columns,
                    id,
                    point,
                    taken,
                    listed,
                    nowhere(),
                );
            }
        } else {
            proof {
                lemma_flood_skips(
                    before,
                    now,
                    rows,
                    columns,
                    id,
                    point,
                    taken,
                    listed,
                    nowhere(),
                );
            }
        }
    }
    proof {
        assert(stack@ =~= Seq::<Vector2>::empty());
        lemma_flood_done(before, world@, rows, columns, id, point, members@, nowhere());
    }
    members
}

impl Zone {
    /// The region of category `id` around `point`, taken out of a grid of
    /// provisional cells: its cells become the placeholder.
    pub fn dfs(world: &mut Vec<Vec<PreTile>>, id: usize, point: Vector2) -> (zone: Self)
        requires
            old(world).len() > 0,
            rectangular(old(world)@, old(world).len(), old(world)[0].len()),
            on_grid(point, old(world).len(), old(world)[0].len()),
            in_category(old(world)@, id, point),
        ensures
            final(world).len() == old(world).len(),
            flooded(
                old(world)@,
                final(world)@,
                old(world).len(),
                old(world)[0].len(),
                id,
                point,
                zone.inner@,
            ),
            zone.centroid == centroid_of(zone.inner@),
            zone.tile == PreTileType::Void,
    {
        let inner = flood(world, id, point);
        let centroid = Self::compute_centroid(&inner);
        Zone { tile: PreTileType::Void, inner, centroid }
    }

    /// The region of category `id` around `point`, taken out of a grid of
    /// categories: its cells become the placeholder.
    pub fn bfs(world: &mut Vec<Vec<PreTileType>>, id: usize, point: Vector2) -> (zone: Self)
        requires
            old(world).len() > 0,
            rectangular(old(world)@, old(world).len(), old(world)[0].len()),
            on_grid(point, old(world).len(), old(world)[0].len()),
            in_category(old(world)@, id, point),
        ensures
            final(world).len() == old(world).len(),
            flooded(
                old(world)@,
                final(world)@,
                old(world).len(),
                old(world)[0].len(),
                id,
                point,
                zone.inner@,
            ),
            zone.centroid == centroid_of(zone.inner@),
            zone.tile == PreTileType::Void,
    {
        let inner = flood(world, id, point);
        let centroid = Self::compute_centroid(&inner);
        Zone { tile: PreTileType::Void, inner, centroid }
    }
}

/// `now` is `before` with the cells in `consumed` turned into the placeholder.
pub open spec fn voided<T: Cell>(
    before: Seq<Vec<T>>,
    now: Seq<Vec<T>>,
    rows: usize,
    columns: usize,
    consumed: spec_fn(Vector2) -> bool,
) -> bool {
    forall|p: Vector2|
        on_grid(p, rows, columns) ==> #[trigger] cell_at(now, p) == (if consumed(p) {
            cell_at(before, p).with_kind(PreTileType::Void)
        } else {
            cell_at(before, p)
        })
}

/// With each of its cells of category `id`, `consumed` holds the cell's
/// neighbours of that category.
pub open spec fn whole_regions<T: Cell>(
    before: Seq<Vec<T>>,
    rows: usize,
    columns: usize,
    id: usize,
    consumed: spec_fn(Vector2) -> bool,
) -> bool {
    forall|a: Vector2, b: Vector2|
        #[trigger] consumed(a) && in_category(before, id, a) && on_grid(b, rows, columns)
            && #[trigger] adjacent(a, b) && in_category(before, id, b) ==> consumed(b)
}

/// Along a chain that starts outside `consumed`, no cell is consumed.
proof fn lemma_chain_untouched<T: Cell>(
    before: Seq<Vec<T>>,
    rows: usize,
    columns: usize,
    id: usize,
    consumed: spec_fn(Vector2) -> bool,
    path: Seq<Vector2>,
    i: int,
)
    requires
        whole_regions(before, rows, columns, id, consumed),
        is_chain(before, rows, columns, id, path),
        !consumed(path[0]),
        0 <= i < path.len(),
    ensures
        !consumed(path[i]),
    decreases i,
{
    if i > 0 {
        lemma_chain_untouched(before, rows, columns, id, consumed, path, i - 1);
        assert(adjacent(path[i - 1], path[i]));
        assert(adjacent(path[i], path[i - 1]));
    }
}

/// Taking whole regions out of a grid does not change which cells are linked
/// to a cell that is still there.
pub proof fn lemma_component_survives<T: Cell>(
    before: Seq<Vec<T>>,
    now: Seq<Vec<T>>,
    rows: usize,
    columns: usize,
    id: usize,
    consumed: spec_fn(Vector2) -> bool,
    seed: Vector2,
    p: Vector2,
)
    requires
        voided(before, now, rows, columns, consumed),
        whole_regions(before, rows, columns, id, consumed),
        !consumed(seed),
    ensures
        linked(before, rows, columns, id, seed, p) <==> linked(now, rows, columns, id, seed, p),
{
    if linked(before, rows, columns, id, seed, p) {
        let path = choose|path: Seq<Vector2>| #[trigger]
            is_chain(before, rows, columns, id, path) && path[0] == seed && path.last() == p;
        assert forall|i: int| 0 <= i < path.len() implies on_grid(
            #[trigger] path[i],
            rows,
            columns,
        ) && in_category(now, id, path[i]) by {
            lemma_chain_untouched(before, rows, columns, id, consumed, path, i);
            assert(cell_at(now, path[i]) == cell_at(before, path[i]));
        }
        assert(is_chain(now, rows, columns, id, path));
    }
    if linked(now, rows, columns, id, seed, p) {
        let path = choose|path: Seq<Vector2>| #[trigger]
            is_chain(now, rows, columns, id, path) && path[0] == seed && path.last() == p;
        assert forall|i: int| 0 <= i < path.len() implies on_grid(
            #[trigger] path[i],
            rows,
            columns,
        ) && in_category(before, id, path[i]) by {
            let q = path[i];
            assert(in_category(now, id, q));
            cell_at(before, q).lemma_with_kind(PreTileType::Void);
            assert(cell_at(now, q) == cell_at(before, q));
        }
        assert(is_chain(before, rows, columns, id, path));
    }
}

/// Some region of the list holds the cell.
pub open spec fn covered(regions: Seq<Zone>, p: Vector2) -> bool {
    exists|k: int| 0 <= k < regions.len() && (#[trigger] regions[k]).inner@.contains(p)
}

/// The cells that some region of the list holds.
pub open spec fn cover(regions: Seq<Zone>) -> spec_fn(Vector2) -> bool {
    |p: Vector2| covered(regions, p)
}

/// The regions are the whole regions of category `id` of a grid, each with
/// its centroid: every region is one maximal group of linked cells, listed
/// without repetition, and no cell belongs to two regions.
pub open spec fn are_regions<T: Cell>(
    before: Seq<Vec<T>>,
    rows: usize,
    columns: usize,
    id: usize,
    regions: Seq<Zone>,
) -> bool {
    &&& forall|k: int|
        0 <= k < regions.len() ==> {
            let region = #[trigger] regions[k];
            &&& region.inner@.len() > 0
            &&& region.inner@.no_duplicates()
            &&& region.centroid == centroid_of(region.inner@)
            &&& on_grid(region.inner@[0], rows, columns)
            &&& in_category(before, id, region.inner@[0])
            &&& forall|p: Vector2|
                #[trigger] region.inner@.contains(p) <==> on_grid(p, rows, columns) && linked(
                    before,
                    rows,
                    columns,
                    id,
                    region.inner@[0],
                    p,
                )
        }
    &&& forall|j: int, k: int, p: Vector2|
        0 <= j < k < regions.len() && #[trigger] regions[j].inner@.contains(p)
            ==> !#[trigger] regions[k].inner@.contains(p)
}

/// The cells of a region are of the region's category and lie on the grid.
pub proof fn lemma_region_cells<T: Cell>(
    before: Seq<Vec<T>>,
    rows: usize,
    columns: usize,
    id: usize,
    seed: Vector2,
    p: Vector2,
)
    requires
        linked(before, rows, columns, id, seed, p),
    ensures
        on_grid(p, rows, columns),
        in_category(before, id, p),
        on_grid(seed, rows, columns),
        in_category(before, id, seed),
{
    let path = choose|path: Seq<Vector2>| #[trigger]
        is_chain(before, rows, columns, id, path) && path[0] == seed && path.last() == p;
    assert(on_grid(path[0], rows, columns));
    assert(on_grid(path[path.len() - 1], rows, columns));
}

/// What the regions of a list cover is made of whole regions.
pub proof fn lemma_cover_is_whole<T: Cell>(
    before: Seq<Vec<T>>,
    rows: usize,
    columns: usize,
    id: usize,
    regions: Seq<Zone>,
)
    requires
        are_regions(before, rows, columns, id, regions),
    ensures
        whole_regions(before, rows, columns, id, cover(regions)),
        forall|p: Vector2|
            covered(regions, p) ==> on_grid(p, rows, columns) && in_category(before, id, p),
{
    let consumed = cover(regions);
    assert forall|a: Vector2, b: Vector2|
        #[trigger] consumed(a) && in_category(before, id, a) && on_grid(b, rows, columns)
            && #[trigger] adjacent(a, b) && in_category(before, id, b) implies consumed(b) by {
        let k = choose|k: int| 0 <= k < regions.len() && (#[trigger] regions[k]).inner@.contains(a);
        let seed = regions[k].inner@[0];
        lemma_link_grows(before, rows, columns, id, seed, a, b);
        assert(regions[k].inner@.contains(b));
    }
    assert forall|p: Vector2| covered(regions, p) implies on_grid(p, rows, columns) && in_category(
        before,
        id,
        p,
    ) by {
        let k = choose|k: int| 0 <= k < regions.len() && (#[trigger] regions[k]).inner@.contains(p);
        lemma_region_cells(before, rows, columns, id, regions[k].inner@[0], p);
    }
}

/// `p` comes before the cell in row `x` and column `y` in reading order.
pub open spec fn read_before(p: Vector2, x: usize, y: usize) -> bool {
    p.x < x || (p.x == x && p.y < y)
}

/// The regions stand in the order in which a reading of the grid, row by row,
/// meets them: each begins with its first cell in reading order, and the first
/// cell of a region comes before the first cell of the next.
pub open spec fn in_reading_order(regions: Seq<Zone>) -> bool {
    &&& forall|j: int, k: int|
        0 <= j < k < regions.len() ==> read_before(
            (#[trigger] regions[j]).inner@[0],
            (#[trigger] regions[k]).inner@[0].x,
            regions[k].inner@[0].y,
        )
    &&& forall|k: int, p: Vector2|
        0 <= k < regions.len() && #[trigger] regions[k].inner@.contains(p) ==> p
            == regions[k].inner@[0] || read_before(regions[k].inner@[0], p.x, p.y)
}

/// What holds while a grid is scanned for the regions of category `id`, when
/// the cells before row `x`, column `y` have been looked at.
pub open spec fn scanning<T: Cell>(
    before: Seq<Vec<T>>,
    now: Seq<Vec<T>>,
    rows: usize,
    columns: usize,
    id: usize,
    regions: Seq<Zone>,
    x: usize,
    y: usize,
) -> bool {
    &&& rectangular(before, rows, columns)
    &&& rectangular(now, rows, columns)
    &&& are_regions(before, rows, columns, id, regions)
    &&& voided(before, now, rows, columns, cover(regions))
    &&& forall|p: Vector2|
        on_grid(p, rows, columns) && read_before(p, x, y) && #[trigger] in_category(before, id, p)
            ==> covered(regions, p)
    &&& forall|k: int| 0 <= k < regions.len() ==> (#[trigger] regions[k]).tile == PreTileType::Void
    &&& in_reading_order(regions)
    &&& forall|k: int| 0 <= k < regions.len() ==> read_before((#[trigger] regions[k]).inner@[0], x, y)
}

/// The regions of category `id` have been taken out of the grid: every cell
/// of the category belongs to exactly one region and has become the
/// placeholder; no other cell has changed.
pub open spec fn segmented<T: Cell>(
    before: Seq<Vec<T>>,
    after: Seq<Vec<T>>,
    rows: usize,
    columns: usize,
    id: usize,
    regions: Seq<Zone>,
) -> bool {
    &&& rectangular(after, rows, columns)
    &&& are_regions(before, rows, columns, id, regions)
    &&& forall|p: Vector2|
        on_grid(p, rows, columns) ==> (#[trigger] in_category(before, id, p) <==> covered(
            regions,
            p,
        ))
    &&& forall|p: Vector2|
        on_grid(p, rows, columns) ==> #[trigger] cell_at(after, p) == (if in_category(
            before,
            id,
            p,
        ) {
            cell_at(before, p).with_kind(PreTileType::Void)
        } else {
            cell_at(before, p)
        })
    &&& forall|k: int| 0 <= k < regions.len() ==> (#[trigger] regions[k]).tile == PreTileType::Void
    &&& in_reading_order(regions)
}

/// A cell that the scan finds in the category starts a new region.
#[verifier::rlimit(40)]
proof fn lemma_region_found<T: Cell>(
    before: Seq<Vec<T>>,
    now: Seq<Vec<T>>,
    after: Seq<Vec<T>>,
    rows: usize,
    columns: usize,
    id: usize,
    regions: Seq<Zone>,
    zone: Zone,
    x: usize,
    y: usize,
)
    requires
        scanning(before, now, rows, columns, id, regions, x, y),
        on_grid(Vector2 { x, y }, rows, columns),
        in_category(now, id, Vector2 { x, y }),
        flooded(now, after, rows, columns, id, Vector2 { x, y }, zone.inner@),
        zone.centroid == centroid_of(zone.inner@),
        zone.tile == PreTileType::Void,
    ensures
        scanning(before, after, rows, columns, id, regions.push(zone), x, (y + 1) as usize),
{
    let seed = Vector2 { x, y };
    let grown = regions.push(zone);
    let consumed = cover(regions);
    lemma_cover_is_whole(before, rows, columns, id, regions);
    assert(!covered(regions, seed)) by {
        if covered(regions, seed) {
            cell_at(before, seed).lemma_with_kind(PreTileType::Void);
        }
    }
    assert(cell_at(now, seed) == cell_at(before, seed));
    assert forall|p: Vector2| #[trigger]
        zone.inner@.contains(p) <==> on_grid(p, rows, columns) && linked(
            before,
            rows,
            columns,
            id,
            seed,
            p,
        ) by {
        lemma_component_survives(before, now, rows, columns, id, consumed, seed, p);
    }
    assert forall|p: Vector2| zone.inner@.contains(p) implies !covered(regions, p) by {
        lemma_region_cells(now, rows, columns, id, seed, p);
        if covered(regions, p) {
            cell_at(before, p).lemma_with_kind(PreTileType::Void);
        }
    }
    assert forall|k: int| 0 <= k < regions.len() implies #[trigger] grown[k] == regions[k] by {}
    assert(grown[regions.len() as int] == zone);
    assert forall|p: Vector2| covered(regions, p) implies covered(grown, p) by {
        let k = choose|k: int| 0 <= k < regions.len() && (#[trigger] regions[k]).inner@.contains(p);
        assert(grown[k].inner@.contains(p));
    }
    assert forall|p: Vector2| zone.inner@.contains(p) implies covered(grown, p) by {
        assert(grown[regions.len() as int].inner@.contains(p));
    }
    assert forall|p: Vector2| covered(grown, p) implies covered(regions, p)
        || zone.inner@.contains(p) by {
        let k = choose|k: int| 0 <= k < grown.len() && (#[trigger] grown[k]).inner@.contains(p);
        if k < regions.len() {
            assert(regions[k].inner@.contains(p));
        }
    }
    assert forall|j: int, k: int, p: Vector2|
        0 <= j < k < grown.len() && #[trigger] grown[j].inner@.contains(p)
            implies !#[trigger] grown[k].inner@.contains(p) by {
        assert(regions[j].inner@.contains(p));
        if k < regions.len() {
            assert(!regions[k].inner@.contains(p));
        } else {
            assert(covered(regions, p));
        }
    }
    assert(are_regions(before, rows, columns, id, grown));
    assert forall|p: Vector2| on_grid(p, rows, columns) implies #[trigger] cell_at(after, p) == (
    if cover(grown)(p) {
        cell_at(before, p).with_kind(PreTileType::Void)
    } else {
        cell_at(before, p)
    }) by {
        assert(cell_at(now, p) == (if consumed(p) {
            cell_at(before, p).with_kind(PreTileType::Void)
        } else {
            cell_at(before, p)
        }));
    }
    assert forall|p: Vector2|
        on_grid(p, rows, columns) && read_before(p, x, (y + 1) as usize) && #[trigger] in_category(
            before,
            id,
            p,
        ) implies covered(grown, p) by {
        if p == seed {
            assert(zone.inner@[0] == seed);
        }
    }
    assert forall|p: Vector2| zone.inner@.contains(p) implies !read_before(p, x, y) by {
        lemma_region_cells(before, rows, columns, id, seed, p);
        assert(!covered(regions, p));
    }
    lemma_region_order(regions, zone, rows, columns, x, y);
}

/// The new region stands behind the others in reading order and begins with
/// its first cell.
pub proof fn lemma_region_order(
    regions: Seq<Zone>,
    zone: Zone,
    rows: usize,
    columns: usize,
    x: usize,
    y: usize,
)
    requires
        on_grid(Vector2 { x, y }, rows, columns),
        in_reading_order(regions),
        forall|k: int|
            0 <= k < regions.len() ==> read_before((#[trigger] regions[k]).inner@[0], x, y),
        zone.inner@.len() > 0,
        zone.inner@[0] == (Vector2 { x, y }),
        forall|p: Vector2|
            zone.inner@.contains(p) ==> !read_before(p, x, y),
    ensures
        in_reading_order(regions.push(zone)),
        forall|k: int|
            0 <= k < regions.push(zone).len() ==> read_before(
                (#[trigger] regions.push(zone)[k]).inner@[0],
                x,
                (y + 1) as usize,
            ),
{
    let seed = Vector2 { x, y };
    let grown = regions.push(zone);
    assert forall|k: int| 0 <= k < grown.len() implies read_before(
        (#[trigger] grown[k]).inner@[0],
        x,
        (y + 1) as usize,
    ) by {
        if k < regions.len() {
            assert(grown[k] == regions[k]);
            assert(read_before(regions[k].inner@[0], x, y));
        }
    }
    assert forall|j: int, k: int| 0 <= j < k < grown.len() implies read_before(
        (#[trigger] grown[j]).inner@[0],
        (#[trigger] grown[k]).inner@[0].x,
        grown[k].inner@[0].y,
    ) by {
        assert(grown[j] == regions[j]);
        assert(read_before(regions[j].inner@[0], x, y));
        if k < regions.len() {
            assert(grown[k] == regions[k]);
        }
    }
    assert forall|k: int, p: Vector2|
        0 <= k < grown.len() && #[trigger] grown[k].inner@.contains(p) implies p
        == grown[k].inner@[0] || read_before(grown[k].inner@[0], p.x, p.y) by {
        if k < regions.len() {
            assert(grown[k] == regions[k]);
        } else {
            assert(!read_before(p, x, y));
        }
    }
}

/// A cell that the scan finds out of the category belongs to a region already
/// or never was of the category.
proof fn lemma_region_passed<T: Cell>(
    before: Seq<Vec<T>>,
    now: Seq<Vec<T>>,
    rows: usize,
    columns: usize,
    id: usize,
    regions: Seq<Zone>,
    x: usize,
    y: usize,
)
    requires
        scanning(before, now, rows, columns, id, regions, x, y),
        on_grid(Vector2 { x, y }, rows, columns),
        !in_category(now, id, Vector2 { x, y }),
    ensures
        scanning(before, now, rows, columns, id, regions, x, (y + 1) as usize),
{
    let here = Vector2 { x, y };
    assert(cell_at(now, here) == (if cover(regions)(here) {
        cell_at(before, here).with_kind(PreTileType::Void)
    } else {
        cell_at(before, here)
    }));
}

/// Takes the regions of category `id` out of the grid, in the order in which
/// a reading of the grid, row by row, meets them.
pub fn extract<T: Cell>(world: &mut Vec<Vec<T>>, id: usize) -> (regions: Vec<Zone>)
    requires
        old(world).len() > 0,
        rectangular(old(world)@, old(world).len(), old(world)[0].len()),
    ensures
        final(world).len() == old(world).len(),
        segmented(
            old(world)@,
            final(world)@,
            old(world).len(),
            old(world)[0].len(),
            id,
            regions@,
        ),
{
    let rows = world.len();
    let columns = world[0].len();
    let ghost before = world@;
    let mut regions: Vec<Zone> = Vec::new();
    let mut x: usize = 0;
    while x < rows
        invariant
            x <= rows,
            rows == world.len(),
            rows > 0,
            scanning(before, world@, rows, columns, id, regions@, x, 0),
        decreases rows - x,
    {
        let mut y: usize = 0;
        while y < columns
            invariant
                x < rows,
                y <= columns,
                rows == world.len(),
                scanning(before, world@, rows, columns, id, regions@, x, y),
            decreases columns - y,
        {
            let ghost now = world@;
            let ghost listed = regions@;
            let found = world[x][y].get_kind();
            let wanted = match found {
                PreTileType::Zone(i) => i == id,
                _ => false,
            };
            if wanted {
                assert(columns == world[0].len());
                let inner = flood(world, id, Vector2::new(x, y));
                let centroid = Zone::compute_centroid(&inner);
                let zone = Zone { tile: PreTileType::Void, inner, centroid };
                proof {
                    lemma_region_found(before, now, world@, rows, columns, id, listed, zone, x, y);
                }
                regions.push(zone);
            } else {
                proof {
                    lemma_region_passed(before, now, rows, columns, id, listed, x, y);
                }
            }
            y += 1;
        }
        x += 1;
    }
    proof {
        lemma_cover_is_whole(before, rows, columns, id, regions@);
        assert forall|p: Vector2| on_grid(p, rows, columns) implies #[trigger] cell_at(world@, p) == (
        if in_category(before, id, p) {
            cell_at(before, p).with_kind(PreTileType::Void)
        } else {
            cell_at(before, p)
        }) by {
            assert(cell_at(world@, p) == (if cover(regions@)(p) {
                cell_at(before, p).with_kind(PreTileType::Void)
            } else {
                cell_at(before, p)
            }));
            if in_category(before, id, p) {
                assert(read_before(p, rows, 0));
            }
        }
        assert forall|p: Vector2| on_grid(p, rows, columns) implies (#[trigger] in_category(
            before,
            id,
            p,
        ) <==> covered(regions@, p)) by {
            if in_category(before, id, p) {
                assert(read_before(p, rows, 0));
            }
        }
    }
    regions
}

/// The category of the coast.
pub const COAST: usize = 0;

/// The category of the uplands.
pub const UPLAND: usize = 1;

/// The category of the hazard pools that lie in the uplands.
pub const HAZARD: usize = 2;

/// An upland region with the hazard pools that border on it.
pub struct Mountain {
    pub zone: Zone,
    pub lava_pools: Vec<Zone>,
}

/// Some cell of `members` is adjacent to `q`.
pub open spec fn touches(members: Seq<Vector2>, q: Vector2) -> bool {
    exists|i: int| 0 <= i < members.len() && adjacent(#[trigger] members[i], q)
}

/// What holds while an upland region is taken out of the grid with its pools.
pub open spec fn surveying(
    before: Seq<Vec<PreTileType>>,
    now: Seq<Vec<PreTileType>>,
    rows: usize,
    columns: usize,
    point: Vector2,
    members: Seq<Vector2>,
    stack: Seq<Vector2>,
    pools: Seq<Zone>,
) -> bool {
    &&& flooding(before, now, rows, columns, UPLAND, point, members, stack, cover(pools))
    &&& are_regions(before, rows, columns, HAZARD, pools)
    &&& forall|k: int|
        0 <= k < pools.len() ==> touches(members, (#[trigger] pools[k]).inner@[0]) && pools[k].tile
            == PreTileType::Void
    &&& forall|m: Vector2, q: Vector2|
        #[trigger] members.contains(m) && on_grid(q, rows, columns) && #[trigger] adjacent(m, q)
            && in_category(before, HAZARD, q) ==> covered(pools, q) || stack.contains(q)
    &&& forall|i: int|
        0 <= i < stack.len() ==> stack[i] == point || touches(members, #[trigger] stack[i])
}

/// An upland region has been taken out of the grid with its pools: the region
/// is the group of upland cells linked to `point`; the pools are the whole
/// hazard regions that have a cell next to the region; the cells of all of
/// them have become the placeholder and no other cell has changed.
pub open spec fn upland_found(
    before: Seq<Vec<PreTileType>>,
    after: Seq<Vec<PreTileType>>,
    rows: usize,
    columns: usize,
    point: Vector2,
    mountain: Mountain,
) -> bool {
    let members = mountain.zone.inner@;
    let pools = mountain.lava_pools@;
    &&& rectangular(after, rows, columns)
    &&& members.len() > 0
    &&& members[0] == point
    &&& members.no_duplicates()
    &&& mountain.zone.centroid == centroid_of(members)
    &&& mountain.zone.tile == PreTileType::Void
    &&& forall|p: Vector2|
        #[trigger] members.contains(p) <==> on_grid(p, rows, columns) && linked(
            before,
            rows,
            columns,
            UPLAND,
            point,
            p,
        )
    &&& are_regions(before, rows, columns, HAZARD, pools)
    &&& forall|k: int|
        0 <= k < pools.len() ==> touches(members, (#[trigger] pools[k]).inner@[0]) && pools[k].tile
            == PreTileType::Void
    &&& forall|m: Vector2, q: Vector2|
        #[trigger] members.contains(m) && on_grid(q, rows, columns) && #[trigger] adjacent(m, q)
            && in_category(before, HAZARD, q) ==> covered(pools, q)
    &&& forall|p: Vector2|
        on_grid(p, rows, columns) ==> #[trigger] cell_at(after, p) == (if members.contains(p)
            || covered(pools, p) {
            PreTileType::Void
        } else {
            cell_at(before, p)
        })
}

/// What touches a group of cells touches the group with one more cell.
proof fn lemma_touch_stays(members: Seq<Vector2>, p: Vector2, q: Vector2)
    requires
        touches(members, q),
    ensures
        touches(members.push(p), q),
{
    let i = choose|i: int| 0 <= i < members.len() && adjacent(#[trigger] members[i], q);
    assert(members.push(p)[i] == members[i]);
}

/// The neighbours of a hazard cell's upland neighbour are waiting or drained,
/// also after the cell `p` has been taken and its neighbours put on the stack.
proof fn lemma_hazards_wait(
    before: Seq<Vec<PreTileType>>,
    rows: usize,
    columns: usize,
    members: Seq<Vector2>,
    stack: Seq<Vector2>,
    pools: Seq<Zone>,
)
    requires
        stack.len() > 0,
        on_grid(stack.last(), rows, columns),
        !in_category(before, HAZARD, stack.last()),
        forall|m: Vector2, q: Vector2|
            #[trigger] members.contains(m) && on_grid(q, rows, columns) && #[trigger] adjacent(m, q)
                && in_category(before, HAZARD, q) ==> covered(pools, q) || stack.contains(q),
    ensures
        forall|m: Vector2, q: Vector2|
            #[trigger] members.push(stack.last()).contains(m) && on_grid(q, rows, columns)
                && #[trigger] adjacent(m, q) && in_category(before, HAZARD, q) ==> covered(pools, q)
                || (stack.drop_last() + neighbours_of(stack.last(), rows, columns)).contains(q),
{
    let p = stack.last();
    let rest = stack.drop_last();
    let around = neighbours_of(p, rows, columns);
    let grown = members.push(p);
    let next = rest + around;
    assert forall|m: Vector2, q: Vector2|
        #[trigger] grown.contains(m) && on_grid(q, rows, columns) && #[trigger] adjacent(m, q)
            && in_category(before, HAZARD, q) implies covered(pools, q) || next.contains(q) by {
        if m == p {
            lemma_neighbours_are_adjacent(p, rows, columns, q);
            let k = choose|k: int| 0 <= k < around.len() && around[k] == q;
            assert(next[rest.len() + k] == q);
        } else {
            let k = choose|k: int| 0 <= k < grown.len() && grown[k] == m;
            assert(members[k] == m);
            assert(members.contains(m));
            if !covered(pools, q) {
                let j = choose|j: int| 0 <= j < stack.len() && stack[j] == q;
                assert(q != p);
                assert(next[j] == q);
            }
        }
    }
}

/// What waits on the stack is the seed or touches the region, also after the
/// cell `p` has been taken and its neighbours put on the stack.
proof fn lemma_stack_touches(
    rows: usize,
    columns: usize,
    point: Vector2,
    members: Seq<Vector2>,
    stack: Seq<Vector2>,
)
    requires
        stack.len() > 0,
        on_grid(stack.last(), rows, columns),
        forall|i: int|
            0 <= i < stack.len() ==> stack[i] == point || touches(members, #[trigger] stack[i]),
    ensures
        forall|i: int|
            0 <= i < (stack.drop_last() + neighbours_of(stack.last(), rows, columns)).len() ==> (
            stack.drop_last() + neighbours_of(stack.last(), rows, columns))[i] == point || touches(
                members.push(stack.last()),
                #[trigger] (stack.drop_last() + neighbours_of(stack.last(), rows, columns))[i],
            ),
{
    let p = stack.last();
    let rest = stack.drop_last();
    let around = neighbours_of(p, rows, columns);
    let grown = members.push(p);
    let next = rest + around;
    assert(grown.last() == p);
    assert forall|i: int| 0 <= i < next.len() implies next[i] == point || touches(
        grown,
        #[trigger] next[i],
    ) by {
        if i < rest.len() {
            assert(next[i] == stack[i]);
            if stack[i] != point {
                lemma_touch_stays(members, p, stack[i]);
            }
        } else {
            let q = around[i - rest.len()];
            assert(next[i] == q);
            assert(around.contains(q));
            lemma_neighbours_are_adjacent(p, rows, columns, q);
            assert(adjacent(grown[grown.len() - 1], q));
        }
    }
}

/// Taking an upland cell into the region, with its neighbours put on the
/// stack, keeps the survey sound.
proof fn lemma_survey_takes(
    before: Seq<Vec<PreTileType>>,
    now: Seq<Vec<PreTileType>>,
    after: Seq<Vec<PreTileType>>,
    rows: usize,
    columns: usize,
    point: Vector2,
    members: Seq<Vector2>,
    stack: Seq<Vector2>,
    pools: Seq<Zone>,
)
    requires
        surveying(before, now, rows, columns, point, members, stack, pools),
        stack.len() > 0,
        in_category(now, UPLAND, stack.last()),
        one_cell_changed(now, after, stack.last()),
        cell_at(after, stack.last()) == PreTileType::Void,
    ensures
        surveying(
            before,
            after,
            rows,
            columns,
            point,
            members.push(stack.last()),
            stack.drop_last() + neighbours_of(stack.last(), rows, columns),
            pools,
        ),
        count_grid(after, of_category::<PreTileType>(UPLAND)) + 1 == count_grid(
            now,
            of_category::<PreTileType>(UPLAND),
        ),
{
    let p = stack.last();
    let grown = members.push(p);
    lemma_flood_takes(before, now, after, rows, columns, UPLAND, point, members, stack, cover(pools));
    assert(on_grid(p, rows, columns));
    assert(in_category(before, UPLAND, p)) by {
        assert(cell_at(now, p) == (if members.contains(p) || cover(pools)(p) {
            cell_at(before, p).with_kind(PreTileType::Void)
        } else {
            cell_at(before, p)
        }));
    }
    assert forall|k: int| 0 <= k < pools.len() implies touches(
        grown,
        (#[trigger] pools[k]).inner@[0],
    ) && pools[k].tile == PreTileType::Void by {
        lemma_touch_stays(members, p, pools[k].inner@[0]);
    }
    lemma_stack_touches(rows, columns, point, members, stack);
    lemma_hazards_wait(before, rows, columns, members, stack, pools);
}

/// Looking at a cell that is neither upland nor hazard keeps the survey sound.
proof fn lemma_survey_skips(
    before: Seq<Vec<PreTileType>>,
    now: Seq<Vec<PreTileType>>,
    rows: usize,
    columns: usize,
    point: Vector2,
    members: Seq<Vector2>,
    stack: Seq<Vector2>,
    pools: Seq<Zone>,
)
    requires
        surveying(before, now, rows, columns, point, members, stack, pools),
        stack.len() > 0,
        !in_category(now, UPLAND, stack.last()),
        !in_category(now, HAZARD, stack.last()),
    ensures
        surveying(before, now, rows, columns, point, members, stack.drop_last(), pools),
{
    let p = stack.last();
    let rest = stack.drop_last();
    lemma_flood_skips(before, now, rows, columns, UPLAND, point, members, stack, cover(pools));
    assert(on_grid(p, rows, columns));
    assert(cell_at(now, p) == (if members.contains(p) || cover(pools)(p) {
        cell_at(before, p).with_kind(PreTileType::Void)
    } else {
        cell_at(before, p)
    }));
    assert forall|i: int| 0 <= i < rest.len() implies rest[i] == point || touches(
        members,
        #[trigger] rest[i],
    ) by {
        assert(rest[i] == stack[i]);
    }
    assert forall|m: Vector2, q: Vector2|
        #[trigger] members.contains(m) && on_grid(q, rows, columns) && #[trigger] adjacent(m, q)
            && in_category(before, HAZARD, q) implies covered(pools, q) || rest.contains(q) by {
        if !covered(pools, q) {
            let j = choose|j: int| 0 <= j < stack.len() && stack[j] == q;
            if q == p {
                if members.contains(p) {
                    let k = choose|k: int| 0 <= k < members.len() && members[k] == p;
                    lemma_region_cells(before, rows, columns, UPLAND, point, members[k]);
                }
            } else {
                assert(rest[j] == q);
            }
        }
    }
}

/// Taking the whole pool around a hazard cell out of the grid keeps the survey sound.
#[verifier::rlimit(40)]
proof fn lemma_survey_drains(
    before: Seq<Vec<PreTileType>>,
    now: Seq<Vec<PreTileType>>,
    after: Seq<Vec<PreTileType>>,
    rows: usize,
    columns: usize,
    point: Vector2,
    members: Seq<Vector2>,
    stack: Seq<Vector2>,
    pools: Seq<Zone>,
    pool: Zone,
)
    requires
        surveying(before, now, rows, columns, point, members, stack, pools),
        stack.len() > 0,
        in_category(now, HAZARD, stack.last()),
        flooded(now, after, rows, columns, HAZARD, stack.last(), pool.inner@),
        pool.centroid == centroid_of(pool.inner@),
        pool.tile == PreTileType::Void,
    ensures
        surveying(before, after, rows, columns, point, members, stack.drop_last(), pools.push(pool)),
        count_grid(after, of_category::<PreTileType>(UPLAND)) == count_grid(
            now,
            of_category::<PreTileType>(UPLAND),
        ),
{
    let p = stack.last();
    let rest = stack.drop_last();
    let more = pools.push(pool);
    let consumed = |q: Vector2| members.contains(q) || covered(pools, q);
    lemma_flood_skips(before, now, rows, columns, UPLAND, point, members, stack, cover(pools));
    lemma_cover_is_whole(before, rows, columns, HAZARD, pools);
    assert(on_grid(p, rows, columns));
    assert forall|q: Vector2| members.contains(q) implies on_grid(q, rows, columns) && in_category(
        before,
        UPLAND,
        q,
    ) by {
        let k = choose|k: int| 0 <= k < members.len() && members[k] == q;
        lemma_region_cells(before, rows, columns, UPLAND, point, members[k]);
    }
    assert forall|q: Vector2| on_grid(q, rows, columns) implies #[trigger] cell_at(now, q) == (
    if consumed(q) {
        cell_at(before, q).with_kind(PreTileType::Void)
    } else {
        cell_at(before, q)
    }) by {
        assert(cell_at(now, q) == (if members.contains(q) || cover(pools)(q) {
            cell_at(before, q).with_kind(PreTileType::Void)
        } else {
            cell_at(before, q)
        }));
    }
    assert(voided(before, now, rows, columns, consumed));
    assert(whole_regions(before, rows, columns, HAZARD, consumed)) by {
        assert forall|a: Vector2, b: Vector2|
            #[trigger] consumed(a) && in_category(before, HAZARD, a) && on_grid(b, rows, columns)
                && #[trigger] adjacent(a, b) && in_category(before, HAZARD, b) implies consumed(
            b,
        ) by {
            assert(cover(pools)(a));
            assert(cover(pools)(b));
        }
    }
    assert(cell_at(now, p) == (if consumed(p) {
        cell_at(before, p).with_kind(PreTileType::Void)
    } else {
        cell_at(before, p)
    }));
    assert(!consumed(p));
    assert forall|q: Vector2| #[trigger]
        pool.inner@.contains(q) <==> on_grid(q, rows, columns) && linked(
            before,
            rows,
            columns,
            HAZARD,
            p,
            q,
        ) by {
        lemma_component_survives(before, now, rows, columns, HAZARD, consumed, p, q);
    }
    assert forall|q: Vector2| pool.inner@.contains(q) implies !consumed(q) && in_category(
        before,
        HAZARD,
        q,
    ) && on_grid(q, rows, columns) by {
        lemma_region_cells(now, rows, columns, HAZARD, p, q);
        assert(cell_at(now, q) == (if consumed(q) {
            cell_at(before, q).with_kind(PreTileType::Void)
        } else {
            cell_at(before, q)
        }));
    }
    assert forall|k: int| 0 <= k < pools.len() implies #[trigger] more[k] == pools[k] by {}
    assert(more[pools.len() as int] == pool);
    assert forall|q: Vector2| covered(pools, q) implies covered(more, q) by {
        let k = choose|k: int| 0 <= k < pools.len() && (#[trigger] pools[k]).inner@.contains(q);
        assert(more[k].inner@.contains(q));
    }
    assert forall|q: Vector2| pool.inner@.contains(q) implies covered(more, q) by {
        assert(more[pools.len() as int].inner@.contains(q));
    }
    assert forall|q: Vector2| covered(more, q) implies covered(pools, q) || pool.inner@.contains(
        q,
    ) by {
        let k = choose|k: int| 0 <= k < more.len() && (#[trigger] more[k]).inner@.contains(q);
        if k < pools.len() {
            assert(pools[k].inner@.contains(q));
        }
    }
    assert forall|j: int, k: int, q: Vector2|
        0 <= j < k < more.len() && #[trigger] more[j].inner@.contains(q)
            implies !#[trigger] more[k].inner@.contains(q) by {
        assert(pools[j].inner@.contains(q));
        if k < pools.len() {
            assert(!pools[k].inner@.contains(q));
        } else {
            assert(covered(pools, q));
        }
    }
    assert(pool.inner@[0] == p);
    assert(are_regions(before, rows, columns, HAZARD, more));
    assert forall|q: Vector2| on_grid(q, rows, columns) implies #[trigger] cell_at(after, q) == (
    if members.contains(q) || cover(more)(q) {
        cell_at(before, q).with_kind(PreTileType::Void)
    } else {
        cell_at(before, q)
    }) by {
        assert(cell_at(now, q) == (if consumed(q) {
            cell_at(before, q).with_kind(PreTileType::Void)
        } else {
            cell_at(before, q)
        }));
    }
    assert forall|q: Vector2| #[trigger] cover(more)(q) implies !in_category(before, UPLAND, q) by {
        if pool.inner@.contains(q) {
        } else {
            assert(cover(pools)(q));
        }
    }
    assert(flooding(before, after, rows, columns, UPLAND, point, members, rest, cover(more)));
    assert(p != point);
    assert(touches(members, p));
    assert forall|k: int| 0 <= k < more.len() implies touches(
        members,
        (#[trigger] more[k]).inner@[0],
    ) && more[k].tile == PreTileType::Void by {
        if k < pools.len() {
            assert(more[k] == pools[k]);
        }
    }
    assert forall|i: int| 0 <= i < rest.len() implies rest[i] == point || touches(
        members,
        #[trigger] rest[i],
    ) by {
        assert(rest[i] == stack[i]);
    }
    assert forall|m: Vector2, q: Vector2|
        #[trigger] members.contains(m) && on_grid(q, rows, columns) && #[trigger] adjacent(m, q)
            && in_category(before, HAZARD, q) implies covered(more, q) || rest.contains(q) by {
        if !covered(pools, q) {
            let j = choose|j: int| 0 <= j < stack.len() && stack[j] == q;
            if q == p {
                assert(pool.inner@.contains(p));
            } else {
                assert(rest[j] == q);
            }
        }
    }
    assert forall|q: Vector2| on_grid(q, rows, columns) implies of_category::<PreTileType>(UPLAND)(
        #[trigger] cell_at(now, q),
    ) == of_category::<PreTileType>(UPLAND)(cell_at(after, q)) by {
        if pool.inner@.contains(q) {
            lemma_region_cells(now, rows, columns, HAZARD, p, q);
        }
    }
    lemma_count_grid_same(now, after, rows, columns, of_category::<PreTileType>(UPLAND));
}

/// The cells of the regions of a list, one region after the other.
pub open spec fn joined(regions: Seq<Zone>) -> Seq<Vector2>
    decreases regions.len(),
{
    if regions.len() == 0 {
        Seq::empty()
    } else {
        joined(regions.drop_last()) + regions.last().inner@
    }
}

/// `city` is the settlement that the upland region `mountain` becomes: it has
/// the cells of the region, then those of its pools, and their centroid.
pub open spec fn is_city_of(city: Zone, mountain: Mountain) -> bool {
    &&& city.inner@ == mountain.zone.inner@ + joined(mountain.lava_pools@)
    &&& city.centroid == centroid_of(city.inner@)
    &&& city.tile == PreTileType::Void
}

/// A grid with the cells of `cells` set to `tile`.
pub open spec fn painted<T>(before: Seq<Vec<T>>, after: Seq<Vec<T>>, cells: Seq<Vector2>, tile: T) -> bool {
    &&& after.len() == before.len()
    &&& forall|i: int| 0 <= i < before.len() ==> (#[trigger] after[i]).len() == before[i].len()
    &&& forall|p: Vector2|
        p.x < before.len() && p.y < before[p.x as int].len() ==> #[trigger] cell_at(after, p) == (
        if cells.contains(p) {
            tile
        } else {
            cell_at(before, p)
        })
}

/// Every position lies within the rows of the grid.
pub open spec fn within<T>(g: Seq<Vec<T>>, cells: Seq<Vector2>) -> bool {
    forall|i: int|
        0 <= i < cells.len() ==> (#[trigger] cells[i]).x < g.len() && cells[i].y < g[cells[i].x as int].len()
}

/// Sets each of the cells to `tile`.
pub fn stamp<T: Copy>(world: &mut Vec<Vec<T>>, cells: &Vec<Vector2>, tile: T)
    requires
        within(old(world)@, cells@),
    ensures
        painted(old(world)@, final(world)@, cells@, tile),
{
    let ghost before = world@;
    let mut i: usize = 0;
    while i < cells.len()
        invariant
            i <= cells.len(),
            within(before, cells@),
            painted(before, world@, cells@.take(i as int), tile),
        decreases cells.len() - i,
    {
        let p = cells[i];
        let ghost at_entry = world@;
        let ghost done = cells@.take(i as int);
        assert(cells@[i as int] == p);
        world[p.x][p.y] = tile;
        proof {
            let next = cells@.take(i + 1);
            assert(next =~= done.push(p));
            assert forall|q: Vector2|
                q.x < before.len() && q.y < before[q.x as int].len() implies #[trigger] cell_at(
                world@,
                q,
            ) == (if next.contains(q) {
                tile
            } else {
                cell_at(before, q)
            }) by {
                assert(cell_at(at_entry, q) == (if done.contains(q) {
                    tile
                } else {
                    cell_at(before, q)
                }));
                if q == p {
                    assert(next.last() == p);
                } else {
                    if q.x != p.x {
                        assert(world@[q.x as int] == at_entry[q.x as int]);
                    }
                    assert(cell_at(world@, q) == cell_at(at_entry, q));
                    if next.contains(q) {
                        let k = choose|k: int| 0 <= k < next.len() && next[k] == q;
                        assert(done[k] == q);
                    }
                    if done.contains(q) {
                        let k = choose|k: int| 0 <= k < done.len() && done[k] == q;
                        assert(next[k] == q);
                    }
                }
            }
            assert forall|r: int| 0 <= r < before.len() implies (#[trigger] world@[r]).len()
                == before[r].len() by {
                assert(at_entry[r].len() == before[r].len());
                if r != p.x {
                    assert(world@[r] == at_entry[r]);
                }
            }
        }
        i += 1;
    }
    proof {
        assert(cells@.take(cells@.len() as int) =~= cells@);
    }
}

impl Zone {
    /// Gives the region the category `tile` and writes it on each of its cells.
    pub fn fill(&mut self, world: &mut Vec<Vec<PreTileType>>, tile: PreTileType)
        requires
            within(old(world)@, old(self).inner@),
        ensures
            final(self).tile == tile,
            final(self).inner == old(self).inner,
            final(self).centroid == old(self).centroid,
            painted(old(world)@, final(world)@, old(self).inner@, tile),
    {
        self.tile = tile;
        stamp(world, &self.inner, tile);
    }
}

impl Mountain {
    /// The upland region around `point`, taken out of the grid together with
    /// the hazard pools that it borders on.
    pub fn new(world: &mut Vec<Vec<PreTileType>>, point: Vector2) -> (mountain: Self)
        requires
            old(world).len() > 0,
            rectangular(old(world)@, old(world).len(), old(world)[0].len()),
            on_grid(point, old(world).len(), old(world)[0].len()),
            in_category(old(world)@, UPLAND, point),
        ensures
            final(world).len() == old(world).len(),
            upland_found(
                old(world)@,
                final(world)@,
                old(world).len(),
                old(world)[0].len(),
                point,
                mountain,
            ),
    {
        let rows = world.len();
        let columns = world[0].len();
        let ghost before = world@;
        let mut zone_vec: Vec<Vector2> = Vec::new();
        let mut lava_pool_vec: Vec<Zone> = Vec::new();
        let mut stack: Vec<Vector2> = Vec::new();
        stack.push(point);
        proof {
            lemma_linked_to_itself(before, rows, columns, UPLAND, point);
            assert(stack@ =~= seq![point]);
            assert(stack@[0] == point);
            assert(!covered(lava_pool_vec@, point));
        }
        while stack.len() > 0
            invariant
                rows == world.len(),
                rows > 0,
                columns == world[0].len(),
                surveying(before, world@, rows, columns, point, zone_vec@, stack@, lava_pool_vec@),
            decreases 5 * count_grid(world@, of_category::<PreTileType>(UPLAND)) + stack.len(),
        {
            let ghost now = world@;
            let ghost listed = stack@;
            let ghost taken = zone_vec@;
            let ghost pools = lava_pool_vec@;
            let p = stack.pop().unwrap();
            assert(p == listed.last());
            assert(stack@ == listed.drop_last());
            assert(on_grid(p, rows, columns));
            match world[p.x][p.y] {
                PreTileType::Zone(1) => {
                    zone_vec.push(p);
                    let mut around = p.neighbours(rows, columns);
                    stack.append(&mut around);
                    world[p.x][p.y] = PreTileType::Void;
                    proof {
                        assert(one_cell_changed(now, world@, p));
                        lemma_survey_takes(
                            before,
                            now,
                            world@,
                            rows,
                            columns,
                            point,
                            taken,
                            listed,
                            pools,
                        );
                    }
                },
                PreTileType::Zone(2) => {
                    let pool = Zone::bfs(world, HAZARD, p);
                    proof {
                        lemma_survey_drains(
                            before,
                            now,
                            world@,
                            rows,
                            columns,
                            point,
                            taken,
                            listed,
                            pools,
                            pool,
                        );
                    }
                    lava_pool_vec.push(pool);
                },
                _ => {
                    proof {
                        lemma_survey_skips(before, now, rows, columns, point, taken, listed, pools);
                    }
                },
            }
        }
        proof {
            assert(stack@ =~= Seq::<Vector2>::empty());
            lemma_flood_done(
                before,
                world@,
                rows,
                columns,
                UPLAND,
                point,
                zone_vec@,
                cover(lava_pool_vec@),
            );
            assert forall|m: Vector2, q: Vector2|
                #[trigger] zone_vec@.contains(m) && on_grid(q, rows, columns) && #[trigger] adjacent(
                    m,
                    q,
                ) && in_category(before, HAZARD, q) implies covered(lava_pool_vec@, q) by {
                assert(covered(lava_pool_vec@, q) || stack@.contains(q));
            }
            assert forall|p: Vector2| on_grid(p, rows, columns) implies #[trigger] cell_at(
                world@,
                p,
            ) == (if zone_vec@.contains(p) || covered(lava_pool_vec@, p) {
                PreTileType::Void
            } else {
                cell_at(before, p)
            }) by {
                assert(cell_at(world@, p) == (if zone_vec@.contains(p) || cover(lava_pool_vec@)(p) {
                    cell_at(before, p).with_kind(PreTileType::Void)
                } else {
                    cell_at(before, p)
                }));
            }
        }
        let centroid = Zone::compute_centroid(&zone_vec);
        Self {
            zone: Zone { tile: PreTileType::Void, inner: zone_vec, centroid },
            lava_pools: lava_pool_vec,
        }
    }

    /// The settlement that this upland region becomes: its pools are paved over.
    pub fn to_city(self) -> (city: Zone)
        requires
            self.zone.inner@.len() > 0,
        ensures
            is_city_of(city, self),
    {
        let mut vec: Vec<Vector2> = Vec::new();
        let mut i: usize = 0;
        while i < self.zone.inner.len()
            invariant
                i <= self.zone.inner.len(),
                vec@ == self.zone.inner@.take(i as int),
            decreases self.zone.inner.len() - i,
        {
            vec.push(self.zone.inner[i]);
            proof {
                assert(self.zone.inner@.take(i + 1) =~= self.zone.inner@.take(i as int).push(
                    self.zone.inner@[i as int],
                ));
            }
            i += 1;
        }
        proof {
            assert(self.zone.inner@.take(self.zone.inner@.len() as int) =~= self.zone.inner@);
            assert(self.lava_pools@.take(0) =~= Seq::<Zone>::empty());
            assert(vec@ =~= self.zone.inner@ + joined(self.lava_pools@.take(0)));
        }
        let mut k: usize = 0;
        while k < self.lava_pools.len()
            invariant
                k <= self.lava_pools.len(),
                vec@ == self.zone.inner@ + joined(self.lava_pools@.take(k as int)),
            decreases self.lava_pools.len() - k,
        {
            let ghost base = vec@;
            let mut j: usize = 0;
            while j < self.lava_pools[k].inner.len()
                invariant
                    k < self.lava_pools.len(),
                    j <= self.lava_pools[k as int].inner.len(),
                    vec@ == base + self.lava_pools[k as int].inner@.take(j as int),
                decreases self.lava_pools[k as int].inner.len() - j,
            {
                vec.push(self.lava_pools[k].inner[j]);
                proof {
                    let pool = self.lava_pools[k as int].inner@;
                    assert(pool.take(j + 1) =~= pool.take(j as int).push(pool[j as int]));
                    assert(vec@ =~= base + pool.take(j + 1));
                }
                j += 1;
            }
            proof {
                let pool = self.lava_pools[k as int].inner@;
                assert(pool.take(pool.len() as int) =~= pool);
                let upto = self.lava_pools@.take(k + 1);
                assert(upto.drop_last() =~= self.lava_pools@.take(k as int));
                assert(upto.last() == self.lava_pools@[k as int]);
                assert(vec@ =~= self.zone.inner@ + joined(upto));
            }
            k += 1;
        }
        proof {
            assert(self.lava_pools@.take(self.lava_pools@.len() as int) =~= self.lava_pools@);
        }
        let centroid = Zone::compute_centroid(&vec);
        Zone { tile: PreTileType::Void, centroid, inner: vec }
    }
}

} // verus!
