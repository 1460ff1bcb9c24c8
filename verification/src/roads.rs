//! The road network: the anchors are chained, each to the nearest of those not
//! chained yet, and a road is laid along the cheapest path between successive
//! anchors.

use crate::grid::cell_at;
use crate::pathfinding::{build_road, is_answer, refusal, road_laid, shortest_priority};
use crate::random::{lemma_permuted_same, lemma_permuted_swap, permuted, rearranged};
use crate::tile::{Paved, Walkable};
use crate::vector2::{manhattan, on_grid, Vector2};
use vstd::prelude::*;

verus! {

/// Anchor `j` is no nearer to anchor `i` than the anchor that follows anchor `i`.
pub open spec fn next_is_nearer(anchors: Seq<Vector2>, i: int, j: int) -> bool {
    manhattan(anchors[i], anchors[i + 1]) <= manhattan(anchors[i], anchors[j])
}

/// Each anchor but the last is followed by the nearest of the anchors behind it.
pub open spec fn is_chained(anchors: Seq<Vector2>) -> bool {
    forall|i: int, j: int| 0 <= i < j < anchors.len() ==> #[trigger] next_is_nearer(anchors, i, j)
}

/// Each of the first `upto` anchors is followed by the nearest of the anchors behind it.
pub open spec fn chained_upto(anchors: Seq<Vector2>, upto: int) -> bool {
    forall|i: int, j: int|
        0 <= i < j < anchors.len() && i < upto ==> #[trigger] next_is_nearer(anchors, i, j)
}

/// Every cell is as it was or has been paved.
pub open spec fn only_paved<T: Paved>(before: Seq<Vec<T>>, after: Seq<Vec<T>>) -> bool {
    &&& after.len() == before.len()
    &&& forall|i: int| 0 <= i < before.len() ==> (#[trigger] after[i]).len() == before[i].len()
    &&& forall|p: Vector2|
        p.x < before.len() && p.y < before[p.x as int].len() ==> #[trigger] cell_at(after, p)
            == cell_at(before, p) || cell_at(after, p) == cell_at(before, p).paved()
}

/// Some path of the list holds the cell.
pub open spec fn on_paths(paths: Seq<Seq<Vector2>>, p: Vector2) -> bool {
    exists|k: int| 0 <= k < paths.len() && (#[trigger] paths[k]).contains(p)
}

/// `after` is `before` with the cells of the paths paved and no other cell changed.
pub open spec fn roads_laid<T: Paved>(
    before: Seq<Vec<T>>,
    after: Seq<Vec<T>>,
    paths: Seq<Seq<Vector2>>,
) -> bool {
    &&& after.len() == before.len()
    &&& forall|i: int| 0 <= i < before.len() ==> (#[trigger] after[i]).len() == before[i].len()
    &&& forall|p: Vector2|
        p.x < before.len() && p.y < before[p.x as int].len() ==> #[trigger] cell_at(after, p) == (
        if on_paths(paths, p) {
            cell_at(before, p).paved()
        } else {
            cell_at(before, p)
        })
}

/// `path` is what is laid for the link from `a` to `b` over the grid `then`:
/// the answer of the search from `a` to `b`, or nothing if the search is refused.
pub open spec fn is_link<T: Walkable + Paved>(
    then: Vec<Vec<T>>,
    a: Vector2,
    b: Vector2,
    path: Seq<Vector2>,
) -> bool {
    if refusal(&then, a, b) is None {
        is_answer(&then, a, b, path)
    } else {
        path.len() == 0
    }
}

/// Path `k` is the link from anchor `k` to the next, over the grid with the
/// paths before it laid.
pub open spec fn link_at<T: Walkable + Paved>(
    before: Seq<Vec<T>>,
    chain: Seq<Vector2>,
    paths: Seq<Seq<Vector2>>,
    k: int,
) -> bool {
    exists|then: Vec<Vec<T>>| #[trigger]
        roads_laid(before, then@, paths.take(k)) && is_link(then, chain[k], chain[k + 1], paths[k])
}

/// The roads of the chain have been laid: there is a path for each anchor but
/// the last, the link from it to the next anchor over the grid with the paths
/// before it laid; and `after` is `before` with the cells of these paths paved.
pub open spec fn is_network<T: Walkable + Paved>(
    before: Seq<Vec<T>>,
    after: Seq<Vec<T>>,
    chain: Seq<Vector2>,
    paths: Seq<Seq<Vector2>>,
) -> bool {
    &&& paths.len() == (if chain.len() == 0 {
        0
    } else {
        chain.len() - 1
    })
    &&& roads_laid(before, after, paths)
    &&& forall|k: int| 0 <= k < paths.len() ==> #[trigger] link_at(before, chain, paths, k)
}

/// Manhattan distance, for positions however far apart.
fn far(a: Vector2, b: Vector2) -> (d: u128)
    ensures
        d == manhattan(a, b),
{
    let dx: usize = if a.x <= b.x {
        b.x - a.x
    } else {
        a.x - b.x
    };
    let dy: usize = if a.y <= b.y {
        b.y - a.y
    } else {
        a.y - b.y
    };
    dx as u128 + dy as u128
}

/// The index, from `from` on, of the anchor nearest to `anchors[from - 1]`;
/// of several equally near, the last.
fn nearest(anchors: &Vec<Vector2>, from: usize) -> (best: usize)
    requires
        0 < from < anchors.len(),
    ensures
        from <= best < anchors.len(),
        forall|j: int|
            from <= j < anchors.len() ==> manhattan(anchors[from - 1], anchors[best as int])
                <= manhattan(anchors[from - 1], #[trigger] anchors[j]),
{
    let origin = anchors[from - 1];
    let mut min_index = from;
    let mut min_distance = far(anchors[from], origin);
    let mut j = from;
    while j < anchors.len()
        invariant
            0 < from <= j <= anchors.len(),
            origin == anchors[from - 1],
            from <= min_index < anchors.len(),
            min_distance == manhattan(origin, anchors[min_index as int]),
            forall|k: int|
                from <= k < j ==> min_distance <= manhattan(origin, #[trigger] anchors[k]),
        decreases anchors.len() - j,
    {
        let this_distance = far(anchors[j], origin);
        if this_distance <= min_distance {
            min_distance = this_distance;
            min_index = j;
        }
        j += 1;
    }
    min_index
}

/// The list with the items at `i` and `j` in each other's place.
pub open spec fn swapped<A>(s: Seq<A>, i: int, j: int) -> Seq<A> {
    s.update(i, s[j]).update(j, s[i])
}

/// Makes two items of a list change places.
pub fn exchange<Z>(items: &mut Vec<Z>, i: usize, j: usize)
    requires
        i <= j < old(items).len(),
    ensures
        final(items)@ == swapped(old(items)@, i as int, j as int),
{
    let ghost given = items@;
    if i == j {
        assert(given =~= swapped(given, i as int, j as int));
        return ;
    }
    let upper = items.remove(j);
    let lower = items.remove(i);
    items.insert(i, upper);
    items.insert(j, lower);
    assert(items@ =~= swapped(given, i as int, j as int));
}

/// Lays a road along the cheapest path from `from` to `to`, if the search for
/// it is not refused.
fn link<T: Walkable + Paved>(world: &mut Vec<Vec<T>>, from: Vector2, to: Vector2) -> (laid: Ghost<
    Seq<Vector2>,
>)
    ensures
        is_link(*old(world), from, to, laid@),
        road_laid(old(world)@, final(world)@, laid@),
{
    let ghost then = *world;
    match shortest_priority(world, from, to) {
        Ok(path) => {
            let ghost cells = path@;
            proof {
                assert forall|k: int| 0 <= k < path@.len() implies (#[trigger] path@[k]).x
                    < world.len() && path@[k].y < world[path@[k].x as int].len() by {
                    assert(on_grid(path@[k], world.len(), world[0].len()));
                }
            }
            build_road(world, path);
            Ghost(cells)
        },
        Err(_) => {
            proof {
                let none = Seq::<Vector2>::empty();
                assert forall|p: Vector2| !none.contains(p) by {}
            }
            Ghost(Seq::empty())
        },
    }
}

/// What is kept of a chain in the making: where each anchor came from and
/// went, and the paths laid so far.
pub struct Plan {
    pub order: Seq<int>,
    pub back: Seq<int>,
    pub paths: Seq<Seq<Vector2>>,
}

/// The plan of a chain of which nothing has been made yet.
pub open spec fn blank_plan(len: nat) -> Plan {
    Plan { order: Seq::new(len, |i: int| i), back: Seq::new(len, |i: int| i), paths: Seq::empty() }
}

/// The plan after the anchors at `i` and `j` have changed places and `path`
/// has been laid.
pub open spec fn next_plan(plan: Plan, i: int, j: int, path: Seq<Vector2>) -> Plan {
    Plan {
        order: swapped(plan.order, i, j),
        back: plan.back.update(plan.order[i], j).update(plan.order[j], i),
        paths: plan.paths.push(path),
    }
}

/// What holds of a chain of which the first `i` links have been made: the
/// anchors are those given, rearranged as the plan says, the first in its
/// place; each of the first `i` anchors is followed by the nearest of those
/// behind it; and the paths of the plan are the links from each of them to the
/// next, laid on the grid.
pub open spec fn chaining<T: Walkable + Paved>(
    before: Seq<Vec<T>>,
    now: Seq<Vec<T>>,
    given: Seq<Vector2>,
    anchors: Seq<Vector2>,
    plan: Plan,
    i: int,
) -> bool {
    &&& given.len() >= 2
    &&& 0 <= i <= anchors.len() - 1
    &&& permuted(given, anchors, plan.order, plan.back)
    &&& anchors[0] == given[0]
    &&& chained_upto(anchors, i)
    &&& plan.paths.len() == i
    &&& roads_laid(before, now, plan.paths)
    &&& forall|k: int| 0 <= k < i ==> #[trigger] link_at(before, anchors, plan.paths, k)
}

/// Makes link `i` of the chain: puts the anchor nearest to anchor `i`, of
/// those behind it, next to it, and lays the road between the two. Returns the
/// place that the anchor was taken from.
pub(crate) fn chain_step<T: Walkable + Paved>(
    world: &mut Vec<Vec<T>>,
    anchors: &mut Vec<Vector2>,
    i: usize,
    before: Ghost<Seq<Vec<T>>>,
    given: Ghost<Seq<Vector2>>,
    plan: Ghost<Plan>,
) -> (out: (usize, Ghost<Plan>))
    requires
        chaining(before@, old(world)@, given@, old(anchors)@, plan@, i as int),
        i < old(anchors).len() - 1,
    ensures
        i + 1 <= out.0 < old(anchors).len(),
        final(anchors)@ == swapped(old(anchors)@, i + 1, out.0 as int),
        out.1@.order == swapped(plan@.order, i + 1, out.0 as int),
        out.1@.back == plan@.back.update(plan@.order[i + 1], out.0 as int).update(
            plan@.order[out.0 as int],
            i + 1,
        ),
        chaining(before@, final(world)@, given@, final(anchors)@, out.1@, i + 1),
{
    let ghost listed = anchors@;
    let ghost then = *world;
    let ghost paths = plan@.paths;
    let best = nearest(anchors, i + 1);
    exchange(anchors, i + 1, best);
    proof {
        lemma_permuted_swap(given@, listed, plan@.order, plan@.back, i + 1, best as int);
        lemma_chain_grows(listed, anchors@, i as int, best as int);
        assert forall|k: int| 0 <= k < i implies #[trigger] link_at(
            before@,
            anchors@,
            paths,
            k,
        ) by {
            assert(link_at(before@, listed, paths, k));
            assert(anchors@[k] == listed[k]);
            assert(anchors@[k + 1] == listed[k + 1]);
        }
    }
    let from = anchors[i];
    let to = anchors[i + 1];
    let laid = link(world, from, to);
    let ghost next = next_plan(plan@, i + 1, best as int, laid@);
    proof {
        let longer = paths.push(laid@);
        lemma_roads_grow(before@, then@, world@, paths, laid@);
        assert forall|k: int| 0 <= k < i + 1 implies #[trigger] link_at(
            before@,
            anchors@,
            longer,
            k,
        ) by {
            if k < i {
                assert(link_at(before@, anchors@, paths, k));
                assert(longer.take(k) =~= paths.take(k));
                assert(longer[k] == paths[k]);
            } else {
                assert(longer.take(k) =~= paths);
                assert(roads_laid(before@, then@, longer.take(k)) && is_link(
                    then,
                    anchors@[k],
                    anchors@[k + 1],
                    longer[k],
                ));
            }
        }
    }
    (best, Ghost(next))
}

/// Chains the anchors and lays a road from each to the next.
///
/// Anchor `i + 1` becomes the nearest to anchor `i` of the anchors behind it;
/// then the cheapest path between the two is paved. A search that is refused
/// lays no road, and the chain goes on. With fewer than two anchors nothing
/// happens.
pub fn connect<T: Walkable + Paved>(world: &mut Vec<Vec<T>>, anchors: &mut Vec<Vector2>)
    ensures
        exists|order: Seq<int>| #[trigger] rearranged(old(anchors)@, final(anchors)@, order),
        final(anchors)@.len() == old(anchors)@.len(),
        old(anchors)@.len() > 0 ==> final(anchors)@[0] == old(anchors)@[0],
        is_chained(final(anchors)@),
        exists|paths: Seq<Seq<Vector2>>| #[trigger]
            is_network(old(world)@, final(world)@, final(anchors)@, paths),
        old(anchors)@.len() < 2 ==> final(world)@ == old(world)@ && final(anchors)@ == old(
            anchors,
        )@,
{
    let ghost before = world@;
    let ghost given = anchors@;
    let mut plan: Ghost<Plan> = Ghost(blank_plan(given.len()));
    proof {
        lemma_permuted_same(given);
        lemma_no_roads(before);
    }
    if anchors.len() < 2 {
        proof {
            assert(is_chained(anchors@));
            assert(is_network(before, world@, anchors@, plan@.paths));
        }
        return ;
    }
    let mut i: usize = 0;
    while i < anchors.len() - 1
        invariant
            anchors@.len() == given.len(),
            chaining(before, world@, given, anchors@, plan@, i as int),
        decreases anchors.len() - 1 - i,
    {
        let (_, next) = chain_step(world, anchors, i, Ghost(before), Ghost(given), plan);
        plan = next;
        i += 1;
    }
    proof {
        assert(is_network(before, world@, anchors@, plan@.paths));
    }
}

/// A grid is itself with no road laid.
pub proof fn lemma_no_roads<T: Paved>(before: Seq<Vec<T>>)
    ensures
        roads_laid(before, before, Seq::empty()),
{
    let none = Seq::<Seq<Vector2>>::empty();
    assert forall|p: Vector2| !on_paths(none, p) by {}
}

/// Laying one more road on a grid with roads gives the grid with all of them.
proof fn lemma_roads_grow<T: Paved>(
    before: Seq<Vec<T>>,
    then: Seq<Vec<T>>,
    after: Seq<Vec<T>>,
    paths: Seq<Seq<Vector2>>,
    path: Seq<Vector2>,
)
    requires
        roads_laid(before, then, paths),
        road_laid(then, after, path),
    ensures
        roads_laid(before, after, paths.push(path)),
{
    let longer = paths.push(path);
    assert forall|i: int| 0 <= i < before.len() implies (#[trigger] after[i]).len()
        == before[i].len() by {
        assert(then[i].len() == before[i].len());
    }
    assert forall|p: Vector2|
        p.x < before.len() && p.y < before[p.x as int].len() implies #[trigger] cell_at(after, p)
        == (if on_paths(longer, p) {
        cell_at(before, p).paved()
    } else {
        cell_at(before, p)
    }) by {
        assert(then[p.x as int].len() == before[p.x as int].len());
        assert(cell_at(then, p) == (if on_paths(paths, p) {
            cell_at(before, p).paved()
        } else {
            cell_at(before, p)
        }));
        cell_at(before, p).lemma_paved_once();
        if on_paths(paths, p) {
            let k = choose|k: int| 0 <= k < paths.len() && (#[trigger] paths[k]).contains(p);
            assert(longer[k].contains(p));
        }
        if path.contains(p) {
            assert(longer[paths.len() as int].contains(p));
        }
        if on_paths(longer, p) {
            let k = choose|k: int| 0 <= k < longer.len() && (#[trigger] longer[k]).contains(p);
            if k < paths.len() {
                assert(paths[k].contains(p));
            }
        }
    }
}

/// A grid with roads laid differs from the grid before only by paved cells.
pub proof fn lemma_roads_only_pave<T: Paved>(
    before: Seq<Vec<T>>,
    after: Seq<Vec<T>>,
    paths: Seq<Seq<Vector2>>,
)
    requires
        roads_laid(before, after, paths),
    ensures
        only_paved(before, after),
{
}

/// Putting the nearest anchor next keeps what is chained and chains one more.
proof fn lemma_chain_grows(listed: Seq<Vector2>, moved: Seq<Vector2>, i: int, best: int)
    requires
        0 <= i,
        i + 1 <= best < listed.len(),
        chained_upto(listed, i),
        forall|j: int|
            i + 1 <= j < listed.len() ==> manhattan(listed[i], listed[best]) <= manhattan(
                listed[i],
                #[trigger] listed[j],
            ),
        moved == listed.update(i + 1, listed[best]).update(best, listed[i + 1]),
    ensures
        chained_upto(moved, i + 1),
        moved[0] == listed[0],
{
    assert forall|a: int, b: int|
        0 <= a < b < moved.len() && a < i + 1 implies #[trigger] next_is_nearer(moved, a, b) by {
        assert(moved[a] == listed[a]);
        if a < i {
            // what follows anchor `a` is as it was, but for two anchors behind
            // it that have changed places
            let b_was = if b == i + 1 {
                best
            } else if b == best {
                i + 1
            } else {
                b
            };
            assert(moved[b] == listed[b_was]);
            assert(moved[a + 1] == listed[a + 1]);
            assert(next_is_nearer(listed, a, b_was));
        } else {
            assert(moved[i + 1] == listed[best]);
            let b_was = if b == i + 1 {
                best
            } else if b == best {
                i + 1
            } else {
                b
            };
            assert(moved[b] == listed[b_was]);
        }
    }
}

} // verus!
