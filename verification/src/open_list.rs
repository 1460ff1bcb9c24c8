//! The frontier of a search: the cells still to be settled, ordered by price.

use crate::vector2::Vector2;
use priority_queue::PriorityQueue;
use std::cmp::Reverse;
use std::hash::Hash;
use vstd::prelude::*;

verus! {

/// `std::cmp::Reverse`: a value that is ordered the other way round. Nothing
/// is claimed of it; the queue carries it.
#[verifier::external_type_specification]
#[verifier::external_body]
#[verifier::reject_recursive_types(T)]
pub struct ExReverse<T>(Reverse<T>);

/// `priority_queue::PriorityQueue`: what it holds is named by `queue_entries`.
#[verifier::external_type_specification]
#[verifier::external_body]
#[verifier::reject_recursive_types(I)]
#[verifier::reject_recursive_types(P)]
#[verifier::reject_recursive_types(H)]
pub struct ExPriorityQueue<I: Hash + Eq, P: Ord, H>(PriorityQueue<I, P, H>);

/// A queue of positions, each the pair of its row and column, under pairs of
/// numbers of which the least leaves first.
pub type Frontier = PriorityQueue<(usize, usize), Reverse<(u64, u64)>>;

/// What a queue holds: each queued position, as the pair of its row and column,
/// with the pair of numbers it was queued under.
pub uninterp spec fn queue_entries(q: Frontier) -> Map<(usize, usize), (u64, u64)>;

/// Order of the pairs that entries are queued under: by the first number, then by the second.
pub open spec fn rank_le(a: (u64, u64), b: (u64, u64)) -> bool {
    a.0 < b.0 || (a.0 == b.0 && a.1 <= b.1)
}

/// `PriorityQueue::new`: the new queue holds nothing.
#[verifier::external_body]
fn queue_new() -> (queue: Frontier)
    ensures
        queue_entries(queue) =~= Map::empty(),
{
    PriorityQueue::new()
}

/// `PriorityQueue::push`: the item is queued under the given pair, which replaces
/// the pair it was queued under before, if any; the other entries stay.
#[verifier::external_body]
fn queue_push(
    q: &mut Frontier,
    item: (usize, usize),
    rank: (u64, u64),
)
    ensures
        queue_entries(*final(q)) == queue_entries(*old(q)).insert(item, rank),
{
    q.push(item, Reverse(rank));
}

/// `PriorityQueue::pop`: nothing comes out of an empty queue, which stays empty.
/// Otherwise one entry leaves the queue and is returned; no entry of the queue
/// had a pair before its pair in the order of `rank_le`.
#[verifier::external_body]
fn queue_pop(q: &mut Frontier) -> (out: Option<
    ((usize, usize), (u64, u64)),
>)
    ensures
        match out {
            Some((item, rank)) => {
                &&& queue_entries(*old(q)).contains_key(item)
                &&& queue_entries(*old(q))[item] == rank
                &&& queue_entries(*final(q)) == queue_entries(*old(q)).remove(item)
                &&& forall|other: (usize, usize)| #[trigger]
                    queue_entries(*old(q)).contains_key(other) ==> rank_le(
                        rank,
                        queue_entries(*old(q))[other],
                    )
            },
            None => {
                &&& queue_entries(*old(q)) =~= Map::empty()
                &&& queue_entries(*final(q)) == queue_entries(*old(q))
            },
        },
{
    match q.pop() {
        Some((item, Reverse(rank))) => Some((item, rank)),
        None => None,
    }
}

/// `PriorityQueue::get`: whether the item is queued.
#[verifier::external_body]
fn queue_has(q: &Frontier, item: (usize, usize)) -> (b:
    bool)
    ensures
        b == queue_entries(*q).contains_key(item),
{
    q.get(&item).is_some()
}

/// `PriorityQueue::change_priority`: an item that is queued is queued under the
/// given pair from now on; a queue that does not hold the item stays as it is.
#[verifier::external_body]
fn queue_change(q: &mut Frontier, item: (usize, usize), rank: (u64, u64))
    ensures
        queue_entries(*final(q)) == if queue_entries(*old(q)).contains_key(item) {
            queue_entries(*old(q)).insert(item, rank)
        } else {
            queue_entries(*old(q))
        },
{
    q.change_priority(&item, Reverse(rank));
}

/// The frontier of a search: positions queued under their price, of which the
/// cheapest leaves first and, among equally cheap ones, the one queued first.
pub struct OpenList {
    pq: Frontier,
    /// The number of times a position was queued, as far as it can be counted.
    stamp: u64,
}

impl View for OpenList {
    type V = Map<Vector2, u64>;

    /// The price under which each queued position is queued.
    closed spec fn view(&self) -> Map<Vector2, u64> {
        Map::new(
            |p: Vector2| queue_entries(self.pq).contains_key((p.x, p.y)),
            |p: Vector2| queue_entries(self.pq)[(p.x, p.y)].0,
        )
    }
}

/// The highest number that a queueing can get.
pub const LAST_TURN: u64 = 0xFFFF_FFFF_FFFF_FFFF;

impl OpenList {
    /// The number of the queueing that put the position where it is: later
    /// queueings have higher numbers, until `LAST_TURN` is reached.
    pub closed spec fn turn_of(&self, p: Vector2) -> u64 {
        queue_entries(self.pq)[(p.x, p.y)].1
    }

    /// The number of the last queueing.
    pub closed spec fn turn(&self) -> u64 {
        self.stamp
    }

    /// The position `u` leaves before `p`: it is cheaper, or as cheap and not
    /// queued later.
    pub open spec fn leaves_before(&self, u: Vector2, p: Vector2) -> bool {
        self@[u] < self@[p] || (self@[u] == self@[p] && self.turn_of(u) <= self.turn_of(p))
    }

    /// An empty frontier.
    pub fn new() -> (list: Self)
        ensures
            list@ == Map::<Vector2, u64>::empty(),
            list.turn() == 0,
    {
        let list = Self { pq: queue_new(), stamp: 0 };
        assert(list@ =~= Map::<Vector2, u64>::empty());
        list
    }

    /// Takes out of the frontier the position that leaves before all others:
    /// the cheapest and, of several equally cheap, the one queued first.
    pub fn min(&mut self) -> (out: Option<Vector2>)
        ensures
            final(self).turn() == old(self).turn(),
            forall|p: Vector2| #[trigger]
                final(self)@.contains_key(p) ==> final(self).turn_of(p) == old(self).turn_of(p),
            match out {
                Some(u) => {
                    &&& old(self)@.contains_key(u)
                    &&& final(self)@ == old(self)@.remove(u)
                    &&& forall|p: Vector2| #[trigger]
                        old(self)@.contains_key(p) ==> old(self).leaves_before(u, p)
                },
                None => old(self)@ == Map::<Vector2, u64>::empty() && final(self)@ == old(self)@,
            },
    {
        let ghost before = self@;
        match queue_pop(&mut self.pq) {
            Some((item, _)) => {
                let u = Vector2::new(item.0, item.1);
                proof {
                    assert(self@ =~= before.remove(u)) by {
                        assert forall|p: Vector2| self@.contains_key(p) <==> before.remove(
                            u,
                        ).contains_key(p) by {
                            if (p.x, p.y) == item {
                                assert(p == u);
                            }
                        }
                    }
                    assert forall|p: Vector2| #[trigger] before.contains_key(p) implies old(
                        self,
                    ).leaves_before(u, p) by {
                        assert(queue_entries(old(self).pq).contains_key((p.x, p.y)));
                    }
                }
                Some(u)
            },
            None => {
                proof {
                    assert(before =~= Map::<Vector2, u64>::empty());
                }
                None
            },
        }
    }

    /// Queues `item` under `price`, or changes its price if it is queued
    /// already; either way this queueing is the last.
    pub fn add(&mut self, item: Vector2, price: u64)
        ensures
            final(self)@ == old(self)@.insert(item, price),
            final(self).turn() == (if old(self).turn() < LAST_TURN {
                (old(self).turn() + 1) as u64
            } else {
                LAST_TURN
            }),
            final(self).turn_of(item) == final(self).turn(),
            forall|p: Vector2|
                p != item && #[trigger] old(self)@.contains_key(p) ==> final(self).turn_of(p)
                    == old(self).turn_of(p),
    {
        let ghost before = self@;
        if self.stamp < LAST_TURN {
            self.stamp = self.stamp + 1;
        }
        if self.contains(&item) {
            queue_change(&mut self.pq, (item.x, item.y), (price, self.stamp));
        } else {
            queue_push(&mut self.pq, (item.x, item.y), (price, self.stamp));
        }
        proof {
            assert(self@ =~= before.insert(item, price)) by {
                assert forall|p: Vector2| self@.contains_key(p) <==> before.insert(
                    item,
                    price,
                ).contains_key(p) by {
                    if (p.x, p.y) == (item.x, item.y) {
                        assert(p == item);
                    }
                }
            }
        }
    }

    /// Whether `item` is queued.
    pub fn contains(&self, item: &Vector2) -> (b: bool)
        ensures
            b == self@.contains_key(*item),
    {
        queue_has(&self.pq, (item.x, item.y))
    }
}

} // verus!
