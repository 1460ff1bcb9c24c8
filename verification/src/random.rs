//! The random choices of a generation run, drawn from a seeded generator.

use rand::rngs::StdRng;
use rand::seq::SliceRandom;
use rand::{Rng, SeedableRng};
use vstd::prelude::*;

verus! {

/// `rand::rngs::StdRng`: the generator of a run. Nothing is claimed of its state.
#[verifier::external_type_specification]
#[verifier::external_body]
pub struct ExStdRng(StdRng);

/// `after` holds the items of `before` in the order that `order` gives: its
/// item `i` is item `order[i]` of `before`, and `order` names every index once.
pub open spec fn rearranged<T>(before: Seq<T>, after: Seq<T>, order: Seq<int>) -> bool {
    &&& after.len() == before.len()
    &&& order.len() == before.len()
    &&& order.no_duplicates()
    &&& forall|i: int| 0 <= i < order.len() ==> 0 <= #[trigger] order[i] < before.len()
    &&& forall|i: int| 0 <= i < after.len() ==> #[trigger] after[i] == before[order[i]]
}

/// `after` holds the items of `before` in the order that `order` gives, and
/// `back` tells where each item of `before` went: to index `back[j]` went item `j`.
pub open spec fn permuted<T>(before: Seq<T>, after: Seq<T>, order: Seq<int>, back: Seq<int>) -> bool {
    &&& rearranged(before, after, order)
    &&& back.len() == before.len()
    &&& forall|j: int|
        0 <= j < back.len() ==> 0 <= #[trigger] back[j] < before.len() && order[back[j]] == j
}

/// A rearrangement in which two items change places is a rearrangement.
pub proof fn lemma_rearranged_swap<T>(before: Seq<T>, after: Seq<T>, order: Seq<int>, i: int, j: int)
    requires
        rearranged(before, after, order),
        0 <= i < after.len(),
        0 <= j < after.len(),
    ensures
        rearranged(
            before,
            after.update(i, after[j]).update(j, after[i]),
            order.update(i, order[j]).update(j, order[i]),
        ),
{
    let swapped = order.update(i, order[j]).update(j, order[i]);
    assert forall|a: int, b: int| 0 <= a < swapped.len() && 0 <= b < swapped.len() && a
        != b implies swapped[a] != swapped[b] by {
        let a_was = if a == i {
            j
        } else if a == j {
            i
        } else {
            a
        };
        let b_was = if b == i {
            j
        } else if b == j {
            i
        } else {
            b
        };
        assert(swapped[a] == order[a_was]);
        assert(swapped[b] == order[b_was]);
    }
}

/// A list is a rearrangement of itself, every item staying where it is.
pub proof fn lemma_permuted_same<T>(s: Seq<T>)
    ensures
        permuted(s, s, Seq::new(s.len(), |i: int| i), Seq::new(s.len(), |i: int| i)),
{
}

/// A rearrangement in which the items at `i` and `j` change places is a
/// rearrangement, and the items that changed places are found where they went.
pub proof fn lemma_permuted_swap<T>(
    before: Seq<T>,
    after: Seq<T>,
    order: Seq<int>,
    back: Seq<int>,
    i: int,
    j: int,
)
    requires
        permuted(before, after, order, back),
        0 <= i < after.len(),
        0 <= j < after.len(),
    ensures
        permuted(
            before,
            after.update(i, after[j]).update(j, after[i]),
            order.update(i, order[j]).update(j, order[i]),
            back.update(order[i], j).update(order[j], i),
        ),
{
    lemma_rearranged_swap(before, after, order, i, j);
    let order2 = order.update(i, order[j]).update(j, order[i]);
    let back2 = back.update(order[i], j).update(order[j], i);
    assert forall|k: int| 0 <= k < back2.len() implies 0 <= #[trigger] back2[k] < before.len()
        && order2[back2[k]] == k by {
        if k == order[j] {
        } else if k == order[i] {
        } else {
            assert(order[back[k]] == k);
            assert(back[k] != i && back[k] != j);
        }
    }
}

/// `SeedableRng::seed_from_u64` for `StdRng`: a generator started from `seed`.
/// Nothing is claimed of what it will draw.
#[verifier::external_body]
pub(crate) fn seeded(seed: u64) -> StdRng {
    StdRng::seed_from_u64(seed)
}

/// `Rng::gen_range` over the range from 0 up to, not including, `bound`: the
/// number drawn lies in that range. An empty range is left out, on which the
/// call panics.
#[verifier::external_body]
pub(crate) fn roll_below(rng: &mut StdRng, bound: usize) -> (roll: usize)
    requires
        bound > 0,
    ensures
        roll < bound,
{
    rng.gen_range(0..bound)
}

/// `SliceRandom::choose`: nothing is chosen from an empty list; from any other,
/// one of its items.
#[verifier::external_body]
pub(crate) fn choose_one<T: Copy>(items: &Vec<T>, rng: &mut StdRng) -> (out: Option<T>)
    ensures
        items@.len() == 0 ==> out is None,
        items@.len() > 0 ==> out is Some && items@.contains(out->0),
{
    items.choose(rng).copied()
}

/// `SliceRandom::shuffle`: the list holds the same items afterwards, each once,
/// in some order.
#[verifier::external_body]
pub(crate) fn shuffle<T>(items: &mut Vec<T>, rng: &mut StdRng)
    ensures
        exists|order: Seq<int>, back: Seq<int>| #[trigger]
            permuted(old(items)@, final(items)@, order, back),
{
    items.shuffle(rng);
}

} // verus!
