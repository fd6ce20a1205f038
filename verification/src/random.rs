//! The random source, and the draws the searches make from it.
use rand::distr::{Bernoulli, Distribution};
use rand::rngs::StdRng;
use rand::seq::SliceRandom;
use rand::Rng;
use vstd::prelude::*;

verus! {

/// `rand::rngs::StdRng`, carried through the searches as an opaque value.
#[verifier::external_type_specification]
#[verifier::external_body]
pub struct ExStdRng(rand::rngs::StdRng);

/// `rand::distr::Bernoulli`: the odds of a yes, in the form in which the random
/// source takes them. Carried as an opaque value as well.
#[verifier::external_type_specification]
#[verifier::external_body]
pub struct ExBernoulli(rand::distr::Bernoulli);

/// Calls `Distribution::sample` of `Bernoulli`, which answers yes with the
/// odds that the distribution was made with. Nothing is claimed of the answer.
#[verifier::external_body]
pub(crate) fn draw(rng: &mut StdRng, odds: &Bernoulli) -> (yes: bool) {
    odds.sample(rng)
}

/// Calls `Rng::random_range` on `0..bound`. The range must not be empty, since
/// `random_range` panics on an empty range; the value it returns lies in the
/// range.
#[verifier::external_body]
pub(crate) fn uniform_below(rng: &mut StdRng, bound: usize) -> (value: usize)
    requires
        bound > 0,
    ensures
        value < bound,
{
    rng.random_range(0..bound)
}

/// Calls `SliceRandom::shuffle`, which only ever swaps elements of the slice:
/// the items afterwards are the items before, in some order.
#[verifier::external_body]
pub(crate) fn shuffle<T>(items: &mut Vec<T>, rng: &mut StdRng)
    ensures
        final(items)@.to_multiset() == old(items)@.to_multiset(),
{
    items.shuffle(rng)
}

/// Draws from `0..bound` until the value differs from `current`.
///
/// How many draws that takes is up to the random source, so the loop carries a
/// budget that makes it finite. No run can use it up; if one did, a fixed
/// other value would be returned.
pub(crate) fn draw_other(rng: &mut StdRng, bound: usize, current: usize) -> (value: usize)
    requires
        bound >= 2,
    ensures
        value < bound,
        value != current,
{
    let mut value: usize = uniform_below(rng, bound);
    let mut budget: u64 = u64::MAX;
    while value == current && budget > 0
        invariant
            bound >= 2,
            value < bound,
        decreases budget,
    {
        value = uniform_below(rng, bound);
        budget -= 1;
    }
    if value != current {
        value
    } else if current == 0 {
        1
    } else {
        0
    }
}

/// What a shuffle keeps: the length, which items occur, and that none occurs
/// twice.
pub proof fn lemma_rearranged<T>(before: Seq<T>, after: Seq<T>)
    requires
        after.to_multiset() == before.to_multiset(),
    ensures
        after.len() == before.len(),
        forall|x: T| after.contains(x) <==> before.contains(x),
        before.no_duplicates() ==> after.no_duplicates(),
{
    vstd::seq_lib::to_multiset_len(before);
    vstd::seq_lib::to_multiset_len(after);
    if before.no_duplicates() {
        before.lemma_multiset_has_no_duplicates();
        after.lemma_multiset_has_no_duplicates_conv();
    }
    assert forall|x: T| after.contains(x) <==> before.contains(x) by {
        vstd::seq_lib::to_multiset_contains(after, x);
        vstd::seq_lib::to_multiset_contains(before, x);
    }
}

} // verus!
