//! The random draws that the game makes, through the `rand` crate.
use rand::seq::IndexedRandom;
use rand::Rng;
use crate::markov::{count_sum, Continuation};
use vstd::prelude::*;

verus! {

/// `rand::rngs::ThreadRng`, the thread-local generator of `rand`.
#[verifier::external_type_specification]
#[verifier::external_body]
pub struct ExThreadRng(rand::rngs::ThreadRng);

/// `rand::rng()`: the generator of the current thread. Nothing is claimed of
/// it.
#[verifier::external_body]
pub(crate) fn thread_rng() -> rand::rngs::ThreadRng {
    rand::rng()
}

/// `Rng::random_range(0..n)`: a number below `n`. The crate panics on an
/// empty range, hence `n > 0`; which number comes back is left to chance.
#[verifier::external_body]
pub(crate) fn random_below(rng: &mut rand::rngs::ThreadRng, n: usize) -> (r: usize)
    requires
        n > 0,
    ensures
        r < n,
{
    rng.random_range(0..n)
}

/// `IndexedRandom::choose_weighted` with each item weighted by its count: one
/// of `items`. The crate fails only on an empty slice, on weights that sum to
/// zero and on a sum that overflows, so it succeeds when every count is
/// positive and their sum fits in `usize`. Which item comes back is left to
/// chance.
#[verifier::external_body]
pub(crate) fn choose_weighted<'a>(rng: &mut rand::rngs::ThreadRng, items: &'a Vec<Continuation>) -> (r:
    Option<&'a Continuation>)
    ensures
        r matches Some(c) ==> items@.contains(*c),
        items@.len() > 0 && (forall|i: int| 0 <= i < items@.len() ==> items@[i].count > 0)
            && count_sum(items@) <= usize::MAX ==> r is Some,
{
    items.choose_weighted(rng, |c| c.count).ok()
}

/// `IndexedRandom::choose` on a slice of ids: one of `items`, or none when
/// there are none. Which one comes back is left to chance.
#[verifier::external_body]
pub(crate) fn choose_one(rng: &mut rand::rngs::ThreadRng, items: &Vec<u64>) -> (r: Option<u64>)
    ensures
        r is None <==> items@.len() == 0,
        r matches Some(x) ==> items@.contains(x),
{
    items.choose(rng).copied()
}

} // verus!
