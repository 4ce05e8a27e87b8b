//! The optimiser's only source of randomness: thin trusted wrappers around
//! the `rand` crate. Every stochastic step of the algorithm draws through
//! one of these, and each contract states only what holds of every draw.

use vstd::prelude::*;

use rand::seq::SliceRandom;
use rand::Rng;

verus! {

/// Relies on rand's `SliceRandom::shuffle`: a Fisher-Yates pass permutes
/// the slice in place by swaps, so afterwards it holds exactly the old
/// elements, in some order.
#[verifier::external_body]
pub(crate) fn shuffle_in_place<T>(v: &mut Vec<T>)
    ensures
        final(v)@.to_multiset() == old(v)@.to_multiset(),
        final(v)@.len() == old(v)@.len(),
{
    v.shuffle(&mut rand::thread_rng());
}

/// Relies on rand's `Rng::gen_range`: a draw from the non-empty range
/// `lo..hi` lies in that range.
#[verifier::external_body]
pub(crate) fn random_in_range(lo: u64, hi: u64) -> (r: u64)
    requires
        lo < hi,
    ensures
        lo <= r < hi,
{
    rand::thread_rng().gen_range(lo..hi)
}

/// Relies on rand's `Rng::gen_range`: a draw from the inclusive range
/// `0..=bound` is at most `bound`.
#[verifier::external_body]
pub(crate) fn random_up_to(bound: u128) -> (r: u128)
    ensures
        r <= bound,
{
    rand::thread_rng().gen_range(0..=bound)
}

/// Relies on rand's `random` with the standard distribution on `bool`:
/// a fair coin flip; nothing is promised of the outcome.
#[verifier::external_body]
pub(crate) fn random_bool() -> bool {
    rand::random()
}

} // verus!
