use vstd::prelude::*;

use rand::seq::SliceRandom;
use rand::Rng;

verus! {

/// Relies on rand's `Rng::random_range` over the thread-local generator: an
/// index below `n`, drawn uniformly. The range `0..n` is not empty, so the
/// call does not panic.
#[verifier::external_body]
pub(crate) fn random_below(n: usize) -> (k: usize)
    requires
        n > 0,
    ensures
        k < n,
{
    rand::rng().random_range(0..n)
}

/// Relies on rand's `SliceRandom::shuffle` over the thread-local generator:
/// the same elements, put in a uniformly drawn order.
#[verifier::external_body]
pub(crate) fn shuffle_in_place(items: &mut Vec<u32>)
    ensures
        final(items)@.to_multiset() == old(items)@.to_multiset(),
{
    items.shuffle(&mut rand::rng());
}

} // verus!
