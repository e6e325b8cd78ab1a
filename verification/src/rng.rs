//! The library's only window onto randomness: thin wrappers around the
//! `rand` crate. Each wrapper states no more than what holds of every
//! possible outcome, and every caller is verified for every such outcome.
//! Randomness is drawn from the process-wide thread-local generator, as
//! one implicit source threaded through the whole search.

use crate::perm::pop_view;
use rand::seq::SliceRandom;
use rand::RngExt;
use vstd::prelude::*;

verus! {

/// A uniformly random index below `n`.
///
/// Relies on `rand::rng` for the thread-local generator and on
/// `rand::RngExt::random_range` with the half-open range `0..n`, whose
/// result lies in that range; the range is non-empty, so the call cannot
/// panic.
#[verifier::external_body]
pub(crate) fn rand_below(n: usize) -> (r: usize)
    requires
        1 <= n,
    ensures
        r < n,
{
    rand::rng().random_range(0..n)
}

/// Shuffles a tour in place.
///
/// Relies on `rand::rng` for the thread-local generator and on
/// `rand::seq::SliceRandom::shuffle`, which permutes the slice in place:
/// the elements afterwards are exactly the elements before, reordered.
#[verifier::external_body]
pub(crate) fn shuffle_tour(v: &mut Vec<usize>)
    ensures
        final(v)@.to_multiset() == old(v)@.to_multiset(),
{
    let mut rng = rand::rng();
    v.shuffle(&mut rng);
}

/// Shuffles a population in place.
///
/// Relies on `rand::rng` for the thread-local generator and on
/// `rand::seq::SliceRandom::shuffle`, which permutes the slice in place:
/// the members afterwards are exactly the members before, reordered.
#[verifier::external_body]
pub(crate) fn shuffle_population(v: &mut Vec<Vec<usize>>)
    ensures
        pop_view(final(v)@).to_multiset() == pop_view(old(v)@).to_multiset(),
{
    let mut rng = rand::rng();
    v.shuffle(&mut rng);
}

} // verus!
