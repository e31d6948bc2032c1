//! The random source.  Every random decision of the solver is drawn from
//! one generator that the caller hands in, so that a seeded generator makes
//! a whole run repeatable.  Nothing is proved of the generator itself: the
//! two functions below state what is taken on trust from the `rand` crate.

use rand::rngs::StdRng;
use rand::seq::SliceRandom;
use rand::Rng;
use vstd::prelude::*;
use crate::tile::Variant;

verus! {

/// `rand::rngs::StdRng`, the generator that the solver draws from.  Its
/// state is opaque here.
#[verifier::external_type_specification]
#[verifier::external_body]
pub struct ExStdRng(rand::rngs::StdRng);

/// Calls `rand::Rng::random_range` on the range `0..bound`.  Trusted: for a
/// non-empty range the call returns a member of the range.  Which member
/// depends on the state of the generator, so nothing more is claimed.  The
/// call panics on an empty range, which `requires` rules out.
#[verifier::external_body]
pub(crate) fn random_below(rng: &mut StdRng, bound: usize) -> (k: usize)
    requires
        bound > 0,
    ensures
        k < bound,
{
    rng.random_range(0..bound)
}

/// Calls `rand::seq::SliceRandom::shuffle` on the list.  Trusted: the call
/// only swaps elements of the slice, so the list afterwards holds the same
/// tiles, each as often as before.  Their order depends on the state of the
/// generator, so nothing is claimed of it.
#[verifier::external_body]
pub(crate) fn shuffle_variants(list: &mut Vec<Variant>, rng: &mut StdRng)
    ensures
        final(list)@.to_multiset() == old(list)@.to_multiset(),
{
    list.shuffle(rng);
}

} // verus!
