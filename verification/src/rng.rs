use rand::rngs::{StdRng, ThreadRng};
use rand::seq::SliceRandom;
use rand::{Rng, SeedableRng};
use vstd::prelude::*;

use crate::types::Pos;

verus! {

#[verifier::external_type_specification]
#[verifier::external_body]
pub struct ExThreadRng(ThreadRng);

#[verifier::external_type_specification]
#[verifier::external_body]
pub struct ExStdRng(StdRng);

/// Calls `Rng::random_range(0..n)` of rand on the generator of the thread.
/// Claimed: for `n > 0` (an empty range panics) it returns some index below
/// `n`; which one is chance.
#[verifier::external_body]
pub(crate) fn random_index(rng: &mut ThreadRng, n: usize) -> (r: usize)
    requires
        n > 0,
    ensures
        r < n,
{
    rng.random_range(0..n)
}

/// Calls `SeedableRng::seed_from_u64` of rand for `StdRng`. Nothing is
/// claimed of the generator.
#[verifier::external_body]
pub(crate) fn seeded_rng(seed: u64) -> StdRng {
    StdRng::seed_from_u64(seed)
}

/// Calls `Rng::random_range(low..=high)` of rand. Claimed: for `low <= high`
/// (an empty range panics) it returns a number between `low` and `high`,
/// both included.
#[verifier::external_body]
pub(crate) fn random_between(rng: &mut StdRng, low: u32, high: u32) -> (r: u32)
    requires
        low <= high,
    ensures
        low <= r <= high,
{
    rng.random_range(low..=high)
}

/// Calls `SliceRandom::shuffle` of rand on the positions. Claimed: the
/// positions afterwards are those before, each as often, in some order.
#[verifier::external_body]
pub(crate) fn shuffle_positions(v: &mut Vec<Pos>, rng: &mut StdRng)
    ensures
        final(v)@.to_multiset() == old(v)@.to_multiset(),
{
    v.shuffle(rng);
}

} // verus!
