//! Random selection, through the `rand` crate.
//!
//! Nothing is assumed about which value a generator produces — only that a
//! draw from a range lands inside it; every selection built on these
//! wrappers is verified for every value the generator could return.

use rand::RngExt;
use vstd::prelude::*;

verus! {

#[verifier::external_type_specification]
#[verifier::external_body]
pub struct ExStdRng(rand::rngs::StdRng);

/// Relies on rand's `StdRng::seed_from_u64`: builds a generator from a
/// fixed seed.
#[verifier::external_body]
pub(crate) fn rng_from_seed(seed: u64) -> rand::rngs::StdRng {
    <rand::rngs::StdRng as rand::SeedableRng>::seed_from_u64(seed)
}

/// Relies on rand's `StdRng::from_rng` over the thread generator: builds a
/// generator from process entropy.  rand documents that the thread
/// generator aborts if the operating system's entropy source fails at its
/// first per-thread use; that is environmental, beyond any precondition.
#[verifier::external_body]
pub(crate) fn rng_from_entropy() -> rand::rngs::StdRng {
    <rand::rngs::StdRng as rand::SeedableRng>::from_rng(&mut rand::rng())
}

/// Relies on rand's `RngExt::random_range`: a draw from `0..n` is strictly
/// below `n`; the empty range, which would panic, is excluded.
#[verifier::external_body]
pub(crate) fn rng_below(rng: &mut rand::rngs::StdRng, n: usize) -> (r: usize)
    requires
        n >= 1,
    ensures
        r < n,
{
    rng.random_range(0..n)
}

/// A generator from the given seed, or from process entropy when no seed is
/// given.
pub(crate) fn seeded_rng(seed: Option<u64>) -> rand::rngs::StdRng {
    match seed {
        Some(value) => rng_from_seed(value),
        None => rng_from_entropy(),
    }
}

} // verus!
