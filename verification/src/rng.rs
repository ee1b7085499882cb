//! The engine's only boundary to the random number generator.
//!
//! The engine never chooses a randomness source itself: the caller seeds a
//! generator and the search merely draws bounded samples from it. Nothing
//! is assumed about the values drawn beyond their range, so everything
//! proved of the generator holds for every possible sequence of samples.

use vstd::prelude::*;

verus! {

#[verifier::external_type_specification]
#[verifier::external_body]
pub struct ExStdRng(rand::rngs::StdRng);

/// Relies on rand's `SeedableRng::from_seed` for `StdRng`: builds a
/// generator from a 32-byte seed. Nothing is assumed of the state built.
#[verifier::external_body]
pub fn rng_from_seed(seed: [u8; 32]) -> rand::rngs::StdRng {
    <rand::rngs::StdRng as rand::SeedableRng>::from_seed(seed)
}

/// Relies on rand's `Rng::gen_range`: a sample from `0..n`, which panics
/// only on an empty range, so `n` must be positive; every sample lies
/// below `n`.
#[verifier::external_body]
pub fn rng_below(rng: &mut rand::rngs::StdRng, n: u8) -> (r: u8)
    requires
        n >= 1,
    ensures
        r < n,
{
    rand::Rng::gen_range(rng, 0..n)
}

} // verus!
