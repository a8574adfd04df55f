//! The seedable pseudo-random source that drives operator generation.
//!
//! Randomness comes from the `rand` crate's `SmallRng`, seeded explicitly
//! so that generation-by-generation output is reproducible.  Nothing is
//! promised of the drawn values: every caller must be correct for every
//! outcome.

use vstd::prelude::*;

verus! {

#[verifier::external_type_specification]
#[verifier::external_body]
pub struct ExSmallRng(rand::rngs::SmallRng);

/// Relies on rand's `SmallRng::seed_from_u64`: builds a deterministic
/// generator from an integer seed; it never fails.
#[verifier::external_body]
pub(crate) fn rng_from_seed(seed: u64) -> rand::rngs::SmallRng {
    <rand::rngs::SmallRng as rand::SeedableRng>::seed_from_u64(seed)
}

/// Relies on rand's `RngCore::next_u32` for `SmallRng`: draws the next 32
/// random bits; nothing can be promised of the value.
#[verifier::external_body]
pub(crate) fn rng_next_u32(rng: &mut rand::rngs::SmallRng) -> u32 {
    rand::RngCore::next_u32(rng)
}

/// Relies on rand's `RngCore::next_u64` for `SmallRng`: draws the next 64
/// random bits; nothing can be promised of the value.
#[verifier::external_body]
pub(crate) fn rng_next_u64(rng: &mut rand::rngs::SmallRng) -> u64 {
    rand::RngCore::next_u64(rng)
}

} // verus!
