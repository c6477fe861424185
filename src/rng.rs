//! The random source: rand's seedable cryptographic generator, and the two draws made from it.
use vstd::prelude::*;
use rand::distributions::{Distribution, Uniform};
use rand::rngs::StdRng;
use rand::Rng;
use crate::large_uint::LIMBS;

verus! {

/// rand's standard generator, a cryptographically secure RNG that callers seed.
#[verifier::external_type_specification]
#[verifier::external_body]
pub struct ExStdRng(StdRng);

/// Relies on rand's `Rng::fill` for `[u64; N]`: eight fresh 64-bit draws. `fill` panics
/// only when the generator reports an error, which `StdRng` (a ChaCha block generator)
/// never does. Nothing is known of the values drawn.
#[verifier::external_body]
pub(crate) fn fill_limbs(rng: &mut StdRng) -> (r: [u64; LIMBS]) {
    let mut limbs = [0u64; LIMBS];
    rng.fill(&mut limbs);
    limbs
}

/// Relies on rand's `Uniform::new_inclusive` and `Distribution::sample`: a draw from
/// the closed range [low, high], which `new_inclusive` rejects when empty.
#[verifier::external_body]
pub(crate) fn sample_inclusive(rng: &mut StdRng, low: i8, high: i8) -> (r: i8)
    requires
        low <= high,
    ensures
        low <= r <= high,
{
    Uniform::new_inclusive(low, high).sample(rng)
}

} // verus!
