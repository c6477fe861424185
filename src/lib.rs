//! CSIDH-512 key agreement, verified with Verus.
//!
//! - [`limbs`]: the numeric model of little-endian 64-bit limb sequences.
//! - [`consts`]: the prime p, the Montgomery constants and the 74 small primes.
//! - [`large_uint`]: 512-bit unsigned integers with wrapping arithmetic.
//! - [`galois`]: the field F_p in Montgomery form.
//! - [`montgomery`]: x-only arithmetic on Montgomery curves and odd-degree isogenies.
//! - [`csidh`]: the class-group action and the key pair.
//! - [`rng`]: the random source.
//!
//! Not constant-time: the ladder and the action branch on secret data.
pub mod limbs;
pub mod consts;
pub mod large_uint;
pub mod rng;
pub mod galois;
pub mod montgomery;
pub mod csidh;
