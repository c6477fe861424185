//! The fixed parameters of CSIDH-512.
use vstd::prelude::*;
use vstd::arithmetic::div_mod::lemma_fundamental_div_mod_converse;
use crate::limbs::{lemma_limb_bases, lemma_limbs8, limb_base, limbs_val, word};

verus! {

/// Bits in the modulus.
pub const PBITS: u64 = 511;

/// The number of small primes whose product (times four) is p + 1.
pub const NUM_PRIMES: usize = 74;

/// The draws that rejection sampling makes before it gives up.
pub const MAX_DRAWS: u64 = 256;

/// The rounds of sampling that the class-group action makes before it gives up.
pub const MAX_ROUNDS: u64 = 100_000;

/// -p^-1 mod 2^64.
pub const INV_MIN_P_MOD_R: u64 = 0x66c1301f632e294d;

/// The limbs of p.
pub const P_LIMBS: [u64; 8] = [
    0x1b81b90533c6c87b, 0xc2721bf457aca835, 0x516730cc1f0b4f25, 0xa7aac6c567f35507,
    0x5afbfcc69322c9cd, 0xb42d083aedc88c42, 0xfc8ab0d15e3e4c4a, 0x65b48e8f740f89bf,
];

/// R^2 mod p, with R = 2^512.
pub const R_SQUARED_MOD_P: [u64; 8] = [
    0x36905b572ffc1724, 0x67086f4525f1f27d, 0x4faf3fbfd22370ca, 0x192ea214bcc584b1,
    0x5dae03ee2f5de3d0, 0x1e9248731776b371, 0xad5f166e20e4f52d, 0x4ed759aea6f3917e,
];

/// R mod p: the Montgomery form of one.
pub const GAL_1: [u64; 8] = [
    0xc8fc8df598726f0a, 0x7b1bc81750a6af95, 0x5d319e67c1e961b4, 0xb0aa7275301955f1,
    0x4a080672d9ba6c64, 0x97a5ef8a246ee77b, 0x06ea9e5d4383676a, 0x3496e2e117e0ec80,
];

/// p - 2, the exponent that inverts.
pub const P_MINUS_2: [u64; 8] = [
    0x1b81b90533c6c879, 0xc2721bf457aca835, 0x516730cc1f0b4f25, 0xa7aac6c567f35507,
    0x5afbfcc69322c9cd, 0xb42d083aedc88c42, 0xfc8ab0d15e3e4c4a, 0x65b48e8f740f89bf,
];

/// (p - 1) / 2, the exponent of Euler's criterion.
pub const P_MINUS_1_HALVES: [u64; 8] = [
    0x8dc0dc8299e3643d, 0xe1390dfa2bd6541a, 0xa8b398660f85a792, 0xd3d56362b3f9aa83,
    0x2d7dfe63499164e6, 0x5a16841d76e44621, 0xfe455868af1f2625, 0x32da4747ba07c4df,
];

/// The small odd primes l_i with p + 1 = 4 * l_0 * ... * l_73, ascending.
pub const PRIMES: [u64; 74] = [
    3, 5, 7, 11, 13, 17, 19, 23, 29, 31, 37, 41, 43, 47, 53, 59, 61, 67, 71, 73, 79, 83, 89, 97,
    101, 103, 107, 109, 113, 127, 131, 137, 139, 149, 151, 157, 163, 167, 173, 179, 181, 191, 193,
    197, 199, 211, 223, 227, 229, 233, 239, 241, 251, 257, 263, 269, 271, 277, 281, 283, 293, 307,
    311, 313, 317, 331, 337, 347, 349, 353, 359, 367, 373, 587,
];

/// The modulus p = 4 * 3 * 5 * ... * 373 * 587 - 1.
pub open spec fn prime() -> nat {
    (4 * 3 * 5 * 7 * 11 * 13 * 17 * 19 * 23 * 29 * 31 * 37 * 41 * 43 * 47 * 53 * 59 * 61 * 67 * 71 * 73
        * 79 * 83 * 89 * 97 * 101 * 103 * 107 * 109 * 113 * 127 * 131 * 137 * 139 * 149 * 151 * 157
        * 163 * 167 * 173 * 179 * 181 * 191 * 193 * 197 * 199 * 211 * 223 * 227 * 229 * 233 * 239
        * 241 * 251 * 257 * 263 * 269 * 271 * 277 * 281 * 283 * 293 * 307 * 311 * 313 * 317 * 331
        * 337 * 347 * 349 * 353 * 359 * 367 * 373 * 587 - 1) as nat
}

/// The Montgomery radix R = 2^512.
pub open spec fn mont_r() -> nat {
    limb_base(8)
}

/// R^-1 mod p.
pub open spec fn r_inv() -> nat {
    limbs_val(
        seq![
            0xac6d21fef115a97bu64, 0x940adf0991be51cc, 0x2d1388200c6f7369, 0x4f2214202afd21a5,
            0x25b7e18bd3454741, 0x334d370e662fdd64, 0x4dc44966712bfd9b, 0x561e0a2506e7cb93,
        ],
    )
}

/// The table of R^2 mod p holds R^2 mod p.
proof fn lemma_r_squared()
    ensures
        (mont_r() * mont_r()) % prime() == limbs_val(R_SQUARED_MOD_P@),
{
    lemma_limb_bases();
    lemma_limbs8(R_SQUARED_MOD_P@);
    let w: int = word() as int;
    assert(mont_r() * mont_r() == (0x87471983e2ffb9d4 + 0xabb862a1eabde765 * w + 0x48b72f84899eca3b * w * w + 0xdb7e0542b77624de * w * w * w + 0xafaeb264ca1bb35a * w * w * w * w + 0xba24269dff081925 * w * w * w * w * w + 0x5d6cec71e0fac030 * w * w * w * w * w * w + 0x845f1c9d401fac7f * w * w * w * w * w * w * w + 0x2 * w * w * w * w * w * w * w * w) * prime() + limbs_val(R_SQUARED_MOD_P@)) by (nonlinear_arith)
        requires
            w == 0x1_0000_0000_0000_0000,
            mont_r() == 0x1 * w * w * w * w * w * w * w * w,
            mont_r() == 0x1 * w * w * w * w * w * w * w * w,
            prime() == 0x1b81b90533c6c87b + 0xc2721bf457aca835 * w + 0x516730cc1f0b4f25 * w * w + 0xa7aac6c567f35507 * w * w * w + 0x5afbfcc69322c9cd * w * w * w * w + 0xb42d083aedc88c42 * w * w * w * w * w + 0xfc8ab0d15e3e4c4a * w * w * w * w * w * w + 0x65b48e8f740f89bf * w * w * w * w * w * w * w,
            limbs_val(R_SQUARED_MOD_P@) == 0x36905b572ffc1724 + 0x67086f4525f1f27d * w + 0x4faf3fbfd22370ca * w * w + 0x192ea214bcc584b1 * w * w * w + 0x5dae03ee2f5de3d0 * w * w * w * w + 0x1e9248731776b371 * w * w * w * w * w + 0xad5f166e20e4f52d * w * w * w * w * w * w + 0x4ed759aea6f3917e * w * w * w * w * w * w * w,
    ;
    lemma_fundamental_div_mod_converse(
        (mont_r() * mont_r()) as int,
        prime() as int,
        0x87471983e2ffb9d4 + 0xabb862a1eabde765 * w + 0x48b72f84899eca3b * w * w + 0xdb7e0542b77624de * w * w * w + 0xafaeb264ca1bb35a * w * w * w * w + 0xba24269dff081925 * w * w * w * w * w + 0x5d6cec71e0fac030 * w * w * w * w * w * w + 0x845f1c9d401fac7f * w * w * w * w * w * w * w + 0x2 * w * w * w * w * w * w * w * w,
        limbs_val(R_SQUARED_MOD_P@) as int,
    );
}

/// The table of R mod p holds R mod p.
proof fn lemma_one()
    ensures
        (mont_r() * 1) % prime() == limbs_val(GAL_1@),
{
    lemma_limb_bases();
    lemma_limbs8(GAL_1@);
    let w: int = word() as int;
    assert(mont_r() * 1 == (0x2) * prime() + limbs_val(GAL_1@)) by (nonlinear_arith)
        requires
            w == 0x1_0000_0000_0000_0000,
            mont_r() == 0x1 * w * w * w * w * w * w * w * w,
            1 == 0x1,
            prime() == 0x1b81b90533c6c87b + 0xc2721bf457aca835 * w + 0x516730cc1f0b4f25 * w * w + 0xa7aac6c567f35507 * w * w * w + 0x5afbfcc69322c9cd * w * w * w * w + 0xb42d083aedc88c42 * w * w * w * w * w + 0xfc8ab0d15e3e4c4a * w * w * w * w * w * w + 0x65b48e8f740f89bf * w * w * w * w * w * w * w,
            limbs_val(GAL_1@) == 0xc8fc8df598726f0a + 0x7b1bc81750a6af95 * w + 0x5d319e67c1e961b4 * w * w + 0xb0aa7275301955f1 * w * w * w + 0x4a080672d9ba6c64 * w * w * w * w + 0x97a5ef8a246ee77b * w * w * w * w * w + 0x6ea9e5d4383676a * w * w * w * w * w * w + 0x3496e2e117e0ec80 * w * w * w * w * w * w * w,
    ;
    lemma_fundamental_div_mod_converse(
        (mont_r() * 1) as int,
        prime() as int,
        0x2,
        limbs_val(GAL_1@) as int,
    );
}

/// R times R^-1 is one modulo p.
proof fn lemma_r_inv()
    ensures
        (mont_r() * r_inv()) % prime() == 1,
{
    lemma_limb_bases();
    lemma_limbs8(
        seq![
            0xac6d21fef115a97bu64, 0x940adf0991be51cc, 0x2d1388200c6f7369, 0x4f2214202afd21a5,
            0x25b7e18bd3454741, 0x334d370e662fdd64, 0x4dc44966712bfd9b, 0x561e0a2506e7cb93,
        ],
    );
    let w: int = word() as int;
    assert(mont_r() * r_inv() == (0x66c1301f632e294d + 0xfe025ed7d0d3b1aa * w + 0xf6fe2bc33e915395 * w * w + 0x34ed3ea7f1de34c4 * w * w * w + 0xb081b3aba7d05f85 * w * w * w * w + 0x1232b9eb013dee1e * w * w * w * w * w + 0x3512da337a97b345 * w * w * w * w * w * w + 0xd8c3904b18371bcd * w * w * w * w * w * w * w) * prime() + 1) by (nonlinear_arith)
        requires
            w == 0x1_0000_0000_0000_0000,
            mont_r() == 0x1 * w * w * w * w * w * w * w * w,
            r_inv() == 0xac6d21fef115a97b + 0x940adf0991be51cc * w + 0x2d1388200c6f7369 * w * w + 0x4f2214202afd21a5 * w * w * w + 0x25b7e18bd3454741 * w * w * w * w + 0x334d370e662fdd64 * w * w * w * w * w + 0x4dc44966712bfd9b * w * w * w * w * w * w + 0x561e0a2506e7cb93 * w * w * w * w * w * w * w,
            prime() == 0x1b81b90533c6c87b + 0xc2721bf457aca835 * w + 0x516730cc1f0b4f25 * w * w + 0xa7aac6c567f35507 * w * w * w + 0x5afbfcc69322c9cd * w * w * w * w + 0xb42d083aedc88c42 * w * w * w * w * w + 0xfc8ab0d15e3e4c4a * w * w * w * w * w * w + 0x65b48e8f740f89bf * w * w * w * w * w * w * w,
            1 == 0x1,
    ;
    lemma_fundamental_div_mod_converse(
        (mont_r() * r_inv()) as int,
        prime() as int,
        0x66c1301f632e294d + 0xfe025ed7d0d3b1aa * w + 0xf6fe2bc33e915395 * w * w + 0x34ed3ea7f1de34c4 * w * w * w + 0xb081b3aba7d05f85 * w * w * w * w + 0x1232b9eb013dee1e * w * w * w * w * w + 0x3512da337a97b345 * w * w * w * w * w * w + 0xd8c3904b18371bcd * w * w * w * w * w * w * w,
        1 as int,
    );
}

/// What the constant tables stand for.
pub proof fn lemma_consts()
    ensures
        limbs_val(P_LIMBS@) == prime(),
        limbs_val(R_SQUARED_MOD_P@) == (mont_r() * mont_r()) % prime(),
        limbs_val(GAL_1@) == mont_r() % prime(),
        limbs_val(P_MINUS_2@) == prime() - 2,
        limbs_val(P_MINUS_1_HALVES@) == (prime() - 1) / 2,
        (mont_r() * r_inv()) % prime() == 1,
        r_inv() < prime(),
        2 * prime() < mont_r(),
        prime() > 4,
        (INV_MIN_P_MOD_R as nat * P_LIMBS[0] as nat) % word() == word() - 1,
{
    lemma_limb_bases();
    lemma_limbs8(P_LIMBS@);
    lemma_limbs8(P_MINUS_2@);
    lemma_limbs8(P_MINUS_1_HALVES@);
    lemma_limbs8(
        seq![
            0xac6d21fef115a97bu64, 0x940adf0991be51cc, 0x2d1388200c6f7369, 0x4f2214202afd21a5,
            0x25b7e18bd3454741, 0x334d370e662fdd64, 0x4dc44966712bfd9b, 0x561e0a2506e7cb93,
        ],
    );
    lemma_r_squared();
    lemma_one();
    lemma_r_inv();
}

} // verus!
