//! The prime field F_p in Montgomery form: an element x is stored as x * R mod p, R = 2^512.
use vstd::prelude::*;
use vstd::arithmetic::div_mod::{
    lemma_add_mod_noop, lemma_fundamental_div_mod, lemma_fundamental_div_mod_converse,
    lemma_mod_multiples_vanish, lemma_mul_mod_noop_left, lemma_mul_mod_noop_right, lemma_small_mod,
};
use crate::consts::{
    lemma_consts, mont_r, prime, r_inv, GAL_1, PBITS, MAX_DRAWS, INV_MIN_P_MOD_R, P_LIMBS, P_MINUS_1_HALVES, P_MINUS_2,
    R_SQUARED_MOD_P,
};
use vstd::arithmetic::power::{lemma_pow_adds, pow};
use vstd::arithmetic::power2::{lemma2_to64, lemma_pow2_adds, lemma_pow2_pos, pow2};
use crate::large_uint::{limbs_eq, LargeUint, LIMBS};
use crate::rng::fill_limbs;
use rand::rngs::StdRng;
use crate::limbs::{
    digits, lemma_digits, limbs_arr, lemma_limb_base_pos, lemma_limb_bases, lemma_limbs_bound, lemma_limbs_drop_first,
    lemma_limbs_empty_prefix, lemma_limbs_prefix, limb_base, limbs_val, word,
};

verus! {

/// Adds `x * y` into the nine-limb accumulator `t`.
fn mul_add_limb(t: &mut [u64; 9], x: u64, y: &[u64; LIMBS])
    requires
        limbs_val(old(t)@) + x * limbs_val(y@) < limb_base(9),
    ensures
        limbs_val(final(t)@) == limbs_val(old(t)@) + x * limbs_val(y@),
{
    let ghost a = t@;
    let ghost b = y@;
    proof {
        lemma_limbs_empty_prefix(a);
        lemma_limbs_empty_prefix(b);
    }
    let mut c: u64 = 0;
    let mut i: usize = 0;
    while i < LIMBS
        invariant
            i <= LIMBS,
            a.len() == 9,
            b == y@,
            b.len() == LIMBS,
            t@.len() == 9,
            forall|j: int| i <= j < 9 ==> t@[j] == a[j],
            limbs_val(t@.take(i as int)) + c * limb_base(i as nat) == limbs_val(a.take(i as int))
                + x * limbs_val(b.take(i as int)),
        decreases LIMBS - i,
    {
        let ghost prev = t@;
        let ghost c0 = c;
        assert(x as nat * y[i as int] as nat <= 0xffff_ffff_ffff_ffff * 0xffff_ffff_ffff_ffff)
            by (nonlinear_arith)
            requires
                x <= 0xffff_ffff_ffff_ffff,
                y[i as int] <= 0xffff_ffff_ffff_ffff,
        ;
        let w: u128 = t[i] as u128 + x as u128 * y[i] as u128 + c as u128;
        t[i] = (w % 0x1_0000_0000_0000_0000) as u64;
        c = (w / 0x1_0000_0000_0000_0000) as u64;
        proof {
            let lb = limb_base(i as nat);
            let pb = limbs_val(b.take(i as int));
            assert(t@.take(i as int) =~= prev.take(i as int));
            lemma_limbs_prefix(t@, i as int);
            lemma_limbs_prefix(a, i as int);
            lemma_limbs_prefix(b, i as int);
            lemma_fundamental_div_mod(w as int, word() as int);
            assert(limb_base((i + 1) as nat) == word() * lb);
            assert(t@[i as int] as nat * lb + c as nat * (word() * lb) == a[i as int] as nat * lb
                + x as nat * (b[i as int] as nat * lb) + c0 as nat * lb) by (nonlinear_arith)
                requires
                    w as nat == a[i as int] as nat + x as nat * b[i as int] as nat + c0 as nat,
                    w as nat == word() * c as nat + t@[i as int] as nat,
            ;
            assert(x as nat * (pb + b[i as int] as nat * lb) == x as nat * pb + x as nat * (
            b[i as int] as nat * lb)) by (nonlinear_arith);
        }
        i = i + 1;
    }
    proof {
        assert(b.take(8) =~= b);
        lemma_limbs_prefix(a, 8);
        lemma_limbs_bound(t@.take(8));
        assert(a.take(9) =~= a);
        let lb8 = limb_base(8);
        assert(limb_base(9) == word() * lb8);
        assert((c as nat + a[8] as nat) * lb8 == c as nat * lb8 + a[8] as nat * lb8)
            by (nonlinear_arith);
        assert((c as nat + a[8] as nat) < word()) by (nonlinear_arith)
            requires
                limbs_val(t@.take(8)) + (c as nat + a[8] as nat) * lb8 < word() * lb8,
                lb8 > 0,
        {
        }
        lemma_limb_base_pos(8);
    }
    let ghost prev = t@;
    t[8] = t[8] + c;
    proof {
        assert(t@.take(8) =~= prev.take(8));
        lemma_limbs_prefix(t@, 8);
        assert(t@.take(9) =~= t@);
        assert((c as nat + a[8] as nat) * limb_base(8) == c as nat * limb_base(8) + a[8] as nat
            * limb_base(8)) by (nonlinear_arith);
    }
}

/// Divides by 2^64 an accumulator whose lowest limb is zero.
fn shift_limb(t: &mut [u64; 9])
    requires
        old(t)[0] == 0,
    ensures
        limbs_val(final(t)@) * word() == limbs_val(old(t)@),
{
    let ghost a = t@;
    let mut i: usize = 0;
    while i < 8
        invariant
            i <= 8,
            a.len() == 9,
            t@.len() == 9,
            forall|j: int| 0 <= j < i ==> t@[j] == a[j + 1],
            forall|j: int| i <= j < 9 ==> t@[j] == a[j],
        decreases 8 - i,
    {
        t[i] = t[i + 1];
        i = i + 1;
    }
    t[8] = 0;
    proof {
        lemma_limbs_drop_first(a);
        assert(t@.drop_last() =~= a.drop_first());
        assert(t@.last() == 0);
        assert(limbs_val(t@) == limbs_val(a.drop_first()));
    }
}

/// Field addition on canonical representatives.
pub open spec fn fadd(a: nat, b: nat) -> nat {
    (a + b) % prime()
}

/// Field subtraction on canonical representatives.
pub open spec fn fsub(a: nat, b: nat) -> nat {
    ((a - b) % (prime() as int)) as nat
}

/// Field multiplication on canonical representatives.
pub open spec fn fmul(a: nat, b: nat) -> nat {
    (a * b) % prime()
}

/// The field element that the Montgomery representative `m` stands for: m * R^-1 mod p.
pub open spec fn from_mont(m: nat) -> nat {
    (m * r_inv()) % prime()
}

/// The limbs with the top limb cut to the 511 bits of p.
pub open spec fn masked_limbs(s: Seq<u64>) -> Seq<u64> {
    s.update(7, s[7] & 0x7fff_ffff_ffff_ffff)
}

/// A field element in Montgomery form. Well-formed values hold a representative below p.
#[derive(Debug, Clone, Copy)]
pub struct GaloisElement {
    pub elements: [u64; LIMBS],
}

impl GaloisElement {
    /// The stored representative, x * R mod p.
    pub open spec fn mont(self) -> nat {
        limbs_val(self.elements@)
    }

    /// The representative is reduced.
    pub open spec fn wf(self) -> bool {
        self.mont() < prime()
    }

    /// The field element, in [0, p) for every representative.
    pub open spec fn val(self) -> nat {
        from_mont(self.mont())
    }
}

/// One step of Montgomery reduction clears the low limb: with m = -p^-1 * t0 mod 2^64,
/// t0 + m * p0 is a multiple of 2^64.
proof fn lemma_mont_digit(t0: nat, m: nat, p0: nat, inv: nat)
    requires
        m == (inv * t0) % word(),
        (inv * p0) % word() == word() - 1,
    ensures
        (t0 + m * p0) % word() == 0,
{
    let w = word() as int;
    lemma_mul_mod_noop_left((inv * t0) as int, p0 as int, w);
    assert((inv * t0) * p0 == t0 * (inv * p0)) by (nonlinear_arith);
    lemma_mul_mod_noop_right(t0 as int, (inv * p0) as int, w);
    lemma_add_mod_noop(t0 as int, (m * p0) as int, w);
    lemma_add_mod_noop(t0 as int, (t0 * (inv * p0)) as int, w);
    lemma_add_mod_noop(t0 as int, (t0 * (w - 1)) as int, w);
    assert(t0 + t0 * (w - 1) == t0 * w) by (nonlinear_arith);
    vstd::arithmetic::div_mod::lemma_mod_multiples_basic(t0 as int, w);
}

/// Montgomery reduction: t * R == a * b + M * p implies t == a * b * R^-1 modulo p.
proof fn lemma_redc(t: nat, a: nat, b: nat, mm: nat)
    requires
        t * mont_r() == a * b + mm * prime(),
    ensures
        t % prime() == (a * b * r_inv()) % prime(),
{
    lemma_consts();
    let p = prime() as int;
    let ri = r_inv() as int;
    assert(a * b * ri == (t * mont_r()) * ri + (-(mm * ri)) * p) by (nonlinear_arith)
        requires
            t * mont_r() == a * b + mm * prime(),
            p == prime(),
    ;
    lemma_mod_multiples_vanish(-(mm * ri), (t * mont_r()) * ri, p);
    assert((t * mont_r()) * ri == t * (mont_r() * ri)) by (nonlinear_arith);
    lemma_mul_mod_noop_right(t as int, (mont_r() * ri) as int, p);
    assert((mont_r() * ri) % p == 1);
    assert(t * 1 == t);
    let tr = t as int * mont_r() as int;
    assert((a * b * ri) % p == (tr * ri) % p);
    assert((tr * ri) % p == (t as int * (mont_r() as int * ri)) % p);
    assert((t as int * (mont_r() as int * ri)) % p == (t as int * 1) % p);
}

/// The Montgomery product of (a * R) and (b * R) stands for a * b.
pub proof fn lemma_from_mont_mul(ma: nat, mb: nat)
    ensures
        from_mont((ma * mb * r_inv()) % prime()) == fmul(from_mont(ma), from_mont(mb)),
{
    lemma_consts();
    let p = prime() as int;
    let ri = r_inv();
    lemma_mul_mod_noop_left((ma * mb * ri) as int, ri as int, p);
    vstd::arithmetic::div_mod::lemma_mul_mod_noop((ma * ri) as int, (mb * ri) as int, p);
    assert(ma * mb * ri * ri == (ma * ri) * (mb * ri)) by (nonlinear_arith);
}

/// Representatives that agree modulo p stand for the same element.
pub proof fn lemma_from_mont_mod(m: nat)
    ensures
        from_mont(m % prime()) == from_mont(m),
{
    lemma_consts();
    lemma_mul_mod_noop_left(m as int, r_inv() as int, prime() as int);
}

/// Adding representatives adds the elements.
pub proof fn lemma_from_mont_add(ma: nat, mb: nat)
    ensures
        from_mont((ma + mb) % prime()) == fadd(from_mont(ma), from_mont(mb)),
{
    lemma_consts();
    let p = prime() as int;
    let ri = r_inv();
    lemma_from_mont_mod(ma + mb);
    assert((ma + mb) * ri == ma * ri + mb * ri) by (nonlinear_arith);
    lemma_add_mod_noop((ma * ri) as int, (mb * ri) as int, p);
}

/// Subtracting representatives subtracts the elements.
pub proof fn lemma_from_mont_sub(ma: nat, mb: nat, mc: nat)
    requires
        mc == ((ma - mb) % (prime() as int)) as nat,
    ensures
        from_mont(mc) == fsub(from_mont(ma), from_mont(mb)),
{
    lemma_consts();
    let p = prime() as int;
    let ri = r_inv() as int;
    let d = ma - mb;
    lemma_mul_mod_noop_left(d, ri, p);
    assert(d * ri == ma * ri - mb * ri) by (nonlinear_arith)
        requires
            d == ma - mb,
    ;
    vstd::arithmetic::div_mod::lemma_sub_mod_noop((ma * ri) as int, (mb * ri) as int, p);
}

/// The representative that stands for one.
pub proof fn lemma_from_mont_one()
    ensures
        from_mont(mont_r() % prime()) == 1,
{
    lemma_consts();
    lemma_from_mont_mod(mont_r());
    lemma_small_mod(1, prime());
}

/// Distinct reduced representatives stand for distinct elements.
pub proof fn lemma_from_mont_injective(m1: nat, m2: nat)
    requires
        m1 < prime(),
        m2 < prime(),
        from_mont(m1) == from_mont(m2),
    ensures
        m1 == m2,
{
    lemma_consts();
    let p = prime() as int;
    let r = mont_r() as int;
    let ri = r_inv() as int;
    lemma_mul_mod_noop_left(m1 * ri, r, p);
    lemma_mul_mod_noop_left(m2 * ri, r, p);
    assert((m1 * ri) % p * r == (m2 * ri) % p * r);
    assert((m1 * ri * r) % p == (m2 * ri * r) % p);
    assert(m1 * ri * r == m1 * (r * ri)) by (nonlinear_arith);
    assert(m2 * ri * r == m2 * (r * ri)) by (nonlinear_arith);
    lemma_mul_mod_noop_right(m1 as int, r * ri, p);
    lemma_mul_mod_noop_right(m2 as int, r * ri, p);
    assert(m1 * 1 == m1);
    lemma_small_mod(m1, prime());
    lemma_small_mod(m2, prime());
}

/// The elements are canonical: below p.
pub broadcast proof fn lemma_from_mont_bound(m: nat)
    ensures
        #[trigger] from_mont(m) < prime(),
{
    lemma_consts();
}

/// Field operations give canonical representatives.
pub broadcast proof fn lemma_field_ops_bound(a: nat, b: nat)
    ensures
        #[trigger] fadd(a, b) < prime(),
        #[trigger] fsub(a, b) < prime(),
        #[trigger] fmul(a, b) < prime(),
        #[trigger] fpow(a, b) < prime(),
{
    lemma_consts();
}

/// One round of Montgomery multiplication stays below 2^64 * 2p, inside the accumulator.
proof fn lemma_acc_room(t: nat, x: nat, y: nat, z: nat)
    requires
        t < 2 * prime(),
        x < word(),
        y <= prime(),
        z < word(),
    ensures
        t + x * y + z * prime() < word() * (2 * prime()),
        t + x * y + z * prime() < limb_base(9),
{
    lemma_consts();
    lemma_limb_bases();
    reveal_with_fuel(limb_base, 2);
    assert(t + x * y + z * prime() < word() * (2 * prime())) by (nonlinear_arith)
        requires
            t < 2 * prime(),
            x < word(),
            y <= prime(),
            z < word(),
    ;
    assert(word() * (2 * prime()) < word() * limb_base(8)) by (nonlinear_arith)
        requires
            2 * prime() < limb_base(8),
    ;
}

impl GaloisElement {
    /// Subtracts p once if the representative is not below it.
    fn reduce_once(&mut self)
        requires
            old(self).mont() < 2 * prime(),
        ensures
            final(self).mont() == old(self).mont() % prime(),
            final(self).wf(),
    {
        proof {
            lemma_consts();
        }
        let mut t = LargeUint { elements: self.elements };
        let borrow = t.sub_from(&LargeUint { elements: P_LIMBS });
        if !borrow {
            self.elements = t.elements;
            proof {
                lemma_fundamental_div_mod_converse(
                    limbs_val(old(self).elements@) as int,
                    prime() as int,
                    1,
                    t.value() as int,
                );
            }
        } else {
            proof {
                lemma_small_mod(self.mont(), prime());
            }
        }
    }

    /// Montgomery multiplication in place: the representative becomes
    /// self * other * R^-1 mod p, so the element becomes the product.
    pub fn mul_with(&mut self, other: &GaloisElement)
        requires
            other.wf(),
        ensures
            final(self).wf(),
            final(self).mont() == (old(self).mont() * other.mont() * r_inv()) % prime(),
            final(self).val() == fmul(old(self).val(), other.val()),
    {
        let ghost sa = self.elements@;
        let ghost b = other.mont();
        let mut t: [u64; 9] = [0; 9];
        let ghost mut mm: nat = 0;
        proof {
            lemma_consts();
            lemma_limb_bases();
            lemma_limbs_empty_prefix(sa);
            assert(t@ =~= seq![0u64, 0, 0, 0, 0, 0, 0, 0, 0]);
            crate::limbs::lemma_limbs_zero(t@);
            assert(limb_base(0) == 1);
        }
        let mut k: usize = 0;
        while k < LIMBS
            invariant
                k <= LIMBS,
                sa == self.elements@,
                sa.len() == LIMBS,
                b == other.mont(),
                b < prime(),
                limbs_val(t@) < 2 * prime(),
                limbs_val(t@) * limb_base(k as nat) == limbs_val(sa.take(k as int)) * b + mm
                    * prime(),
            decreases LIMBS - k,
        {
            let ghost t0 = limbs_val(t@);
            let ak = self.elements[k];
            proof {
                lemma_acc_room(t0, ak as nat, b, 0);
            }
            mul_add_limb(&mut t, ak, &other.elements);
            let ghost t1 = t@;
            let m = INV_MIN_P_MOD_R.wrapping_mul(t[0]);
            proof {
                lemma_consts();
                lemma_acc_room(t0, ak as nat, b, m as nat);
            }
            mul_add_limb(&mut t, m, &P_LIMBS);
            proof {
                let t2 = t@;
                lemma_limbs_drop_first(t1);
                lemma_limbs_drop_first(t2);
                lemma_limbs_drop_first(P_LIMBS@);
                lemma_mont_digit(t1[0] as nat, m as nat, P_LIMBS[0] as nat, INV_MIN_P_MOD_R as nat);
                let w = word() as int;
                let r1 = limbs_val(t1.drop_first());
                let pr = limbs_val(P_LIMBS@.drop_first());
                assert(limbs_val(t2) == (t1[0] + m * P_LIMBS[0]) + w * (r1 + m * pr))
                    by (nonlinear_arith)
                    requires
                        limbs_val(t2) == limbs_val(t1) + m * limbs_val(P_LIMBS@),
                        limbs_val(t1) == t1[0] + w * r1,
                        limbs_val(P_LIMBS@) == P_LIMBS[0] + w * pr,
                ;
                lemma_mod_multiples_vanish((r1 + m * pr) as int, (t1[0] + m * P_LIMBS[0]) as int, w);
                lemma_mod_multiples_vanish(limbs_val(t2.drop_first()) as int, t2[0] as int, w);
                lemma_small_mod(t2[0] as nat, word());
            }
            let ghost t2v = limbs_val(t@);
            shift_limb(&mut t);
            proof {
                lemma_acc_room(t0, ak as nat, b, m as nat);
                let lb = limb_base(k as nat);
                let t3 = limbs_val(t@);
                lemma_limbs_prefix(sa, k as int);
                assert(limb_base((k + 1) as nat) == word() * lb);
                assert(t3 * (word() * lb) == limbs_val(sa.take(k as int)) * b + ak as nat * lb * b
                    + (mm + m as nat * lb) * prime()) by (nonlinear_arith)
                    requires
                        t3 * word() == t2v,
                        t2v == t0 + ak as nat * b + m as nat * prime(),
                        t0 * lb == limbs_val(sa.take(k as int)) * b + mm * prime(),
                ;
                assert(t3 < 2 * prime()) by (nonlinear_arith)
                    requires
                        t3 * word() == t2v,
                        t2v < word() * (2 * prime()),
                        word() > 0,
                ;
                assert((limbs_val(sa.take(k as int)) + ak as nat * lb) * b == limbs_val(
                    sa.take(k as int),
                ) * b + ak as nat * lb * b) by (nonlinear_arith);
                mm = mm + m as nat * lb;
            }
            k = k + 1;
        }
        proof {
            assert(sa.take(8) =~= sa);
            lemma_limbs_prefix(t@, 8);
            assert(t@.take(9) =~= t@);
            lemma_limb_base_pos(8);
            assert(t[8] == 0) by (nonlinear_arith)
                requires
                    limbs_val(t@) == limbs_val(t@.take(8)) + t[8] as nat * limb_base(8),
                    limbs_val(t@) < 2 * prime(),
                    2 * prime() < limb_base(8),
            ;
        }
        let ghost tv = limbs_val(t@);
        self.elements = [t[0], t[1], t[2], t[3], t[4], t[5], t[6], t[7]];
        proof {
            assert(self.elements@ =~= t@.take(8));
            lemma_redc(tv, limbs_val(sa), b, mm);
        }
        self.reduce_once();
        proof {
            lemma_from_mont_mul(limbs_val(sa), b);
        }
    }

    /// The element `u mod p`.
    pub fn from_u64(u: u64) -> (r: GaloisElement)
        ensures
            r.wf(),
            r.val() == u as nat % prime(),
    {
        GaloisElement::from_large_uint(LargeUint::from_u64(u))
    }

    /// The element `lu mod p`, converted into Montgomery form by a multiplication with R^2.
    pub fn from_large_uint(lu: LargeUint) -> (r: GaloisElement)
        ensures
            r.wf(),
            r.mont() == (lu.value() * mont_r()) % prime(),
            r.val() == lu.value() % prime(),
    {
        let mut t = GaloisElement { elements: lu.elements };
        proof {
            lemma_consts();
        }
        t.mul_with(&GaloisElement { elements: R_SQUARED_MOD_P });
        proof {
            lemma_to_mont(lu.value());
            lemma_to_mont_repr(lu.value());
        }
        t
    }

    /// The canonical number in [0, p) that this element is.
    pub fn into_large_uint(&self) -> (r: LargeUint)
        ensures
            r.value() == self.val(),
    {
        let mut s = *self;
        let one = GaloisElement { elements: [1, 0, 0, 0, 0, 0, 0, 0] };
        proof {
            lemma_consts();
            assert(one.elements@[0] == 1);
            assert(forall|k: int| 1 <= k < 8 ==> one.elements@[k] == 0);
            crate::limbs::lemma_limbs8(one.elements@);
        }
        s.mul_with(&one);
        proof {
            assert(self.mont() * 1 == self.mont());
        }
        LargeUint { elements: s.elements }
    }

    /// The stored representative as a number.
    pub fn into_large_uint_priv(&self) -> (r: LargeUint)
        ensures
            r.value() == self.mont(),
    {
        LargeUint { elements: self.elements }
    }

    /// Field subtraction in place; returns whether the representatives had to wrap
    /// (the old one was below the other).
    pub fn sub_from(&mut self, other: &GaloisElement) -> (borrow: bool)
        requires
            old(self).wf(),
            other.wf(),
        ensures
            final(self).wf(),
            final(self).mont() == ((old(self).mont() - other.mont()) % (prime() as int)) as nat,
            final(self).val() == fsub(old(self).val(), other.val()),
            borrow == (old(self).mont() < other.mont()),
    {
        proof {
            lemma_consts();
        }
        let mut s = self.into_large_uint_priv();
        let o = other.into_large_uint_priv();
        let r = s.sub_from(&o);
        if r {
            let c = s.add_from(&LargeUint { elements: P_LIMBS });
            proof {
                lemma_limbs_bound(s.elements@);
                lemma_fundamental_div_mod_converse(
                    self.mont() - other.mont(),
                    prime() as int,
                    -1,
                    s.value() as int,
                );
            }
        } else {
            proof {
                lemma_small_mod((self.mont() - other.mont()) as nat, prime());
            }
        }
        self.elements = s.elements;
        proof {
            lemma_from_mont_sub(old(self).mont(), other.mont(), self.mont());
        }
        r
    }

    /// Field addition in place; returns the carry out of the raw 512-bit sum, which
    /// is never set for reduced operands.
    pub fn add_from(&mut self, other: &GaloisElement) -> (carry: bool)
        requires
            old(self).wf(),
            other.wf(),
        ensures
            final(self).wf(),
            final(self).mont() == (old(self).mont() + other.mont()) % prime(),
            final(self).val() == fadd(old(self).val(), other.val()),
            !carry,
    {
        proof {
            lemma_consts();
        }
        let mut s = self.into_large_uint_priv();
        let o = other.into_large_uint_priv();
        let r = s.add_from(&o);
        proof {
            lemma_limbs_bound(s.elements@);
        }
        self.elements = s.elements;
        self.reduce_once();
        proof {
            lemma_from_mont_add(old(self).mont(), other.mont());
        }
        r
    }

    /// Squares in place and returns the square.
    pub fn square(&mut self) -> (r: GaloisElement)
        requires
            old(self).wf(),
        ensures
            final(self).wf(),
            r == *final(self),
            final(self).val() == fmul(old(self).val(), old(self).val()),
    {
        let c = *self;
        self.mul_with(&c);
        *self
    }

    /// Raises to the power `exp` in place, scanning its 512 bits from the least significant.
    pub fn pow(&mut self, exp: &LargeUint)
        requires
            old(self).wf(),
        ensures
            final(self).wf(),
            final(self).val() == fpow(old(self).val(), exp.value()),
    {
        let ghost x = self.val();
        let ghost e = exp.elements@;
        let mut prev: GaloisElement = *self;
        *self = GaloisElement { elements: GAL_1 };
        let ghost mut c: nat = 0;
        proof {
            lemma_consts();
            lemma_from_mont_one();
            lemma_from_mont_bound(prev.mont());
            vstd::arithmetic::power::lemma_pow0(x as int);
            vstd::arithmetic::power::lemma_pow1(x as int);
            lemma_small_mod(1, prime());
            lemma_small_mod(x, prime());
            lemma_limbs_empty_prefix(e);
            assert(limb_base(0) == 1);
        }
        let mut k: usize = 0;
        while k < LIMBS
            invariant
                k <= LIMBS,
                e == exp.elements@,
                e.len() == LIMBS,
                self.wf(),
                prev.wf(),
                self.val() == fpow(x, c),
                prev.val() == fpow(x, limb_base(k as nat)),
                c == limbs_val(e.take(k as int)),
            decreases LIMBS - k,
        {
            let mut t = exp.elements[k];
            let ghost lb = limb_base(k as nat);
            let ghost mut low: nat = 0;
            let mut j: u64 = 0;
            proof {
                lemma2_to64();
                assert(lb * pow2(0) == lb);
            }
            while j < 64
                invariant
                    j <= 64,
                    k < LIMBS,
                    e == exp.elements@,
                    e.len() == LIMBS,
                    lb == limb_base(k as nat),
                    e[k as int] == t * pow2(j as nat) + low,
                    low < pow2(j as nat),
                    self.wf(),
                    prev.wf(),
                    self.val() == fpow(x, c + low * lb),
                    prev.val() == fpow(x, lb * pow2(j as nat)),
                decreases 64 - j,
            {
                let ghost pj = pow2(j as nat);
                proof {
                    lemma_pow2_adds(j as nat, 1);
                    lemma2_to64();
                    lemma_pow2_pos(j as nat);
                }
                if t % 2 == 1 {
                    self.mul_with(&prev);
                    proof {
                        lemma_fpow_adds(x, c + low * lb, lb * pj);
                        assert(c + low * lb + lb * pj == c + (low + pj) * lb) by (nonlinear_arith);
                        low = low + pj;
                    }
                }
                proof {
                    assert(t * pj + (low - (t % 2) * pj) == (t / 2) * (pj * 2) + (low - (t % 2)
                        * pj) + (t % 2) * pj) by (nonlinear_arith)
                        requires
                            t == 2 * (t / 2) + t % 2,
                    ;
                }
                prev.square();
                proof {
                    lemma_fpow_adds(x, lb * pj, lb * pj);
                    assert(lb * pj + lb * pj == lb * (pj * 2)) by (nonlinear_arith);
                }
                t = t / 2;
                j = j + 1;
            }
            proof {
                lemma2_to64();
                assert(t == 0) by (nonlinear_arith)
                    requires
                        e[k as int] == t * 0x1_0000_0000_0000_0000 + low,
                        e[k as int] < 0x1_0000_0000_0000_0000,
                ;
                lemma_limbs_prefix(e, k as int);
                assert(limb_base((k + 1) as nat) == word() * lb);
                assert(lb * word() == word() * lb) by (nonlinear_arith);
                c = c + low * lb;
            }
            k = k + 1;
        }
        proof {
            assert(e.take(8) =~= e);
        }
    }

    /// Inverts in place by Fermat's little theorem: raises to p - 2.
    pub fn inverse(&mut self)
        requires
            old(self).wf(),
        ensures
            final(self).wf(),
            final(self).val() == fpow(old(self).val(), (prime() - 2) as nat),
    {
        proof {
            lemma_consts();
        }
        self.pow(&LargeUint { elements: P_MINUS_2 });
    }

    /// The candidate of rejection sampling: the limbs with the top limb cut to the bits
    /// of p, accepted if that number is below p.
    pub fn from_random_limbs(limbs: [u64; LIMBS]) -> (r: Option<GaloisElement>)
        ensures
            match r {
                Some(e) => e.wf() && e.elements@ == masked_limbs(limbs@),
                None => limbs_val(masked_limbs(limbs@)) >= prime(),
            },
    {
        proof {
            lemma_consts();
        }
        let mut elems = limbs;
        assert(1u64 << 63u64 >= 1) by (bit_vector);
        assert((1u64 << 63u64) - 1 == 0x7fff_ffff_ffff_ffffu64) by (bit_vector);
        let m = (1u64 << (PBITS % 64)) - 1;
        assert(m == 0x7fff_ffff_ffff_ffffu64);
        elems[LIMBS - 1] = elems[LIMBS - 1] & m;
        proof {
            assert(elems@ =~= masked_limbs(limbs@));
        }
        let mut t = LargeUint { elements: elems };
        if t.sub_from(&LargeUint { elements: P_LIMBS }) {
            Some(GaloisElement { elements: elems })
        } else {
            None
        }
    }

    /// A uniformly random element by rejection sampling, with up to a fixed number of
    /// draws; `None` only if every draw was rejected.
    pub fn random_element(rng: &mut StdRng) -> (r: Option<GaloisElement>)
        ensures
            r matches Some(e) ==> e.wf(),
    {
        let mut n: u64 = 0;
        while n < MAX_DRAWS
            decreases MAX_DRAWS - n,
        {
            let limbs = fill_limbs(rng);
            let c = GaloisElement::from_random_limbs(limbs);
            if c.is_some() {
                return c;
            }
            n = n + 1;
        }
        None
    }

    /// Whether this is the zero element.
    pub fn is_zero(&self) -> (r: bool)
        requires
            self.wf(),
        ensures
            r == (self.val() == 0),
    {
        let zero: [u64; LIMBS] = [0; LIMBS];
        let r = limbs_eq(&self.elements, &zero);
        proof {
            lemma_consts();
            assert(zero@ =~= seq![0u64, 0, 0, 0, 0, 0, 0, 0]);
            crate::limbs::lemma_limbs_zero(zero@);
            lemma_small_mod(0, prime());
            assert(0 * r_inv() == 0);
            assert(from_mont(0) == 0);
            if self.val() == 0 {
                lemma_from_mont_injective(self.mont(), 0);
                crate::limbs::lemma_limbs_injective(self.elements@, zero@);
            }
        }
        r
    }

    /// Euler's criterion: zero, or a power (p - 1) / 2 equal to one.
    pub fn is_square(&self) -> (r: bool)
        requires
            self.wf(),
        ensures
            r == (self.val() == 0 || fpow(self.val(), ((prime() - 1) / 2) as nat) == 1),
    {
        proof {
            lemma_consts();
        }
        let is_zero = self.is_zero();
        let mut t = *self;
        t.pow(&LargeUint { elements: P_MINUS_1_HALVES });
        let is_one = limbs_eq(&t.elements, &GAL_1);
        proof {
            lemma_from_mont_one();
            if t.val() == 1 {
                lemma_from_mont_injective(t.mont(), mont_r() % prime());
                crate::limbs::lemma_limbs_injective(t.elements@, GAL_1@);
            }
        }
        is_zero || is_one
    }
}

/// Field exponentiation on canonical representatives.
pub open spec fn fpow(x: nat, e: nat) -> nat {
    (pow(x as int, e) % (prime() as int)) as nat
}

/// x^a * x^b == x^(a + b) in the field.
pub proof fn lemma_fpow_adds(x: nat, a: nat, b: nat)
    ensures
        fmul(fpow(x, a), fpow(x, b)) == fpow(x, a + b),
{
    lemma_consts();
    let p = prime() as int;
    vstd::arithmetic::div_mod::lemma_mul_mod_noop(pow(x as int, a), pow(x as int, b), p);
    lemma_pow_adds(x as int, a, b);
}

/// Converting into Montgomery form by a multiplication with R^2 keeps the number modulo p.
proof fn lemma_to_mont(x: nat)
    ensures
        fmul(from_mont(x), from_mont(limbs_val(R_SQUARED_MOD_P@))) == x % prime(),
{
    lemma_consts();
    let p = prime() as int;
    let r = mont_r() as int;
    let ri = r_inv() as int;
    lemma_mul_mod_noop_left(r * r, ri, p);
    assert(r * r * ri == r * (r * ri)) by (nonlinear_arith);
    lemma_mul_mod_noop_right(r, r * ri, p);
    assert((r * ri) % p == 1);
    assert(from_mont(limbs_val(R_SQUARED_MOD_P@)) == ((r * r) % p * ri) % p);
    assert(((r * r) % p * ri) % p == (r * (r * ri)) % p);
    assert((r * (r * ri)) % p == (r * 1) % p);
    assert(from_mont(limbs_val(R_SQUARED_MOD_P@)) == r % p);
    vstd::arithmetic::div_mod::lemma_mul_mod_noop(x * ri, r, p);
    assert(x * ri * r == x * (r * ri)) by (nonlinear_arith);
    lemma_mul_mod_noop_right(x as int, r * ri, p);
    assert(fmul(from_mont(x), from_mont(limbs_val(R_SQUARED_MOD_P@))) == ((x * ri) % p * (r % p)) % p);
    assert(((x * ri) % p * (r % p)) % p == (x * ri * r) % p);
    assert((x * ri * r) % p == (x as int * (r * ri)) % p);
    assert((x as int * (r * ri)) % p == (x as int * 1) % p);
}

impl PartialEq for GaloisElement {
    fn eq(&self, other: &GaloisElement) -> bool {
        limbs_eq(&self.elements, &other.elements)
    }
}

impl vstd::std_specs::cmp::PartialEqSpecImpl for GaloisElement {
    open spec fn obeys_eq_spec() -> bool {
        true
    }

    open spec fn eq_spec(&self, other: &GaloisElement) -> bool {
        self.elements@ == other.elements@
    }
}

/// Reduced representatives of one element are the same value.
pub proof fn lemma_unique_repr(a: GaloisElement, b: GaloisElement)
    requires
        a.wf(),
        b.wf(),
        a.val() == b.val(),
    ensures
        a == b,
{
    lemma_from_mont_injective(a.mont(), b.mont());
    crate::limbs::lemma_limbs_injective(a.elements@, b.elements@);
    assert(a.elements =~= b.elements);
}

/// The reduced representative of the field element `v`: the limbs of v * R mod p.
pub open spec fn element_of(v: nat) -> GaloisElement {
    GaloisElement { elements: limbs_arr((v * mont_r()) % prime()) }
}

/// `element_of(v)` is reduced and stands for `v`.
pub broadcast proof fn lemma_element_of_props(v: nat)
    requires
        v < prime(),
    ensures
        #![trigger element_of(v)]
        element_of(v).wf(),
        element_of(v).val() == v,
{
    lemma_consts();
    let m = (v * mont_r()) % prime();
    lemma_digits(m, 8);
    lemma_limb_bases();
    assert(element_of(v).elements@ =~= digits(m, 8));
    lemma_small_mod(m, mont_r());
    let p = prime() as int;
    let ri = r_inv() as int;
    lemma_mul_mod_noop_left((v * mont_r()) as int, ri, p);
    assert(v * mont_r() * ri == v * (mont_r() * ri)) by (nonlinear_arith);
    lemma_mul_mod_noop_right(v as int, mont_r() * ri, p);
    assert((v as int * 1) % p == v) by {
        lemma_small_mod(v, prime());
    }
}

/// A reduced result with value `v` is `element_of(v)`.
proof fn lemma_element_of(r: GaloisElement, v: nat)
    requires
        r.wf(),
        r.val() == v,
    ensures
        r == element_of(v),
{
    lemma_from_mont_bound(r.mont());
    lemma_element_of_props(v);
    lemma_unique_repr(r, element_of(v));
}

impl core::ops::Add for GaloisElement {
    type Output = GaloisElement;

    fn add(self, other: GaloisElement) -> GaloisElement {
        let mut s = self;
        s.add_from(&other);
        proof {
            lemma_element_of(s, fadd(self.val(), other.val()));
        }
        s
    }
}

impl vstd::std_specs::ops::AddSpecImpl for GaloisElement {
    open spec fn obeys_add_spec() -> bool {
        true
    }

    open spec fn add_req(self, other: GaloisElement) -> bool {
        self.wf() && other.wf()
    }

    open spec fn add_spec(self, other: GaloisElement) -> GaloisElement {
        element_of(fadd(self.val(), other.val()))
    }
}

impl core::ops::Sub for GaloisElement {
    type Output = GaloisElement;

    fn sub(self, other: GaloisElement) -> GaloisElement {
        let mut s = self;
        s.sub_from(&other);
        proof {
            lemma_element_of(s, fsub(self.val(), other.val()));
        }
        s
    }
}

impl vstd::std_specs::ops::SubSpecImpl for GaloisElement {
    open spec fn obeys_sub_spec() -> bool {
        true
    }

    open spec fn sub_req(self, other: GaloisElement) -> bool {
        self.wf() && other.wf()
    }

    open spec fn sub_spec(self, other: GaloisElement) -> GaloisElement {
        element_of(fsub(self.val(), other.val()))
    }
}

impl core::ops::Mul for GaloisElement {
    type Output = GaloisElement;

    fn mul(self, other: GaloisElement) -> GaloisElement {
        let mut s = self;
        s.mul_with(&other);
        proof {
            lemma_element_of(s, fmul(self.val(), other.val()));
        }
        s
    }
}

impl vstd::std_specs::ops::MulSpecImpl for GaloisElement {
    open spec fn obeys_mul_spec() -> bool {
        true
    }

    open spec fn mul_req(self, other: GaloisElement) -> bool {
        other.wf()
    }

    open spec fn mul_spec(self, other: GaloisElement) -> GaloisElement {
        element_of(fmul(self.val(), other.val()))
    }
}

impl core::ops::Div for GaloisElement {
    type Output = GaloisElement;

    fn div(self, other: GaloisElement) -> GaloisElement {
        let mut o = other;
        o.inverse();
        let mut s = self;
        s.mul_with(&o);
        proof {
            lemma_element_of(s, fmul(self.val(), fpow(other.val(), (prime() - 2) as nat)));
        }
        s
    }
}

impl vstd::std_specs::ops::DivSpecImpl for GaloisElement {
    open spec fn obeys_div_spec() -> bool {
        true
    }

    open spec fn div_req(self, other: GaloisElement) -> bool {
        other.wf()
    }

    open spec fn div_spec(self, other: GaloisElement) -> GaloisElement {
        element_of(fmul(self.val(), fpow(other.val(), (prime() - 2) as nat)))
    }
}

/// Multiplying by R^2 mod p and reducing once by R gives x R mod p.
proof fn lemma_to_mont_repr(x: nat)
    ensures
        (x * limbs_val(R_SQUARED_MOD_P@) * r_inv()) % prime() == (x * mont_r()) % prime(),
{
    lemma_consts();
    let p = prime() as int;
    let r = mont_r() as int;
    let ri = r_inv() as int;
    let r2 = (r * r) % p;
    lemma_mul_mod_noop_right(x as int, r * r, p);
    lemma_mul_mod_noop_left(x * r2, ri, p);
    lemma_mul_mod_noop_left(x * (r * r), ri, p);
    assert(x * (r * r) * ri == (x * r) * (r * ri)) by (nonlinear_arith);
    lemma_mul_mod_noop_right(x * r, r * ri, p);
    assert((x * r) * 1 == x * r);
}

/// Montgomery round trip: the representative x R mod p that `from_large_uint` stores
/// for x stands for x mod p, which `into_large_uint` hands back.
pub proof fn lemma_montgomery_round_trip(x: nat)
    ensures
        from_mont((x * mont_r()) % prime()) == x % prime(),
{
    lemma_consts();
    let p = prime() as int;
    let r = mont_r() as int;
    let ri = r_inv() as int;
    lemma_mul_mod_noop_left(x * r, ri, p);
    assert(x * r * ri == x * (r * ri)) by (nonlinear_arith);
    lemma_mul_mod_noop_right(x as int, r * ri, p);
    assert(x as int * 1 == x);
}

/// Field laws: addition and multiplication commute, addition associates, and
/// multiplication distributes over addition.
pub proof fn lemma_field_laws(a: nat, b: nat, c: nat)
    requires
        a < prime(),
        b < prime(),
        c < prime(),
    ensures
        fadd(a, b) == fadd(b, a),
        fmul(a, b) == fmul(b, a),
        fadd(fadd(a, b), c) == fadd(a, fadd(b, c)),
        fmul(a, fadd(b, c)) == fadd(fmul(a, b), fmul(a, c)),
{
    lemma_consts();
    let p = prime() as int;
    let (ai, bi, ci) = (a as int, b as int, c as int);
    assert(ai * bi == bi * ai) by (nonlinear_arith);
    lemma_add_mod_noop(ai + bi, ci, p);
    lemma_add_mod_noop(ai, bi + ci, p);
    lemma_small_mod(a, prime());
    lemma_small_mod(c, prime());
    assert(fadd(fadd(a, b), c) == (ai + bi + ci) % p);
    assert(fadd(a, fadd(b, c)) == (ai + bi + ci) % p);
    lemma_mul_mod_noop_right(ai, bi + ci, p);
    assert(ai * (bi + ci) == ai * bi + ai * ci) by (nonlinear_arith);
    lemma_add_mod_noop(ai * bi, ai * ci, p);
}

/// For a square y^2, Euler's criterion raises it to (p - 1) / 2, which is y^(p - 1):
/// a square passes the test of [`GaloisElement::is_square`] whenever y^(p - 1) is one,
/// as Fermat's little theorem gives for non-zero y.
pub proof fn lemma_square_euler_power(y: nat)
    ensures
        fpow(fmul(y, y), ((prime() - 1) / 2) as nat) == fpow(y, (prime() - 1) as nat),
        fpow(y, (prime() - 1) as nat) == 1 ==> (fmul(y, y) == 0 || fpow(
            fmul(y, y),
            ((prime() - 1) / 2) as nat,
        ) == 1),
{
    lemma_consts();
    let p = prime() as int;
    let h = ((prime() - 1) / 2) as nat;
    assert(prime() % 2 == 1) by {
        assert(prime() == 4 * ((prime() + 1) / 4) - 1);
    }
    vstd::arithmetic::power::lemma_pow_mod_noop((y * y) as int, h, p);
    vstd::arithmetic::power::lemma_square_is_pow2(y as int);
    vstd::arithmetic::power::lemma_pow_multiplies(y as int, 2, h);
    assert(2 * h == (prime() - 1) as nat);
}

/// The inverse computed by [`GaloisElement::inverse`] times the element is y^(p - 1),
/// which Fermat's little theorem makes one for non-zero y.
pub proof fn lemma_inverse_fermat_power(y: nat)
    requires
        y < prime(),
    ensures
        fmul(y, fpow(y, (prime() - 2) as nat)) == fpow(y, (prime() - 1) as nat),
{
    lemma_consts();
    let p = prime() as int;
    vstd::arithmetic::power::lemma_pow1(y as int);
    lemma_small_mod(y, prime());
    lemma_fpow_adds(y, 1, (prime() - 2) as nat);
    assert(1 + (prime() - 2) as nat == (prime() - 1) as nat);
}

} // verus!
