//! Fixed-width 512-bit unsigned integers: eight 64-bit limbs, least significant first.
use vstd::prelude::*;
use vstd::arithmetic::div_mod::{
    lemma_add_mod_noop, lemma_fundamental_div_mod, lemma_fundamental_div_mod_converse,
    lemma_mul_mod_noop_left,
};
use vstd::arithmetic::power2::{lemma2_to64, lemma_pow2_pos, pow2};
use vstd::bits::lemma_u64_shr_is_div;
use vstd::std_specs::bits::u64_leading_zeros;
use byteorder::{ByteOrder, LittleEndian};
use crate::limbs::{
    lemma_limb_base_pos, lemma_limbs_bound, lemma_limbs_empty_prefix, lemma_limbs_injective, lemma_limbs_prefix, limb_base,
    limbs_arr, limbs_val, word,
};

verus! {

/// The number of 64-bit limbs of a [`LargeUint`].
pub const LIMBS: usize = 8;

/// A raw 512-bit unsigned integer with wrapping arithmetic.
#[derive(Debug, Clone, Copy)]
pub struct LargeUint {
    pub elements: [u64; LIMBS],
}

/// 2^512, the modulus of the wrapping arithmetic.
pub open spec fn wrap() -> nat {
    limb_base(LIMBS as nat)
}

/// The 512-bit number whose value is n mod 2^512.
pub open spec fn large_of(n: nat) -> LargeUint {
    LargeUint { elements: limbs_arr(n % wrap()) }
}

/// A 512-bit number is determined by its value.
pub proof fn lemma_large_of(k: LargeUint)
    ensures
        k == large_of(k.value()),
{
    let v = k.value();
    lemma_limbs_bound(k.elements@);
    lemma_limb_base_pos(LIMBS as nat);
    vstd::arithmetic::div_mod::lemma_small_mod(v, wrap());
    crate::limbs::lemma_digits(v, 8);
    vstd::arithmetic::div_mod::lemma_small_mod(v, limb_base(8));
    let d = crate::limbs::digits(v, 8);
    assert(large_of(v).elements@ =~= d);
    lemma_limbs_injective(k.elements@, d);
    assert(k.elements =~= large_of(v).elements);
}

/// Bit `i` of the limbs `s`, counted from the least significant bit of `s[0]`.
pub open spec fn limbs_bit(s: Seq<u64>, i: nat) -> bool {
    (s[(i / 64) as int] as nat / pow2(i % 64)) % 2 == 1
}

/// The little-endian bytes of the limbs `s`: eight bytes per limb.
pub open spec fn le_bytes(s: Seq<u64>) -> Seq<u8> {
    Seq::new(8 * s.len(), |i: int| ((s[i / 8] as nat / pow2(8 * (i % 8) as nat)) % 256) as u8)
}

/// The limbs that the little-endian bytes `b` spell: eight bytes per limb.
pub open spec fn le_limbs(b: Seq<u8>) -> Seq<u64> {
    Seq::new(
        b.len() / 8,
        |i: int|
            (b[8 * i] as nat + b[8 * i + 1] as nat * 0x100 + b[8 * i + 2] as nat * 0x1_0000
                + b[8 * i + 3] as nat * 0x100_0000 + b[8 * i + 4] as nat * 0x1_0000_0000 + b[8 * i
                + 5] as nat * 0x100_0000_0000 + b[8 * i + 6] as nat * 0x1_0000_0000_0000 + b[8 * i
                + 7] as nat * 0x100_0000_0000_0000) as u64,
    )
}

/// Every byte of `s` is an ASCII decimal digit.
pub open spec fn is_decimal(s: Seq<u8>) -> bool {
    forall|i: int| 0 <= i < s.len() ==> 48 <= #[trigger] s[i] <= 57
}

/// The number that the decimal digits `s` spell, most significant first.
pub open spec fn decimal_val(s: Seq<u8>) -> nat
    decreases s.len(),
{
    if s.len() == 0 {
        0
    } else {
        decimal_val(s.drop_last()) * 10 + (s.last() - 48) as nat
    }
}

/// Relies on byteorder's `LittleEndian::write_u64_into`: each limb becomes its
/// eight little-endian bytes, in limb order.
#[verifier::external_body]
fn write_le_limbs(limbs: &[u64; LIMBS]) -> (r: Vec<u8>)
    ensures
        r@ == le_bytes(limbs@),
{
    let mut bytes = vec![0u8; 8 * LIMBS];
    LittleEndian::write_u64_into(&limbs[..], &mut bytes[..]);
    bytes
}

/// Relies on byteorder's `LittleEndian::read_u64_into`: each group of eight bytes, least
/// significant first, becomes one limb; it panics unless there are eight bytes per limb.
#[verifier::external_body]
pub(crate) fn read_le_limbs(bytes: &[u8]) -> (r: [u64; LIMBS])
    requires
        bytes@.len() == 8 * LIMBS,
    ensures
        r@ == le_limbs(bytes@),
{
    let mut limbs = [0u64; LIMBS];
    LittleEndian::read_u64_into(bytes, &mut limbs[..]);
    limbs
}

/// Splits a sum of at most 2^128 - 1 into its low limb and its carry.
proof fn lemma_split_word(s: nat, lo: nat, hi: nat, b: nat)
    requires
        lo == s % word(),
        hi == s / word(),
    ensures
        lo * b + hi * (word() * b) == s * b,
{
    lemma_fundamental_div_mod(s as int, word() as int);
    assert(lo * b + hi * (word() * b) == (lo + word() * hi) * b) by (nonlinear_arith);
}

/// Limb-wise equality of two limb arrays.
pub fn limbs_eq(a: &[u64; LIMBS], b: &[u64; LIMBS]) -> (r: bool)
    ensures
        r == (a@ == b@),
{
    let mut i: usize = 0;
    while i < LIMBS
        invariant
            i <= LIMBS,
            forall|j: int| 0 <= j < i ==> a@[j] == b@[j],
        decreases LIMBS - i,
    {
        if a[i] != b[i] {
            return false;
        }
        i = i + 1;
    }
    assert(a@ =~= b@);
    true
}

/// The limb `x` is below 2^(64 - z) and, when non-zero, at least 2^(63 - z),
/// for `z` its count of leading zero bits.
proof fn lemma_leading_zeros(x: u64)
    ensures
        0 <= u64_leading_zeros(x) <= 64,
        (x as nat) < pow2((64 - u64_leading_zeros(x)) as nat),
        x > 0 ==> pow2((63 - u64_leading_zeros(x)) as nat) <= x,
    decreases x,
{
    reveal(u64_leading_zeros);
    lemma2_to64();
    if x > 0 {
        let h = (x / 2) as u64;
        lemma_leading_zeros(h);
        let z = u64_leading_zeros(h);
        assert(u64_leading_zeros(x) == z - 1);
        vstd::arithmetic::power2::lemma_pow2_adds((64 - z) as nat, 1);
        if h > 0 {
            vstd::arithmetic::power2::lemma_pow2_adds((63 - z) as nat, 1);
        } else {
            assert(z == 64);
        }
    }
}

/// A number below 2^k has no bit at k or above.
proof fn lemma_no_bit_above(x: u64, k: nat, j: nat)
    requires
        (x as nat) < pow2(k),
        k <= j,
    ensures
        (x as nat / pow2(j)) % 2 == 0,
{
    if k < j {
        vstd::arithmetic::power2::lemma_pow2_strictly_increases(k, j);
    }
    lemma_pow2_pos(j);
    vstd::arithmetic::div_mod::lemma_basic_div(x as int, pow2(j) as int);
}

/// One more than the index of the highest set bit of `k` below `n`, or 0 if there is none.
pub open spec fn top_bit_from(k: LargeUint, n: nat) -> nat
    decreases n,
{
    if n == 0 {
        0
    } else if k.bit_spec((n - 1) as nat) {
        n
    } else {
        top_bit_from(k, (n - 1) as nat)
    }
}

/// The number of significant bits of `k`.
pub open spec fn bits_spec(k: LargeUint) -> nat {
    top_bit_from(k, 512)
}

/// The highest set bit, found from above.
proof fn lemma_top_bit(k: LargeUint, n: nat, r: nat)
    requires
        r <= n,
        forall|j: nat| r <= j < n ==> !#[trigger] k.bit_spec(j),
        r > 0 ==> k.bit_spec((r - 1) as nat),
    ensures
        top_bit_from(k, n) == r,
    decreases n,
{
    if n > r {
        lemma_top_bit(k, (n - 1) as nat, r);
    } else if n > 0 {
        assert(k.bit_spec((n - 1) as nat));
    }
}

impl PartialEq for LargeUint {
    fn eq(&self, other: &LargeUint) -> bool {
        limbs_eq(&self.elements, &other.elements)
    }
}

impl vstd::std_specs::cmp::PartialEqSpecImpl for LargeUint {
    open spec fn obeys_eq_spec() -> bool {
        true
    }

    open spec fn eq_spec(&self, other: &LargeUint) -> bool {
        self.elements@ == other.elements@
    }
}

impl From<u32> for LargeUint {
    fn from(u: u32) -> LargeUint {
        LargeUint { elements: [u as u64, 0, 0, 0, 0, 0, 0, 0] }
    }
}

impl vstd::std_specs::convert::FromSpecImpl<u32> for LargeUint {
    open spec fn obeys_from_spec() -> bool {
        true
    }

    open spec fn from_spec(u: u32) -> LargeUint {
        LargeUint { elements: [u as u64, 0, 0, 0, 0, 0, 0, 0] }
    }
}

impl LargeUint {
    /// The number that the limbs stand for.
    pub open spec fn value(self) -> nat {
        limbs_val(self.elements@)
    }

    /// Bit `i` of the number.
    pub open spec fn bit_spec(self, i: nat) -> bool {
        limbs_bit(self.elements@, i)
    }

    pub fn new() -> (r: LargeUint)
        ensures
            r.value() == 0,
    {
        LargeUint::from_u64(0)
    }

    pub fn from_u64(u: u64) -> (r: LargeUint)
        ensures
            r.value() == u,
    {
        let r = LargeUint { elements: [u, 0, 0, 0, 0, 0, 0, 0] };
        proof {
            assert(r.elements@[0] == u);
            assert(forall|k: int| 1 <= k < 8 ==> r.elements@[k] == 0);
            crate::limbs::lemma_limbs8(r.elements@);
        }
        r
    }

    /// The 64-byte little-endian encoding.
    pub fn as_bytes(&self) -> (r: Vec<u8>)
        ensures
            r@ == le_bytes(self.elements@),
            r@.len() == 64,
    {
        write_le_limbs(&self.elements)
    }

    /// Adds `other` in place, modulo 2^512; returns the carry out of the top limb.
    pub fn add_from(&mut self, other: &LargeUint) -> (carry: bool)
        ensures
            final(self).value() + (if carry { wrap() } else { 0 }) == old(self).value()
                + other.value(),
    {
        let ghost a = self.elements@;
        let ghost b = other.elements@;
        let mut carry: u64 = 0;
        let mut i: usize = 0;
        while i < LIMBS
            invariant
                i <= LIMBS,
                carry <= 1,
                a.len() == LIMBS,
                b == other.elements@,
                self.elements@.len() == LIMBS,
                forall|j: int| i <= j < LIMBS ==> self.elements@[j] == a[j],
                limbs_val(self.elements@.take(i as int)) + carry * limb_base(i as nat) == limbs_val(
                    a.take(i as int),
                ) + limbs_val(b.take(i as int)),
            decreases LIMBS - i,
        {
            let ghost prev = self.elements@;
            let ghost c0 = carry;
            let s: u128 = self.elements[i] as u128 + other.elements[i] as u128 + carry as u128;
            self.elements[i] = (s % 0x1_0000_0000_0000_0000) as u64;
            carry = (s / 0x1_0000_0000_0000_0000) as u64;
            proof {
                let lb = limb_base(i as nat);
                assert(self.elements@.take(i as int) =~= prev.take(i as int));
                lemma_limbs_prefix(self.elements@, i as int);
                lemma_limbs_prefix(a, i as int);
                lemma_limbs_prefix(b, i as int);
                lemma_split_word(s as nat, self.elements@[i as int] as nat, carry as nat, lb);
                assert(limb_base((i + 1) as nat) == word() * lb);
                assert(s as nat * lb == a[i as int] as nat * lb + b[i as int] as nat * lb + c0 as nat * lb)
                    by (nonlinear_arith)
                    requires
                        s as nat == a[i as int] as nat + b[i as int] as nat + c0 as nat,
                ;
            }
            i = i + 1;
        }
        proof {
            assert(self.elements@.take(8) =~= self.elements@);
            assert(a.take(8) =~= a);
            assert(b.take(8) =~= b);
        }
        carry == 1
    }

    /// Subtracts `other` in place, modulo 2^512; returns the borrow out of the top limb,
    /// which is set exactly when `other` exceeds the old value.
    pub fn sub_from(&mut self, other: &LargeUint) -> (borrow: bool)
        ensures
            final(self).value() + other.value() == old(self).value() + (if borrow {
                wrap()
            } else {
                0
            }),
            borrow == (old(self).value() < other.value()),
    {
        let ghost a = self.elements@;
        let ghost b = other.elements@;
        let mut borrow: u64 = 0;
        let mut i: usize = 0;
        while i < LIMBS
            invariant
                i <= LIMBS,
                borrow <= 1,
                a.len() == LIMBS,
                b == other.elements@,
                self.elements@.len() == LIMBS,
                forall|j: int| i <= j < LIMBS ==> self.elements@[j] == a[j],
                limbs_val(self.elements@.take(i as int)) + limbs_val(b.take(i as int)) == limbs_val(
                    a.take(i as int),
                ) + borrow * limb_base(i as nat),
            decreases LIMBS - i,
        {
            let ghost prev = self.elements@;
            let ghost c0 = borrow;
            let x: u128 = self.elements[i] as u128 + 0x1_0000_0000_0000_0000;
            let y: u128 = other.elements[i] as u128 + borrow as u128;
            let d: u128 = x - y;
            self.elements[i] = (d % 0x1_0000_0000_0000_0000) as u64;
            borrow = 1 - (d / 0x1_0000_0000_0000_0000) as u64;
            proof {
                let lb = limb_base(i as nat);
                let hi = (d / 0x1_0000_0000_0000_0000) as nat;
                assert(self.elements@.take(i as int) =~= prev.take(i as int));
                lemma_limbs_prefix(self.elements@, i as int);
                lemma_limbs_prefix(a, i as int);
                lemma_limbs_prefix(b, i as int);
                lemma_split_word(d as nat, self.elements@[i as int] as nat, hi, lb);
                assert(limb_base((i + 1) as nat) == word() * lb);
                assert(self.elements@[i as int] as nat * lb + b[i as int] as nat * lb + c0 as nat * lb
                    + hi * (word() * lb) == a[i as int] as nat * lb + word() * lb)
                    by (nonlinear_arith)
                    requires
                        d as nat == a[i as int] as nat + word() - b[i as int] as nat - c0 as nat,
                        self.elements@[i as int] as nat * lb + hi * (word() * lb) == d as nat * lb,
                ;
                assert(hi <= 1);
                assert(borrow as nat * (word() * lb) + hi * (word() * lb) == word() * lb)
                    by (nonlinear_arith)
                    requires
                        borrow as nat + hi == 1,
                ;
            }
            i = i + 1;
        }
        proof {
            assert(self.elements@.take(8) =~= self.elements@);
            assert(a.take(8) =~= a);
            assert(b.take(8) =~= b);
            lemma_limbs_bound(self.elements@);
            lemma_limbs_bound(a);
            lemma_limbs_bound(b);
        }
        borrow == 1
    }

    /// Multiplies in place by `u`, modulo 2^512.
    pub fn mul_with_u64(&mut self, u: u64)
        ensures
            final(self).value() == (old(self).value() * u as nat) % wrap(),
    {
        let ghost a = self.elements@;
        proof {
            lemma_limbs_empty_prefix(a);
        }
        let mut c: u64 = 0;
        let mut i: usize = 0;
        while i < LIMBS
            invariant
                i <= LIMBS,
                a.len() == LIMBS,
                self.elements@.len() == LIMBS,
                forall|j: int| i <= j < LIMBS ==> self.elements@[j] == a[j],
                limbs_val(self.elements@.take(i as int)) + c * limb_base(i as nat) == limbs_val(
                    a.take(i as int),
                ) * u as nat,
            decreases LIMBS - i,
        {
            let ghost prev = self.elements@;
            let x = self.elements[i];
            assert(x as nat * u as nat <= 0xffff_ffff_ffff_ffff * 0xffff_ffff_ffff_ffff)
                by (nonlinear_arith)
                requires
                    x <= 0xffff_ffff_ffff_ffff,
                    u <= 0xffff_ffff_ffff_ffff,
            ;
            let ghost c0 = c;
            let t: u128 = x as u128 * u as u128 + c as u128;
            self.elements[i] = (t % 0x1_0000_0000_0000_0000) as u64;
            c = (t / 0x1_0000_0000_0000_0000) as u64;
            proof {
                assert(self.elements@.take(i as int) =~= prev.take(i as int));
                lemma_limbs_prefix(self.elements@, i as int);
                lemma_limbs_prefix(a, i as int);
                lemma_split_word(t as nat, self.elements@[i as int] as nat, c as nat, limb_base(i as nat));
                assert(t as nat * limb_base(i as nat) == (x as nat * u as nat) * limb_base(i as nat) + c0 as nat * limb_base(i as nat))
                    by (nonlinear_arith)
                    requires
                        t as nat == x as nat * u as nat + c0 as nat,
                ;
                assert(limb_base((i + 1) as nat) == word() * limb_base(i as nat));
                let lb = limb_base(i as nat);
                let pa = limbs_val(a.take(i as int));
                assert((pa + x as nat * lb) * u as nat == pa * u as nat + (x as nat * u as nat) * lb)
                    by (nonlinear_arith);
            }
            i = i + 1;
        }
        proof {
            assert(self.elements@.take(8) =~= self.elements@);
            assert(a.take(8) =~= a);
            lemma_limbs_bound(self.elements@);
            lemma_fundamental_div_mod_converse(
                (limbs_val(a) * u as nat) as int,
                wrap() as int,
                c as int,
                limbs_val(self.elements@) as int,
            );
        }
    }

    /// The number of significant bits: one more than the index of the highest set bit,
    /// or 0 for zero.
    pub fn bits(&self) -> (r: u64)
        ensures
            r <= 512,
            r == bits_spec(*self),
            forall|j: nat| r <= j < 512 ==> !#[trigger] self.bit_spec(j),
            r > 0 ==> self.bit_spec((r - 1) as nat),
    {
        let mut i: usize = LIMBS;
        while i > 0
            invariant
                i <= LIMBS,
                forall|j: int| i <= j < LIMBS ==> self.elements@[j] == 0,
            decreases i,
        {
            i = i - 1;
            if self.elements[i] != 0 {
                let x = self.elements[i];
                let zeros = x.leading_zeros();
                proof {
                    lemma_leading_zeros(x);
                    let z = u64_leading_zeros(x);
                    let r = (64 - z) + 64 * i;
                    assert forall|j: nat| r <= j < 512 implies !#[trigger] self.bit_spec(j) by {
                        if j / 64 == i as nat {
                            lemma_no_bit_above(x, (64 - z) as nat, j % 64);
                        } else {
                            lemma_pow2_pos(j % 64);
                        }
                    }
                    let t = (63 - z) as nat;
                    assert(((r - 1) as nat) % 64 == t && ((r - 1) as nat) / 64 == i);
                    vstd::arithmetic::power2::lemma_pow2_adds(t, 1);
                    lemma2_to64();
                    lemma_pow2_pos(t);
                    assert(x as nat / pow2(t) == 1) by {
                        vstd::arithmetic::div_mod::lemma_fundamental_div_mod(x as int, pow2(t) as int);
                        assert(x as nat / pow2(t) < 2) by (nonlinear_arith)
                            requires
                                (x as nat) < pow2(t) * 2,
                                pow2(t) > 0,
                                x as nat == pow2(t) * (x as nat / pow2(t)) + x as nat % pow2(t),
                                x as nat % pow2(t) >= 0,
                        ;
                        assert(x as nat / pow2(t) >= 1) by (nonlinear_arith)
                            requires
                                pow2(t) <= x as nat,
                                pow2(t) > 0,
                                x as nat == pow2(t) * (x as nat / pow2(t)) + x as nat % pow2(t),
                                x as nat % pow2(t) < pow2(t),
                        ;
                    }
                    lemma_top_bit(*self, 512, r as nat);
                }
                return (64 - zeros as u64) + (i as u64) * 64;
            }
        }
        proof {
            assert forall|j: nat| 0 <= j < 512 implies !#[trigger] self.bit_spec(j) by {
                lemma_pow2_pos(j % 64);
            }
            lemma_top_bit(*self, 512, 0);
        }
        0
    }

    /// Bit `i` of the number.
    pub fn bit(&self, i: u64) -> (r: bool)
        requires
            i < 512,
        ensures
            r == self.bit_spec(i as nat),
    {
        let x = self.elements[(i / 64) as usize];
        let y = x >> (i % 64);
        proof {
            lemma_u64_shr_is_div(x, i % 64);
            assert(y & 1 == y % 2) by (bit_vector);
        }
        y & 1 == 1
    }

    /// Reads a decimal number, most significant digit first, modulo 2^512.
    pub fn parse_bytes(s: &[u8]) -> (r: LargeUint)
        requires
            is_decimal(s@),
        ensures
            r.value() == decimal_val(s@) % wrap(),
    {
        let mut acc = LargeUint::new();
        let mut i: usize = 0;
        proof {
            assert(s@.take(0) =~= Seq::<u8>::empty());
            assert(decimal_val(s@.take(0)) == 0);
            lemma_limb_base_pos(LIMBS as nat);
            vstd::arithmetic::div_mod::lemma_small_mod(0, wrap());
        }
        while i < s.len()
            invariant
                i <= s.len(),
                is_decimal(s@),
                wrap() > 0,
                acc.value() == decimal_val(s@.take(i as int)) % wrap(),
            decreases s.len() - i,
        {
            let ghost v = decimal_val(s@.take(i as int));
            acc.mul_with_u64(10);
            let ghost m = acc.value();
            let d = s[i] - 48u8;
            let carry = acc.add_from(&LargeUint::from_u64(d as u64));
            proof {
                assert(s@.take(i + 1).drop_last() =~= s@.take(i as int));
                assert(48 <= s@[i as int] <= 57);
                lemma_limbs_bound(acc.elements@);
                lemma_fundamental_div_mod_converse(
                    (m + d) as int,
                    wrap() as int,
                    (if carry { 1int } else { 0int }),
                    acc.value() as int,
                );
                lemma_mul_mod_noop_left(v as int, 10, wrap() as int);
                lemma2_to64();
                lemma_add_mod_noop((v * 10) as int, d as int, wrap() as int);
                assert(d as nat % wrap() == d as nat) by {
                    crate::limbs::lemma_limb_bases();
                    vstd::arithmetic::div_mod::lemma_small_mod(d as nat, wrap());
                }
                vstd::arithmetic::div_mod::lemma_mod_twice((v * 10) as int, wrap() as int);
                lemma_add_mod_noop((m) as int, d as int, wrap() as int);
            }
            i = i + 1;
        }
        proof {
            assert(s@.take(s@.len() as int) =~= s@);
        }
        acc
    }
}

} // verus!
