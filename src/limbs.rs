//! The numeric model of little-endian sequences of 64-bit limbs.
use vstd::prelude::*;
use vstd::arithmetic::div_mod::lemma_small_mod;

verus! {

/// The radix of one limb, 2^64.
pub open spec fn word() -> nat {
    0x1_0000_0000_0000_0000
}

/// The weight of limb `i`, that is 2^(64 i).
pub open spec fn limb_base(i: nat) -> nat
    decreases i,
{
    if i == 0 {
        1
    } else {
        word() * limb_base((i - 1) as nat)
    }
}

/// The number that the limbs `s` stand for, least significant limb first.
pub open spec fn limbs_val(s: Seq<u64>) -> nat
    decreases s.len(),
{
    if s.len() == 0 {
        0
    } else {
        limbs_val(s.drop_last()) + s.last() as nat * limb_base((s.len() - 1) as nat)
    }
}

pub proof fn lemma_limb_base_pos(i: nat)
    ensures
        limb_base(i) > 0,
    decreases i,
{
    if i > 0 {
        lemma_limb_base_pos((i - 1) as nat);
        assert(word() * limb_base((i - 1) as nat) > 0) by (nonlinear_arith)
            requires
                limb_base((i - 1) as nat) > 0,
        ;
    }
}

/// No limbs stand for zero.
pub proof fn lemma_limbs_empty_prefix(s: Seq<u64>)
    ensures
        limbs_val(s.take(0)) == 0,
{
    assert(s.take(0) =~= Seq::<u64>::empty());
}

/// Limbs that are all zero stand for zero.
pub proof fn lemma_limbs_zero(s: Seq<u64>)
    requires
        forall|i: int| 0 <= i < s.len() ==> s[i] == 0,
    ensures
        limbs_val(s) == 0,
    decreases s.len(),
{
    if s.len() > 0 {
        lemma_limbs_zero(s.drop_last());
    }
}

/// Extending a prefix by one limb adds that limb at its weight.
pub proof fn lemma_limbs_prefix(s: Seq<u64>, i: int)
    requires
        0 <= i < s.len(),
    ensures
        limbs_val(s.take(i + 1)) == limbs_val(s.take(i)) + s[i] as nat * limb_base(i as nat),
{
    assert(s.take(i + 1).drop_last() =~= s.take(i));
}

/// The value of `n` limbs is below 2^(64 n).
pub proof fn lemma_limbs_bound(s: Seq<u64>)
    ensures
        limbs_val(s) < limb_base(s.len()),
    decreases s.len(),
{
    if s.len() > 0 {
        let n = (s.len() - 1) as nat;
        lemma_limbs_bound(s.drop_last());
        let a = limbs_val(s.drop_last());
        let b = limb_base(n);
        let l = s.last() as nat;
        assert(a + l * b < word() * b) by (nonlinear_arith)
            requires
                a < b,
                l < word(),
        ;
    }
}

/// The lowest limb splits off: the rest counts in units of 2^64.
pub proof fn lemma_limbs_drop_first(s: Seq<u64>)
    requires
        s.len() > 0,
    ensures
        limbs_val(s) == s[0] as nat + word() * limbs_val(s.drop_first()),
    decreases s.len(),
{
    if s.len() == 1 {
        assert(s.drop_last() =~= Seq::<u64>::empty());
        assert(s.drop_first() =~= Seq::<u64>::empty());
        assert(limbs_val(Seq::<u64>::empty()) == 0);
        assert(limb_base(0) == 1);
    } else {
        let t = s.drop_last();
        lemma_limbs_drop_first(t);
        assert(t.drop_first() =~= s.drop_first().drop_last());
        let n = (s.len() - 2) as nat;
        assert(limb_base(n + 1) == word() * limb_base(n));
        let a = limbs_val(s.drop_first().drop_last());
        let l = s.last() as nat;
        assert(s.drop_first().last() == s.last());
        assert(limbs_val(s.drop_first()) == a + l * limb_base(n));
        assert(t[0] == s[0]);
        let t0 = s[0] as nat;
        let b = limb_base(n);
        assert(limbs_val(s) == t0 + word() * a + l * (word() * b));
        assert(t0 + word() * a + l * (word() * b) == t0 + word() * (a + l * b))
            by (nonlinear_arith);
    }
}

/// The value of eight limbs, written out.
pub proof fn lemma_limbs8(s: Seq<u64>)
    requires
        s.len() == 8,
    ensures
        limbs_val(s) == s[0] as nat + s[1] as nat * limb_base(1) + s[2] as nat * limb_base(2)
            + s[3] as nat * limb_base(3) + s[4] as nat * limb_base(4) + s[5] as nat * limb_base(5)
            + s[6] as nat * limb_base(6) + s[7] as nat * limb_base(7),
{
    assert(s.take(0) =~= Seq::<u64>::empty());
    assert(limbs_val(Seq::<u64>::empty()) == 0);
    assert(limb_base(0) == 1);
    lemma_limbs_prefix(s, 0);
    assert(limbs_val(s.take(0)) == 0);
    assert(s[0] as nat * limb_base(0) == s[0] as nat);
    assert(limbs_val(s.take(1)) == s[0] as nat);
    lemma_limbs_prefix(s, 1);
    lemma_limbs_prefix(s, 2);
    lemma_limbs_prefix(s, 3);
    lemma_limbs_prefix(s, 4);
    lemma_limbs_prefix(s, 5);
    lemma_limbs_prefix(s, 6);
    lemma_limbs_prefix(s, 7);
    assert(limbs_val(s.take(8)) == limbs_val(s.take(7)) + s[7] as nat * limb_base(7));
    assert(s.take(8) =~= s);
}

/// The weights of the eight limbs of a 512-bit number.
pub proof fn lemma_limb_bases()
    ensures
        limb_base(1) == word(),
        limb_base(2) == word() * word(),
        limb_base(3) == word() * word() * word(),
        limb_base(4) == word() * word() * word() * word(),
        limb_base(5) == word() * word() * word() * word() * word(),
        limb_base(6) == word() * word() * word() * word() * word() * word(),
        limb_base(7) == word() * word() * word() * word() * word() * word() * word(),
        limb_base(8) == word() * word() * word() * word() * word() * word() * word() * word(),
{
    reveal_with_fuel(limb_base, 9);
}

/// Limbs of equal value and equal length are the same limbs.
pub proof fn lemma_limbs_injective(s: Seq<u64>, t: Seq<u64>)
    requires
        s.len() == t.len(),
        limbs_val(s) == limbs_val(t),
    ensures
        s == t,
    decreases s.len(),
{
    if s.len() > 0 {
        let n = (s.len() - 1) as nat;
        lemma_limbs_bound(s.drop_last());
        lemma_limbs_bound(t.drop_last());
        lemma_limb_base_pos(n);
        let b = limb_base(n);
        let (a1, l1) = (limbs_val(s.drop_last()), s.last() as nat);
        let (a2, l2) = (limbs_val(t.drop_last()), t.last() as nat);
        assert(l1 == l2 && a1 == a2) by (nonlinear_arith)
            requires
                a1 < b,
                a2 < b,
                a1 + l1 * b == a2 + l2 * b,
        ;
        lemma_limbs_injective(s.drop_last(), t.drop_last());
        assert(s =~= t.drop_last().push(t.last()));
        assert(t =~= t.drop_last().push(t.last()));
    } else {
        assert(s =~= t);
    }
}

/// The lowest `k` base-2^64 digits of `n`.
pub open spec fn digits(n: nat, k: nat) -> Seq<u64>
    decreases k,
{
    if k == 0 {
        Seq::empty()
    } else {
        digits(n, (k - 1) as nat).push(((n / limb_base((k - 1) as nat)) % word()) as u64)
    }
}

/// The limbs of a number below 2^512.
pub open spec fn limbs_arr(n: nat) -> [u64; 8] {
    let d = digits(n, 8);
    [d[0], d[1], d[2], d[3], d[4], d[5], d[6], d[7]]
}

/// The digits stand for the number modulo 2^(64 k).
pub proof fn lemma_digits(n: nat, k: nat)
    ensures
        digits(n, k).len() == k,
        limbs_val(digits(n, k)) == n % limb_base(k),
    decreases k,
{
    lemma_limb_base_pos(k);
    if k == 0 {
        assert(limb_base(0) == 1);
        assert(n % 1 == 0) by (nonlinear_arith);
        assert(digits(n, 0) =~= Seq::<u64>::empty());
    } else {
        let j = (k - 1) as nat;
        lemma_digits(n, j);
        lemma_limb_base_pos(j);
        let d = digits(n, k);
        assert(d.drop_last() =~= digits(n, j));
        vstd::arithmetic::div_mod::lemma_mod_breakdown(n as int, limb_base(j) as int, word() as int);
        assert(limb_base(k) == limb_base(j) * word()) by (nonlinear_arith)
            requires
                limb_base(k) == word() * limb_base(j),
        ;
        let q = (n / limb_base(j)) % word();
        assert(q < word());
        assert(d.last() as nat == q);
        assert(limbs_val(d) == limbs_val(digits(n, j)) + q * limb_base(j));
        assert(q * limb_base(j) == limb_base(j) * q) by (nonlinear_arith);
    }
}

} // verus!
