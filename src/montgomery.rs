//! Montgomery curves y^2 = x^3 + A x^2 + x and their x-only point arithmetic.
use vstd::prelude::*;
use crate::consts::{lemma_consts, prime, GAL_1};
use crate::galois::{
    fadd, fmul, fpow, fsub, lemma_element_of_props, lemma_field_ops_bound, lemma_from_mont_bound,
    GaloisElement,
};
use crate::large_uint::{bits_spec, LargeUint};

verus! {

broadcast use lemma_element_of_props, lemma_field_ops_bound, lemma_from_mont_bound;

/// Field squaring on canonical representatives.
pub open spec fn fsq(a: nat) -> nat {
    fmul(a, a)
}

/// x-only differential addition: the x-coordinate of P + Q from those of P, Q and P - Q.
pub open spec fn xadd(p: (nat, nat), q: (nat, nat), d: (nat, nat)) -> (nat, nat) {
    let u = fmul(fsub(q.0, q.1), fadd(p.0, p.1));
    let v = fmul(fadd(q.0, q.1), fsub(p.0, p.1));
    (fmul(d.1, fsq(fadd(u, v))), fmul(d.0, fsq(fsub(u, v))))
}

/// x(P + Q) in closed form from P = (X1 : Z1), Q = (X2 : Z2) and P - Q = (Xd : Zd):
/// (4 Zd (X1 X2 - Z1 Z2)^2 : 4 Xd (X2 Z1 - X1 Z2)^2).
pub open spec fn xadd_closed(p: (nat, nat), q: (nat, nat), d: (nat, nat)) -> (nat, nat) {
    (
        fmul(4, fmul(d.1, fsq(fsub(fmul(p.0, q.0), fmul(p.1, q.1))))),
        fmul(4, fmul(d.0, fsq(fsub(fmul(q.0, p.1), fmul(p.0, q.1))))),
    )
}

/// x(2P) in closed form on the curve (A : C) for P = (X : Z):
/// (4 C (X^2 - Z^2)^2 : 16 X Z (C X^2 + A X Z + C Z^2)).
pub open spec fn xdbl_closed(p: (nat, nat), c: (nat, nat)) -> (nat, nat) {
    (
        fmul(4, fmul(c.1, fsq(fsub(fsq(p.0), fsq(p.1))))),
        fmul(
            16,
            fmul(
                fmul(p.0, p.1),
                fadd(fadd(fmul(c.1, fsq(p.0)), fmul(c.0, fmul(p.0, p.1))), fmul(c.1, fsq(p.1))),
            ),
        ),
    )
}

/// A field sum of representatives of A and B represents A + B.
proof fn lemma_fadd_int(a: nat, b: nat, x: int, y: int)
    requires
        a as int == x % (prime() as int),
        b as int == y % (prime() as int),
    ensures
        fadd(a, b) as int == (x + y) % (prime() as int),
{
    lemma_consts();
    vstd::arithmetic::div_mod::lemma_add_mod_noop(x, y, prime() as int);
}

/// A field difference of representatives of A and B represents A - B.
proof fn lemma_fsub_int(a: nat, b: nat, x: int, y: int)
    requires
        a as int == x % (prime() as int),
        b as int == y % (prime() as int),
    ensures
        fsub(a, b) as int == (x - y) % (prime() as int),
{
    lemma_consts();
    vstd::arithmetic::div_mod::lemma_sub_mod_noop(x, y, prime() as int);
}

/// A field product of representatives of A and B represents A * B.
proof fn lemma_fmul_int(a: nat, b: nat, x: int, y: int)
    requires
        a as int == x % (prime() as int),
        b as int == y % (prime() as int),
    ensures
        fmul(a, b) as int == (x * y) % (prime() as int),
{
    lemma_consts();
    vstd::arithmetic::div_mod::lemma_mul_mod_noop(x, y, prime() as int);
}

/// Differential addition in closed form: for P = (X1 : Z1), Q = (X2 : Z2) and
/// P - Q = (Xd : Zd), P + Q = (4 Zd (X1 X2 - Z1 Z2)^2 : 4 Xd (X2 Z1 - X1 Z2)^2).
pub proof fn lemma_xadd_closed_form(p: (nat, nat), q: (nat, nat), d: (nat, nat))
    requires
        p.0 < prime(),
        p.1 < prime(),
        q.0 < prime(),
        q.1 < prime(),
        d.0 < prime(),
        d.1 < prime(),
    ensures
        xadd(p, q, d) == xadd_closed(p, q, d),
{
    lemma_consts();
    let m = prime() as int;
    let (x1, z1, x2, z2, xd, zd) = (p.0 as int, p.1 as int, q.0 as int, q.1 as int, d.0 as int, d.1 as int);
    vstd::arithmetic::div_mod::lemma_small_mod(p.0, prime());
    vstd::arithmetic::div_mod::lemma_small_mod(p.1, prime());
    vstd::arithmetic::div_mod::lemma_small_mod(q.0, prime());
    vstd::arithmetic::div_mod::lemma_small_mod(q.1, prime());
    vstd::arithmetic::div_mod::lemma_small_mod(d.0, prime());
    vstd::arithmetic::div_mod::lemma_small_mod(d.1, prime());
    vstd::arithmetic::div_mod::lemma_small_mod(4, prime());
    // The step-by-step form.
    let s1 = fadd(p.0, p.1);
    lemma_fadd_int(p.0, p.1, x1, z1);
    let d1 = fsub(p.0, p.1);
    lemma_fsub_int(p.0, p.1, x1, z1);
    let s2 = fadd(q.0, q.1);
    lemma_fadd_int(q.0, q.1, x2, z2);
    let d2 = fsub(q.0, q.1);
    lemma_fsub_int(q.0, q.1, x2, z2);
    let u = fmul(d2, s1);
    lemma_fmul_int(d2, s1, x2 - z2, x1 + z1);
    let v = fmul(s2, d1);
    lemma_fmul_int(s2, d1, x2 + z2, x1 - z1);
    let uu = (x2 - z2) * (x1 + z1);
    let vv = (x2 + z2) * (x1 - z1);
    lemma_fadd_int(u, v, uu, vv);
    lemma_fsub_int(u, v, uu, vv);
    lemma_fmul_int(fadd(u, v), fadd(u, v), uu + vv, uu + vv);
    lemma_fmul_int(fsub(u, v), fsub(u, v), uu - vv, uu - vv);
    lemma_fmul_int(d.1, fsq(fadd(u, v)), zd, (uu + vv) * (uu + vv));
    lemma_fmul_int(d.0, fsq(fsub(u, v)), xd, (uu - vv) * (uu - vv));
    // The closed form.
    let a = x1 * x2 - z1 * z2;
    let b = x2 * z1 - x1 * z2;
    lemma_fmul_int(p.0, q.0, x1, x2);
    lemma_fmul_int(p.1, q.1, z1, z2);
    lemma_fsub_int(fmul(p.0, q.0), fmul(p.1, q.1), x1 * x2, z1 * z2);
    lemma_fmul_int(fsub(fmul(p.0, q.0), fmul(p.1, q.1)), fsub(fmul(p.0, q.0), fmul(p.1, q.1)), a, a);
    lemma_fmul_int(d.1, fsq(fsub(fmul(p.0, q.0), fmul(p.1, q.1))), zd, a * a);
    lemma_fmul_int(4, fmul(d.1, fsq(fsub(fmul(p.0, q.0), fmul(p.1, q.1)))), 4, zd * (a * a));
    lemma_fmul_int(q.0, p.1, x2, z1);
    lemma_fmul_int(p.0, q.1, x1, z2);
    lemma_fsub_int(fmul(q.0, p.1), fmul(p.0, q.1), x2 * z1, x1 * z2);
    lemma_fmul_int(fsub(fmul(q.0, p.1), fmul(p.0, q.1)), fsub(fmul(q.0, p.1), fmul(p.0, q.1)), b, b);
    lemma_fmul_int(d.0, fsq(fsub(fmul(q.0, p.1), fmul(p.0, q.1))), xd, b * b);
    lemma_fmul_int(4, fmul(d.0, fsq(fsub(fmul(q.0, p.1), fmul(p.0, q.1)))), 4, xd * (b * b));
    // The two agree as integers.
    assert(zd * ((uu + vv) * (uu + vv)) == 4 * (zd * (a * a))) by (nonlinear_arith)
        requires
            uu == (x2 - z2) * (x1 + z1),
            vv == (x2 + z2) * (x1 - z1),
            a == x1 * x2 - z1 * z2,
    ;
    assert(xd * ((uu - vv) * (uu - vv)) == 4 * (xd * (b * b))) by (nonlinear_arith)
        requires
            uu == (x2 - z2) * (x1 + z1),
            vv == (x2 + z2) * (x1 - z1),
            b == x2 * z1 - x1 * z2,
    ;
}

/// Doubling in closed form on the curve (A : C): for P = (X : Z),
/// 2P = (4 C (X^2 - Z^2)^2 : 16 X Z (C X^2 + A X Z + C Z^2)).
pub proof fn lemma_xdbl_closed_form(p: (nat, nat), c: (nat, nat))
    requires
        p.0 < prime(),
        p.1 < prime(),
        c.0 < prime(),
        c.1 < prime(),
    ensures
        xdbl(p, c) == xdbl_closed(p, c),
{
    lemma_consts();
    let (x, z, ca, cc) = (p.0 as int, p.1 as int, c.0 as int, c.1 as int);
    vstd::arithmetic::div_mod::lemma_small_mod(p.0, prime());
    vstd::arithmetic::div_mod::lemma_small_mod(p.1, prime());
    vstd::arithmetic::div_mod::lemma_small_mod(c.0, prime());
    vstd::arithmetic::div_mod::lemma_small_mod(c.1, prime());
    vstd::arithmetic::div_mod::lemma_small_mod(4, prime());
    vstd::arithmetic::div_mod::lemma_small_mod(16, prime());
    // The step-by-step form.
    let sp = fadd(p.0, p.1);
    lemma_fadd_int(p.0, p.1, x, z);
    let dp = fsub(p.0, p.1);
    lemma_fsub_int(p.0, p.1, x, z);
    let s = fsq(sp);
    lemma_fmul_int(sp, sp, x + z, x + z);
    let d = fsq(dp);
    lemma_fmul_int(dp, dp, x - z, x - z);
    let si = (x + z) * (x + z);
    let di = (x - z) * (x - z);
    let e = fsub(s, d);
    lemma_fsub_int(s, d, si, di);
    lemma_fadd_int(d, d, di, di);
    lemma_fadd_int(fadd(d, d), fadd(d, d), di + di, di + di);
    let d4 = fmul(fadd(fadd(d, d), fadd(d, d)), c.1);
    lemma_fmul_int(fadd(fadd(d, d), fadd(d, d)), c.1, di + di + (di + di), cc);
    let d4i = (di + di + (di + di)) * cc;
    lemma_fmul_int(s, d4, si, d4i);
    lemma_fadd_int(c.1, c.1, cc, cc);
    lemma_fadd_int(fadd(c.1, c.1), c.0, cc + cc, ca);
    lemma_fmul_int(fadd(fadd(c.1, c.1), c.0), e, cc + cc + ca, si - di);
    lemma_fadd_int(fmul(fadd(fadd(c.1, c.1), c.0), e), d4, (cc + cc + ca) * (si - di), d4i);
    lemma_fmul_int(
        fadd(fmul(fadd(fadd(c.1, c.1), c.0), e), d4),
        e,
        (cc + cc + ca) * (si - di) + d4i,
        si - di,
    );
    // The closed form.
    lemma_fmul_int(p.0, p.0, x, x);
    lemma_fmul_int(p.1, p.1, z, z);
    lemma_fsub_int(fsq(p.0), fsq(p.1), x * x, z * z);
    let w = x * x - z * z;
    lemma_fmul_int(fsub(fsq(p.0), fsq(p.1)), fsub(fsq(p.0), fsq(p.1)), w, w);
    lemma_fmul_int(c.1, fsq(fsub(fsq(p.0), fsq(p.1))), cc, w * w);
    lemma_fmul_int(4, fmul(c.1, fsq(fsub(fsq(p.0), fsq(p.1)))), 4, cc * (w * w));
    lemma_fmul_int(p.0, p.1, x, z);
    lemma_fmul_int(c.1, fsq(p.0), cc, x * x);
    lemma_fmul_int(c.0, fmul(p.0, p.1), ca, x * z);
    lemma_fmul_int(c.1, fsq(p.1), cc, z * z);
    lemma_fadd_int(fmul(c.1, fsq(p.0)), fmul(c.0, fmul(p.0, p.1)), cc * (x * x), ca * (x * z));
    let g = cc * (x * x) + ca * (x * z) + cc * (z * z);
    lemma_fadd_int(
        fadd(fmul(c.1, fsq(p.0)), fmul(c.0, fmul(p.0, p.1))),
        fmul(c.1, fsq(p.1)),
        cc * (x * x) + ca * (x * z),
        cc * (z * z),
    );
    lemma_fmul_int(fmul(p.0, p.1), fadd(fadd(fmul(c.1, fsq(p.0)), fmul(c.0, fmul(p.0, p.1))), fmul(c.1, fsq(p.1))), x * z, g);
    lemma_fmul_int(16, fmul(fmul(p.0, p.1), fadd(fadd(fmul(c.1, fsq(p.0)), fmul(c.0, fmul(p.0, p.1))), fmul(c.1, fsq(p.1)))), 16, (x * z) * g);
    // The two agree as integers.
    assert(si * d4i == 4 * (cc * (w * w))) by (nonlinear_arith)
        requires
            si == (x + z) * (x + z),
            di == (x - z) * (x - z),
            d4i == (di + di + (di + di)) * cc,
            w == x * x - z * z,
    ;
    let t = x * z;
    let xx = x * x;
    let zz = z * z;
    assert(si - di == 4 * t) by (nonlinear_arith)
        requires
            si == (x + z) * (x + z),
            di == (x - z) * (x - z),
            t == x * z,
    ;
    assert(di == xx - 2 * t + zz) by (nonlinear_arith)
        requires
            di == (x - z) * (x - z),
            t == x * z,
            xx == x * x,
            zz == z * z,
    ;
    assert(d4i == 4 * (cc * xx) - 8 * (cc * t) + 4 * (cc * zz)) by (nonlinear_arith)
        requires
            d4i == (di + di + (di + di)) * cc,
            di == xx - 2 * t + zz,
    ;
    assert((cc + cc + ca) * (4 * t) + d4i == 4 * g) by (nonlinear_arith)
        requires
            d4i == 4 * (cc * xx) - 8 * (cc * t) + 4 * (cc * zz),
            g == cc * xx + ca * t + cc * zz,
    ;
    assert((4 * g) * (4 * t) == 16 * (t * g)) by (nonlinear_arith);
}

/// The ladder step is a doubling and a differential addition: in closed form,
/// (x(2P), x(P + Q)) given P - Q.
pub proof fn lemma_xdbladd_closed_form(p: (nat, nat), q: (nat, nat), pq: (nat, nat), c: (nat, nat))
    requires
        p.0 < prime(),
        p.1 < prime(),
        q.0 < prime(),
        q.1 < prime(),
        pq.0 < prime(),
        pq.1 < prime(),
        c.0 < prime(),
        c.1 < prime(),
    ensures
        xdbladd(p, q, pq, c) == (xdbl_closed(p, c), xadd_closed(p, q, pq)),
{
    lemma_consts();
    let (x, z, ca, cc) = (p.0 as int, p.1 as int, c.0 as int, c.1 as int);
    vstd::arithmetic::div_mod::lemma_small_mod(p.0, prime());
    vstd::arithmetic::div_mod::lemma_small_mod(p.1, prime());
    vstd::arithmetic::div_mod::lemma_small_mod(c.0, prime());
    vstd::arithmetic::div_mod::lemma_small_mod(c.1, prime());
    // Shared pieces.
    let sp = fadd(p.0, p.1);
    lemma_fadd_int(p.0, p.1, x, z);
    let dp = fsub(p.0, p.1);
    lemma_fsub_int(p.0, p.1, x, z);
    let s = fsq(sp);
    lemma_fmul_int(sp, sp, x + z, x + z);
    let d = fsq(dp);
    lemma_fmul_int(dp, dp, x - z, x - z);
    let si = (x + z) * (x + z);
    let di = (x - z) * (x - z);
    let e = fsub(s, d);
    lemma_fsub_int(s, d, si, di);
    let ei = si - di;
    // The doubling inside the ladder step.
    let z2 = fadd(c.1, c.1);
    lemma_fadd_int(c.1, c.1, cc, cc);
    let t = fmul(z2, d);
    lemma_fmul_int(z2, d, cc + cc, di);
    let t2 = fadd(t, t);
    lemma_fadd_int(t, t, (cc + cc) * di, (cc + cc) * di);
    let t2i = (cc + cc) * di + (cc + cc) * di;
    lemma_fmul_int(s, t2, si, t2i);
    let g = fmul(fadd(c.0, z2), e);
    lemma_fadd_int(c.0, z2, ca, cc + cc);
    lemma_fmul_int(fadd(c.0, z2), e, ca + (cc + cc), ei);
    lemma_fadd_int(t2, g, t2i, (ca + (cc + cc)) * ei);
    lemma_fmul_int(fadd(t2, g), e, t2i + (ca + (cc + cc)) * ei, ei);
    // The doubling on its own.
    lemma_fadd_int(d, d, di, di);
    lemma_fadd_int(fadd(d, d), fadd(d, d), di + di, di + di);
    let d4 = fmul(fadd(fadd(d, d), fadd(d, d)), c.1);
    lemma_fmul_int(fadd(fadd(d, d), fadd(d, d)), c.1, di + di + (di + di), cc);
    let d4i = (di + di + (di + di)) * cc;
    lemma_fmul_int(s, d4, si, d4i);
    lemma_fadd_int(fadd(c.1, c.1), c.0, cc + cc, ca);
    lemma_fmul_int(fadd(fadd(c.1, c.1), c.0), e, cc + cc + ca, ei);
    lemma_fadd_int(fmul(fadd(fadd(c.1, c.1), c.0), e), d4, (cc + cc + ca) * ei, d4i);
    lemma_fmul_int(fadd(fmul(fadd(fadd(c.1, c.1), c.0), e), d4), e, (cc + cc + ca) * ei + d4i, ei);
    assert(si * t2i == si * d4i) by (nonlinear_arith)
        requires
            t2i == (cc + cc) * di + (cc + cc) * di,
            d4i == (di + di + (di + di)) * cc,
    ;
    assert((t2i + (ca + (cc + cc)) * ei) * ei == ((cc + cc + ca) * ei + d4i) * ei)
        by (nonlinear_arith)
        requires
            t2i == (cc + cc) * di + (cc + cc) * di,
            d4i == (di + di + (di + di)) * cc,
    ;
    assert(xdbladd(p, q, pq, c).0 == xdbl(p, c));
    lemma_xdbl_closed_form(p, c);
    // The addition inside the ladder step.
    let u = fmul(fsub(q.0, q.1), fadd(p.0, p.1));
    let v = fmul(fadd(q.0, q.1), fsub(p.0, p.1));
    assert(fmul(fadd(p.0, p.1), fsub(q.0, q.1)) == u) by {
        assert(fadd(p.0, p.1) * fsub(q.0, q.1) == fsub(q.0, q.1) * fadd(p.0, p.1))
            by (nonlinear_arith);
    }
    assert(fmul(fsub(p.0, p.1), fadd(q.0, q.1)) == v) by {
        assert(fsub(p.0, p.1) * fadd(q.0, q.1) == fadd(q.0, q.1) * fsub(p.0, p.1))
            by (nonlinear_arith);
    }
    assert(xdbladd(p, q, pq, c).1 == xadd(p, q, pq));
    lemma_xadd_closed_form(p, q, pq);
}

/// x-only doubling on y^2 = x^3 + a x^2 + x, through (a + 2) / 4.
pub open spec fn xdbl_affine(p: (nat, nat), a: nat) -> (nat, nat) {
    let s = fsq(fadd(p.0, p.1));
    let d = fsq(fsub(p.0, p.1));
    let e = fsub(s, d);
    let a24 = fmul(fadd(a, 2), fpow(4, (prime() - 2) as nat));
    (fmul(s, d), fmul(e, fadd(fmul(e, a24), d)))
}

/// x-only doubling on the curve whose coefficient is the projective pair c = (A : C).
pub open spec fn xdbl(p: (nat, nat), c: (nat, nat)) -> (nat, nat) {
    let s = fsq(fadd(p.0, p.1));
    let d = fsq(fsub(p.0, p.1));
    let e = fsub(s, d);
    let d4 = fmul(fadd(fadd(d, d), fadd(d, d)), c.1);
    (fmul(s, d4), fmul(fadd(fmul(fadd(fadd(c.1, c.1), c.0), e), d4), e))
}

/// One ladder step: the double of P, and P + Q given P - Q, on the curve c = (A : C).
pub open spec fn xdbladd(p: (nat, nat), q: (nat, nat), pq: (nat, nat), c: (nat, nat)) -> (
    (nat, nat),
    (nat, nat),
) {
    let a = fadd(q.0, q.1);
    let b = fsub(q.0, q.1);
    let cc = fadd(p.0, p.1);
    let dd = fsub(p.0, p.1);
    let s2 = fsq(cc);
    let d2 = fsq(dd);
    let cb = fmul(cc, b);
    let da = fmul(dd, a);
    let e = fsub(s2, d2);
    let z2 = fadd(c.1, c.1);
    let t = fmul(z2, d2);
    let t2 = fadd(t, t);
    let g = fmul(fadd(c.0, z2), e);
    (
        (fmul(s2, t2), fmul(fadd(t2, g), e)),
        (fmul(pq.1, fsq(fadd(cb, da))), fmul(pq.0, fsq(fsub(cb, da)))),
    )
}

/// The Montgomery ladder for `k`, on the bits of `k` from the top down to bit `i`:
/// starting from (infinity, P), a clear bit maps (R0, R1) to (2 R0, R0 + R1) and a set
/// bit maps it to (R0 + R1, 2 R1), on the curve c = (A : C).
pub open spec fn ladder2_state(p: (nat, nat), c: (nat, nat), k: LargeUint, i: nat) -> (
    (nat, nat),
    (nat, nat),
)
    decreases bits_spec(k) - i,
{
    if i >= bits_spec(k) {
        ((1, 0), p)
    } else {
        let (r0, r1) = ladder2_state(p, c, k, i + 1);
        if k.bit_spec(i) {
            let (d, s) = xdbladd(r1, r0, p, c);
            (s, d)
        } else {
            xdbladd(r0, r1, p, c)
        }
    }
}

/// The ladder of [`ProjectivePoint::ladder`] on y^2 = x^3 + a x^2 + x: it starts from
/// (P, 2P) at the top bit of `k` and keeps R1 - R0 = P on each lower bit down to `i`.
pub open spec fn ladder_state(p: (nat, nat), a: nat, k: LargeUint, i: nat) -> (
    (nat, nat),
    (nat, nat),
)
    decreases bits_spec(k) - i,
{
    if i + 1 >= bits_spec(k) {
        (p, xdbl_affine(p, a))
    } else {
        let (x0, x1) = ladder_state(p, a, k, i + 1);
        if k.bit_spec(i) {
            (xadd(x0, x1, p), xdbl_affine(x1, a))
        } else {
            (xdbl_affine(x0, a), xadd(x0, x1, p))
        }
    }
}

/// The right-hand side x (x^2 + a x + 1) of y^2 = x^3 + a x^2 + x.
pub open spec fn rhs(a: nat, x: nat) -> nat {
    fmul(fadd(fadd(fsq(x), fmul(a, x)), 1), x)
}

/// The state of the isogeny evaluation: the accumulators t[0..4], the image accumulator
/// Q = (Qx : Qz), and the window of three consecutive multiples of the kernel point.
pub type IsoState = (Seq<nat>, (nat, nat), Seq<(nat, nat)>);

/// Before the first round: t = [Kz, Kx, Kx, Kz],
/// Q = (Px Kx - Pz Kz : Px Kz - Pz Kx), window [K, 2K, K].
pub open spec fn iso_start(a: (nat, nat), p: (nat, nat), k: (nat, nat)) -> IsoState {
    (
        seq![k.1, k.0, k.0, k.1],
        (fsub(fmul(p.0, k.0), fmul(p.1, k.1)), fsub(fmul(p.0, k.1), fmul(p.1, k.0))),
        seq![k, xdbl(k, a), k],
    )
}

/// Round `i`: from round 2 on the window slot i mod 3 moves to the next multiple iK by a
/// differential addition; then iK is folded into t and into Q.
pub open spec fn iso_round(st: IsoState, i: nat, p: (nat, nat), k: (nat, nat)) -> IsoState {
    let w = if i >= 2 {
        st.2.update((i % 3) as int, xadd(st.2[((i - 1) % 3) as int], k, st.2[((i - 2) % 3) as int]))
    } else {
        st.2
    };
    let mi = w[(i % 3) as int];
    let t = st.0;
    (
        seq![
            fadd(fmul(mi.0, t[0]), fmul(mi.1, t[1])),
            fmul(t[1], mi.0),
            fadd(fmul(mi.1, t[2]), fmul(mi.0, t[3])),
            fmul(t[3], mi.1),
        ],
        (
            fmul(st.1.0, fsub(fmul(p.0, mi.0), fmul(p.1, mi.1))),
            fmul(st.1.1, fsub(fmul(p.0, mi.1), fmul(p.1, mi.0))),
        ),
        w,
    )
}

/// The state after rounds 1 .. n - 1.
pub open spec fn iso_rounds(a: (nat, nat), p: (nat, nat), k: (nat, nat), n: nat) -> IsoState
    decreases n,
{
    if n <= 1 {
        iso_start(a, p, k)
    } else {
        iso_round(iso_rounds(a, p, k, (n - 1) as nat), (n - 1) as nat, p, k)
    }
}

/// The codomain coefficient (A' : C') and the image of P, from the final state.
pub open spec fn iso_finish(st: IsoState, a: (nat, nat), p: (nat, nat)) -> ((nat, nat), (nat, nat)) {
    let t = st.0;
    let t0 = fmul(t[0], t[1]);
    let t0 = fadd(t0, t0);
    let t1 = fsq(t[1]);
    let t2 = fmul(t[2], t[3]);
    let t2 = fadd(t2, t2);
    let t3 = fsq(t[3]);
    let u = fmul(fsub(fmul(t1, t2), fmul(t0, t3)), a.1);
    let u3 = fadd(u, fadd(u, u));
    let w = fmul(fmul(t1, t3), a.0);
    ((fsub(w, u3), fmul(a.1, fsq(t3))), (fmul(p.0, fsq(st.1.0)), fmul(p.1, fsq(st.1.1))))
}

/// The number of rounds an l-isogeny runs, plus one.
pub open spec fn iso_count(l: u64) -> nat {
    if l / 2 >= 1 {
        (l / 2) as nat
    } else {
        1
    }
}

/// What an l-isogeny with kernel K does to the curve (A : C) and to the point P.
pub open spec fn isogeny_spec(a: (nat, nat), p: (nat, nat), k: (nat, nat), l: u64) -> (
    (nat, nat),
    (nat, nat),
) {
    iso_finish(iso_rounds(a, p, k, iso_count(l)), a, p)
}

/// The values of four field elements.
pub open spec fn vals4(t: [GaloisElement; 4]) -> Seq<nat> {
    seq![t[0].val(), t[1].val(), t[2].val(), t[3].val()]
}

/// The coordinates of three points.
pub open spec fn pts3(m: [ProjectivePoint; 3]) -> Seq<(nat, nat)> {
    seq![m[0]@, m[1]@, m[2]@]
}

/// The projective image of the affine point (x, y) with Z = z: infinity when x or z is zero.
pub open spec fn projectivize_spec(x: nat, z: nat) -> (nat, nat) {
    if x == 0 || z == 0 {
        (1, 0)
    } else {
        (x, 1)
    }
}

/// The y-recovery of Okeya and Sakurai: from the affine P = (px, py), [k]P = q and
/// [k+1]P = o in x-only form, on B y^2 = x^3 + a x^2 + x, the projective (X, Y, Z) of [k]P.
pub open spec fn recover_spec(
    px: nat,
    py: nat,
    a: nat,
    b: nat,
    q: (nat, nat),
    o: (nat, nat),
) -> (nat, nat, nat) {
    let v1 = fmul(px, q.1);
    let v2 = fadd(q.0, v1);
    let v3 = fmul(fsq(fsub(q.0, v1)), o.0);
    let v1 = fmul(fmul(q.1, 2), a);
    let v2 = fadd(v2, v1);
    let v4 = fadd(fmul(px, q.0), q.1);
    let v2 = fmul(v2, v4);
    let v1 = fmul(v1, q.1);
    let v2 = fmul(fsub(v2, v1), o.1);
    let y = fsub(v2, v3);
    let v1 = fmul(fmul(fmul(fmul(py, 2), b), q.1), o.1);
    (fmul(v1, q.0), y, fmul(v1, q.1))
}

/// A Montgomery curve B y^2 = x^3 + A x^2 + x.
#[derive(Debug, Clone, Copy)]
pub struct Curve {
    pub a: GaloisElement,
    pub b: GaloisElement,
}

impl PartialEq for Curve {
    fn eq(&self, other: &Curve) -> bool {
        self.a == other.a && self.b == other.b
    }
}

impl vstd::std_specs::cmp::PartialEqSpecImpl for Curve {
    open spec fn obeys_eq_spec() -> bool {
        true
    }

    open spec fn eq_spec(&self, other: &Curve) -> bool {
        self.a.elements@ == other.a.elements@ && self.b.elements@ == other.b.elements@
    }
}

/// A point of a curve in projective coordinates (X : Y : Z).
#[derive(Debug, Clone, Copy)]
pub struct Point {
    pub curve: Curve,
    pub x: GaloisElement,
    pub y: GaloisElement,
    pub z: GaloisElement,
}

impl PartialEq for Point {
    fn eq(&self, other: &Point) -> bool {
        self.curve == other.curve && self.x == other.x && self.y == other.y && self.z == other.z
    }
}

impl vstd::std_specs::cmp::PartialEqSpecImpl for Point {
    open spec fn obeys_eq_spec() -> bool {
        true
    }

    open spec fn eq_spec(&self, other: &Point) -> bool {
        self.curve.a.elements@ == other.curve.a.elements@ && self.curve.b.elements@
            == other.curve.b.elements@ && self.x.elements@ == other.x.elements@ && self.y.elements@
            == other.y.elements@ && self.z.elements@ == other.z.elements@
    }
}

impl Curve {
    /// Both coefficients are reduced.
    pub open spec fn wf(self) -> bool {
        self.a.wf() && self.b.wf()
    }

    /// The curve with coefficients `a mod p` and `b mod p`.
    pub fn new(a: LargeUint, b: LargeUint) -> (r: Curve)
        ensures
            r.wf(),
            r.a.val() == a.value() % prime(),
            r.b.val() == b.value() % prime(),
    {
        Curve { a: GaloisElement::from_large_uint(a), b: GaloisElement::from_large_uint(b) }
    }

    /// Whether the affine point (x, y) lies on the curve: B y^2 == x^3 + A x^2 + x.
    pub fn contains(&self, p: &Point) -> (r: bool)
        requires
            self.wf(),
            p.wf(),
        ensures
            r == (fmul(fsq(p.y.val()), self.b.val()) == rhs(self.a.val(), p.x.val())),
    {
        let left = (p.y * p.y) * self.b;
        let right = Curve::right_side(&self.a, &p.x);
        proof {
            if left.val() == right.val() {
                crate::galois::lemma_unique_repr(left, right);
            }
        }
        left == right
    }

    /// The y-recovery of Okeya and Sakurai: from the affine `p`, `q` = [k]P and
    /// `o` = [k+1]P in x-only form, the projective (X : Y : Z) of [k]P.
    pub fn recover(p: &Point, q: &ProjectivePoint, o: &ProjectivePoint) -> (r: Point)
        requires
            p.wf(),
            q.wf(),
            o.wf(),
        ensures
            r.wf(),
            r.curve == p.curve,
            (r.x.val(), r.y.val(), r.z.val()) == recover_spec(
                p.x.val(),
                p.y.val(),
                p.curve.a.val(),
                p.curve.b.val(),
                q@,
                o@,
            ),
    {
        proof {
            lemma_consts();
            vstd::arithmetic::div_mod::lemma_small_mod(2, prime());
        }
        let v1 = p.x * q.z;
        let v2 = q.x + v1;
        let v3 = q.x - v1;
        let v3 = v3 * v3;
        let v3 = v3 * o.x;
        let v1 = q.z * GaloisElement::from_u64(2) * p.curve.a;
        let v2 = v2 + v1;
        let v4 = p.x * q.x;
        let v4 = v4 + q.z;
        let v2 = v2 * v4;
        let v1 = v1 * q.z;
        let v2 = v2 - v1;
        let v2 = v2 * o.z;
        let y = v2 - v3;
        let v1 = p.y * GaloisElement::from_u64(2) * p.curve.b;
        let v1 = v1 * q.z;
        let v1 = v1 * o.z;
        let x = v1 * q.x;
        let z = v1 * q.z;
        Point { curve: p.curve, x, y, z }
    }

    /// x (x^2 + a x + 1), the right-hand side of y^2 = x^3 + a x^2 + x.
    pub fn right_side(a: &GaloisElement, x: &GaloisElement) -> (r: GaloisElement)
        requires
            a.wf(),
            x.wf(),
        ensures
            r.wf(),
            r.val() == rhs(a.val(), x.val()),
    {
        proof {
            lemma_consts();
            crate::galois::lemma_from_mont_one();
        }
        let mut ret = *x;
        ret.square();
        let t = *a * *x;
        ret.add_from(&t);
        ret.add_from(&GaloisElement { elements: GAL_1 });
        ret.mul_with(x);
        ret
    }

    /// The l-isogeny with kernel generated by `k` (of order l): replaces the curve `a`
    /// = (A : C) by the codomain and pushes the point `p` through.
    pub fn isogeny(a: &mut ProjectivePoint, p: &mut ProjectivePoint, k: &ProjectivePoint, l: u64)
        requires
            old(a).wf(),
            old(p).wf(),
            k.wf(),
        ensures
            final(a).wf(),
            final(p).wf(),
            (final(a)@, final(p)@) == isogeny_spec(old(a)@, old(p)@, k@, l),
    {
        proof {
            lemma_consts();
            vstd::arithmetic::div_mod::lemma_small_mod(1, prime());
        }
        let ghost a0 = a@;
        let ghost p0 = p@;
        let mut t = [k.z, k.x, k.x, k.z];
        let mut tmp0: GaloisElement;
        let mut tmp1: GaloisElement;
        let mut q = ProjectivePoint::new(GaloisElement::from_u64(1), GaloisElement::from_u64(1));
        q.x = p.x * k.x;
        tmp0 = p.z * k.z;
        q.x.sub_from(&tmp0);
        q.z = p.x * k.z;
        tmp0 = p.z * k.x;
        q.z.sub_from(&tmp0);
        let mut m = [*k; 3];
        m[1] = k.double2(&a);
        proof {
            assert(vals4(t) =~= iso_start(a0, p0, k@).0);
            assert(pts3(m) =~= iso_start(a0, p0, k@).2);
        }
        let n = l / 2;
        let mut i: u64 = 1;
        while i < n
            invariant
                1 <= i,
                i <= n || i == 1,
                n == l / 2,
                a@ == a0,
                p@ == p0,
                a.wf(),
                p.wf(),
                k.wf(),
                q.wf(),
                forall|j: int| 0 <= j < 4 ==> (#[trigger] t[j]).wf(),
                forall|j: int| 0 <= j < 3 ==> (#[trigger] m[j]).wf(),
                vals4(t) == iso_rounds(a0, p0, k@, i as nat).0,
                q@ == iso_rounds(a0, p0, k@, i as nat).1,
                pts3(m) == iso_rounds(a0, p0, k@, i as nat).2,
            decreases n - i,
        {
            let ghost st = iso_rounds(a0, p0, k@, i as nat);
            let j = (i % 3) as usize;
            if i >= 2 {
                m[j] = m[((i - 1) % 3) as usize].add(k, &m[((i - 2) % 3) as usize]);
            }
            proof {
                let w = if i >= 2 {
                    st.2.update((i % 3) as int, xadd(st.2[((i - 1) % 3) as int], k@, st.2[((i - 2) % 3) as int]))
                } else {
                    st.2
                };
                assert(pts3(m) =~= w);
            }
            let mi = m[j];
            tmp0 = mi.x * t[0];
            tmp1 = mi.z * t[1];
            t[0] = tmp0 + tmp1;
            t[1] = t[1] * mi.x;
            tmp0 = mi.z * t[2];
            tmp1 = mi.x * t[3];
            t[2] = tmp0 + tmp1;
            t[3] = t[3] * mi.z;
            tmp0 = p.x * mi.x;
            tmp1 = p.z * mi.z;
            tmp0.sub_from(&tmp1);
            q.x.mul_with(&tmp0);
            tmp0 = p.x * mi.z;
            tmp1 = p.z * mi.x;
            tmp0.sub_from(&tmp1);
            q.z.mul_with(&tmp0);
            proof {
                let next = iso_rounds(a0, p0, k@, (i + 1) as nat);
                assert(next == iso_round(st, i as nat, p0, k@));
                assert(vals4(t) =~= next.0);
                assert(pts3(m) =~= next.2);
            }
            i = i + 1;
        }
        proof {
            assert(i as nat == iso_count(l));
        }
        t[0] = t[0] * t[1];
        t[0] = t[0] + t[0];
        t[1] = t[1] * t[1];
        t[2] = t[2] * t[3];
        t[2] = t[2] + t[2];
        t[3] = t[3] * t[3];
        tmp0 = t[1] * t[2];
        tmp1 = t[0] * t[3];
        tmp0.sub_from(&tmp1);
        tmp0.mul_with(&a.z);
        tmp1 = tmp0 + tmp0;
        tmp0.add_from(&tmp1);
        tmp1 = t[1] * t[3];
        tmp1.mul_with(&a.x);
        a.x = tmp1 - tmp0;
        t[3] = t[3] * t[3];
        a.z = a.z * t[3];
        q.x.square();
        q.z.square();
        p.x.mul_with(&q.x);
        p.z.mul_with(&q.z);
    }
}

impl Point {
    /// All coordinates and coefficients are reduced.
    pub open spec fn wf(self) -> bool {
        self.curve.wf() && self.x.wf() && self.y.wf() && self.z.wf()
    }

    /// The projective (X, Y, Z) that [`Point::multiply`] recovers for `[k] self`,
    /// before scaling to Z = 1.
    pub open spec fn recovered(self, k: LargeUint) -> (nat, nat, nat) {
        let st = ladder_state(
            projectivize_spec(self.x.val(), self.z.val()),
            self.curve.a.val(),
            k,
            0,
        );
        recover_spec(self.x.val(), self.y.val(), self.curve.a.val(), self.curve.b.val(), st.0, st.1)
    }

    /// The affine point (x mod p, y mod p) of `curve`, with Z = 1.
    pub fn new(curve: Curve, x: LargeUint, y: LargeUint) -> (r: Point)
        requires
            curve.wf(),
        ensures
            r.wf(),
            r.curve == curve,
            r.x.val() == x.value() % prime(),
            r.y.val() == y.value() % prime(),
            r.z.val() == 1,
    {
        proof {
            lemma_consts();
            vstd::arithmetic::div_mod::lemma_small_mod(1, prime());
        }
        Point {
            x: GaloisElement::from_large_uint(x),
            y: GaloisElement::from_large_uint(y),
            z: GaloisElement::from_u64(1),
            curve,
        }
    }

    /// `[k] self`, with y recovered from the x-only ladder, scaled to Z = 1.
    pub fn multiply(&self, k: &LargeUint) -> (r: Point)
        requires
            self.wf(),
            bits_spec(*k) > 0,
            self.recovered(*k).2 != 0,
        ensures
            r.wf(),
            r.curve == self.curve,
            r.x.val() == fmul(self.recovered(*k).0, fpow(self.recovered(*k).2, (prime() - 2) as nat)),
            r.y.val() == fmul(self.recovered(*k).1, fpow(self.recovered(*k).2, (prime() - 2) as nat)),
            r.z.val() == fmul(self.recovered(*k).2, fpow(self.recovered(*k).2, (prime() - 2) as nat)),
    {
        let (x0, x1) = self.projectivize().ladder(&self.curve.a, &k);
        let q = Curve::recover(self, &x0, &x1);
        q.unproject()
    }

    /// The x-only form (X : 1) of the point, or infinity (1 : 0) when x or Z is zero.
    pub fn projectivize(&self) -> (r: ProjectivePoint)
        requires
            self.wf(),
        ensures
            r.wf(),
            r@ == projectivize_spec(self.x.val(), self.z.val()),
    {
        proof {
            lemma_consts();
            vstd::arithmetic::div_mod::lemma_small_mod(1, prime());
            vstd::arithmetic::div_mod::lemma_small_mod(0, prime());
        }
        if self.x.is_zero() || self.z.is_zero() {
            ProjectivePoint { x: GaloisElement::from_u64(1), z: GaloisElement::from_u64(0) }
        } else {
            ProjectivePoint { x: self.x.clone(), z: GaloisElement::from_u64(1) }
        }
    }

    /// Scales to Z = 1 by dividing every coordinate by Z, which must not be zero.
    pub fn unproject(self) -> (r: Point)
        requires
            self.wf(),
            self.z.val() != 0,
        ensures
            r.wf(),
            r.curve == self.curve,
            r.x.val() == fmul(self.x.val(), fpow(self.z.val(), (prime() - 2) as nat)),
            r.y.val() == fmul(self.y.val(), fpow(self.z.val(), (prime() - 2) as nat)),
            r.z.val() == fmul(self.z.val(), fpow(self.z.val(), (prime() - 2) as nat)),
    {
        let x = self.x / self.z;
        let y = self.y / self.z;
        let z = self.z / self.z;
        Point { x, y, z, curve: self.curve }
    }
}

/// A point in x-only projective form: the x-coordinate X / Z, infinity when Z is zero.
#[derive(Debug, Clone, Copy)]
pub struct ProjectivePoint {
    pub x: GaloisElement,
    pub z: GaloisElement,
}

impl View for ProjectivePoint {
    type V = (nat, nat);

    open spec fn view(&self) -> (nat, nat) {
        (self.x.val(), self.z.val())
    }
}

impl PartialEq for ProjectivePoint {
    fn eq(&self, other: &ProjectivePoint) -> bool {
        self.x == other.x && self.z == other.z
    }
}

impl vstd::std_specs::cmp::PartialEqSpecImpl for ProjectivePoint {
    open spec fn obeys_eq_spec() -> bool {
        true
    }

    open spec fn eq_spec(&self, other: &ProjectivePoint) -> bool {
        self.x.elements@ == other.x.elements@ && self.z.elements@ == other.z.elements@
    }
}

impl ProjectivePoint {
    /// Both coordinates are reduced.
    pub open spec fn wf(self) -> bool {
        self.x.wf() && self.z.wf()
    }

    pub fn new(x: GaloisElement, z: GaloisElement) -> (r: ProjectivePoint)
        ensures
            r.x == x,
            r.z == z,
    {
        ProjectivePoint { x, z }
    }

    /// Whether this is the point at infinity (Z = 0).
    pub fn is_infinity(&self) -> (r: bool)
        requires
            self.wf(),
        ensures
            r == (self.z.val() == 0),
    {
        self.z.is_zero()
    }

    /// Differential addition: `self + other`, given `orig = self - other`.
    pub fn add(&self, other: &ProjectivePoint, orig: &ProjectivePoint) -> (r: ProjectivePoint)
        requires
            self.wf(),
            other.wf(),
            orig.wf(),
        ensures
            r.wf(),
            r@ == xadd(self@, other@, orig@),
            r@ == xadd_closed(self@, other@, orig@),
    {
        proof {
            lemma_consts();
            lemma_xadd_closed_form(self@, other@, orig@);
        }
        let v0 = self.x + self.z;
        let v1 = other.x - other.z;
        let v1 = v1 * v0;
        let v0 = self.x - self.z;
        let v2 = other.x + other.z;
        let v2 = v2 * v0;
        let v3 = v1 + v2;
        let v3 = v3 * v3;
        let v4 = v1 - v2;
        let v4 = v4 * v4;
        let x = orig.z * v3;
        let z = orig.x * v4;
        ProjectivePoint { x, z }
    }

    /// Doubling on y^2 = x^3 + a x^2 + x.
    pub fn double(&self, a: &GaloisElement) -> (r: ProjectivePoint)
        requires
            self.wf(),
            a.wf(),
        ensures
            r.wf(),
            r@ == xdbl_affine(self@, a.val()),
    {
        proof {
            lemma_consts();
            vstd::arithmetic::div_mod::lemma_small_mod(2, prime());
            vstd::arithmetic::div_mod::lemma_small_mod(4, prime());
        }
        let v1 = self.x + self.z;
        let v1 = v1 * v1;
        let v2 = self.x - self.z;
        let v2 = v2 * v2;
        let x = v1 * v2;
        let v1 = v1 - v2;
        let a_2 = *a + GaloisElement::from_u64(2);
        let v3 = v1 * (a_2 / GaloisElement::from_u64(4));
        let v3 = v3 + v2;
        let z = v1 * v3;
        ProjectivePoint { x, z }
    }

    /// Doubling on the curve whose coefficient is the projective pair `curve` = (A : C).
    pub fn double2(&self, curve: &ProjectivePoint) -> (r: ProjectivePoint)
        requires
            self.wf(),
            curve.wf(),
        ensures
            r.wf(),
            r@ == xdbl(self@, curve@),
            r@ == xdbl_closed(self@, curve@),
    {
        proof {
            lemma_consts();
            lemma_xdbl_closed_form(self@, curve@);
        }
        let mut a = self.x + self.z;
        a.square();
        let mut b = self.x - self.z;
        b.square();
        let c = a - b;
        b.add_from(&{ b });
        b.add_from(&{ b });
        b.mul_with(&curve.z);
        let qx = a * b;
        a = curve.z + curve.z;
        a.add_from(&curve.x);
        a.mul_with(&c);
        a.add_from(&b);
        let qz = a * c;
        ProjectivePoint { x: qx, z: qz }
    }

    /// One ladder step: `r` becomes the double of `p` and `s` becomes `p + q`,
    /// given `pq = p - q`, on the curve `curve` = (A : C).
    pub fn double_add(
        r: &mut ProjectivePoint,
        s: &mut ProjectivePoint,
        p: ProjectivePoint,
        q: ProjectivePoint,
        pq: &ProjectivePoint,
        curve: &ProjectivePoint,
    )
        requires
            p.wf(),
            q.wf(),
            pq.wf(),
            curve.wf(),
        ensures
            final(r).wf(),
            final(s).wf(),
            (final(r)@, final(s)@) == xdbladd(p@, q@, pq@, curve@),
            final(r)@ == xdbl_closed(p@, curve@),
            final(s)@ == xadd_closed(p@, q@, pq@),
    {
        proof {
            lemma_consts();
            lemma_xdbladd_closed_form(p@, q@, pq@, curve@);
        }
        let a = q.x + q.z;
        let b = q.x - q.z;
        let mut c = p.x + p.z;
        let mut d = p.x - p.z;
        r.x = c.clone().square();
        s.x = d.clone().square();
        c.mul_with(&b);
        d.mul_with(&a);
        let b = r.x - s.x;
        let a = curve.z + curve.z;
        r.z = a * s.x;
        s.x = curve.x + a;
        r.z.add_from(&{ r.z });
        r.x.mul_with(&r.z);
        s.x.mul_with(&b);
        s.z = c - d;
        r.z.add_from(&s.x);
        s.x = c + d;
        r.z.mul_with(&b);
        let d = s.z.square();
        let b = s.x.square();
        s.x = pq.z * b;
        s.z = pq.x * d;
    }

    /// The Montgomery ladder: `[k] self` on the curve `curve` = (A : C), scanning `k`
    /// from its top set bit down; infinity (1 : 0) for `k` = 0.
    pub fn ladder2(&self, curve: &ProjectivePoint, k: &LargeUint) -> (r: ProjectivePoint)
        requires
            self.wf(),
            curve.wf(),
        ensures
            r.wf(),
            r@ == ladder2_state(self@, curve@, *k, 0).0,
    {
        proof {
            lemma_consts();
            vstd::arithmetic::div_mod::lemma_small_mod(1, prime());
            vstd::arithmetic::div_mod::lemma_small_mod(0, prime());
        }
        let mut r = *self;
        let copy = *self;
        let mut ret = ProjectivePoint::new(GaloisElement::from_u64(1), GaloisElement::from_u64(0));
        let l = k.bits();
        let mut i: u64 = l;
        while i > 0
            invariant
                i <= l,
                l == bits_spec(*k),
                l <= 512,
                copy == *self,
                copy.wf(),
                curve.wf(),
                ret.wf(),
                r.wf(),
                (ret@, r@) == ladder2_state(copy@, curve@, *k, i as nat),
            decreases i,
        {
            i = i - 1;
            let bit = k.bit(i);
            if bit {
                std::mem::swap(&mut ret, &mut r);
            }
            let r2 = r;
            let ret2 = ret;
            ProjectivePoint::double_add(&mut ret, &mut r, ret2, r2, &copy, curve);
            if bit {
                std::mem::swap(&mut ret, &mut r);
            }
        }
        ret
    }

    /// The ladder that keeps both [k] self and [k + 1] self, on y^2 = x^3 + a x^2 + x,
    /// for the recovery of y. `k` must be non-zero.
    pub fn ladder(&self, a: &GaloisElement, k: &LargeUint) -> (r: (ProjectivePoint, ProjectivePoint))
        requires
            self.wf(),
            a.wf(),
            bits_spec(*k) > 0,
        ensures
            r.0.wf(),
            r.1.wf(),
            (r.0@, r.1@) == ladder_state(self@, a.val(), *k, 0),
    {
        let mut x0 = *self;
        let mut x1 = self.double(a);
        let l = k.bits();
        if l < 2 {
            return (x0, x1);
        }
        let mut i: u64 = l - 1;
        while i > 0
            invariant
                0 <= i < l,
                l == bits_spec(*k),
                l <= 512,
                self.wf(),
                a.wf(),
                x0.wf(),
                x1.wf(),
                (x0@, x1@) == ladder_state(self@, a.val(), *k, i as nat),
            decreases i,
        {
            i = i - 1;
            if !k.bit(i) {
                let temp = x0.add(&x1, self);
                x1 = temp;
                x0 = x0.double(a);
            } else {
                x0 = x0.add(&x1, self);
                x1 = x1.double(a);
            }
        }
        (x0, x1)
    }

    /// Scales to Z = 1 by one inversion.
    pub fn normalize(&mut self)
        requires
            old(self).wf(),
        ensures
            final(self).wf(),
            final(self).x.val() == fmul(old(self).x.val(), fpow(old(self).z.val(), (prime() - 2) as nat)),
            final(self).z.val() == 1,
    {
        proof {
            lemma_consts();
            vstd::arithmetic::div_mod::lemma_small_mod(1, prime());
        }
        self.z.inverse();
        self.x.mul_with(&self.z);
        self.z = GaloisElement::from_u64(1);
    }
}

} // verus!
