//! The CSIDH class-group action and the key pair built on it.
use vstd::prelude::*;
use rand::rngs::StdRng;
use crate::consts::{lemma_consts, prime, MAX_ROUNDS, NUM_PRIMES, PRIMES, P_LIMBS};
use crate::galois::{
    fmul, fpow, lemma_element_of_props, lemma_field_ops_bound, lemma_from_mont_bound,
    GaloisElement,
};
use crate::large_uint::{
    large_of, le_bytes, le_limbs, lemma_large_of, read_le_limbs, wrap, LargeUint,
};
use crate::limbs::limbs_val;
use crate::montgomery::{isogeny_spec, ladder2_state, rhs, Curve, ProjectivePoint};
use crate::rng::sample_inclusive;

verus! {

broadcast use lemma_element_of_props, lemma_field_ops_bound, lemma_from_mont_bound;

/// The bound m of the exponents of a private key: each lies in [-m, m].
pub const KEY_BOUND: i8 = 5;

/// Every exponent is zero.
pub open spec fn all_zero(e: Seq<i8>) -> bool {
    forall|i: int| 0 <= i < e.len() ==> e[i] == 0
}

/// Where the exponents left on side s (0 for the curve, 1 for its twist) for prime i are kept.
pub open spec fn remaining_index(s: nat, i: nat) -> int {
    (s * NUM_PRIMES + i) as int
}

/// The exponent left at `idx` before any isogeny: side 0 holds the positive exponents,
/// side 1 the magnitudes of the negative ones.
///
/// Polarity: side 0 is the side that the square test of [`round_spec`] selects, the
/// x-coordinates of points of the curve itself (right-hand side a square), so a positive
/// exponent takes kernels of rational points of the curve and a negative one kernels on its
/// quadratic twist, as in the CSIDH paper of Castryck, Lange, Martindale, Panny and Renes;
/// the opposite assignment acts by the inverse ideal class. It is checked against an
/// independent big-integer model of the action on the vector (1, 0, ..., 0), not against a
/// published test vector.
pub open spec fn start_remaining(private: Seq<i8>, idx: int) -> u8 {
    if idx < NUM_PRIMES {
        if private[idx] > 0 {
            private[idx] as u8
        } else {
            0
        }
    } else {
        if private[idx - NUM_PRIMES] < 0 {
            (-private[idx - NUM_PRIMES]) as u8
        } else {
            0
        }
    }
}

/// The cofactor of side s over the first i primes: 4 times the primes that side s has
/// nothing to do for, modulo 2^512.
pub open spec fn start_cofactor(private: Seq<i8>, s: nat, i: nat) -> nat
    decreases i,
{
    if i == 0 {
        4
    } else {
        let c = start_cofactor(private, s, (i - 1) as nat);
        if start_remaining(private, remaining_index(s, (i - 1) as nat)) == 0 {
            (c * PRIMES@[i - 1] as nat) % wrap()
        } else {
            c
        }
    }
}

/// The product, modulo 2^512, of the primes below i that side s still has to do.
pub open spec fn cofactor_below(e: Seq<u8>, s: nat, i: nat) -> nat
    decreases i,
{
    if i == 0 {
        1
    } else {
        let c = cofactor_below(e, s, (i - 1) as nat);
        if e[remaining_index(s, (i - 1) as nat)] != 0 {
            (c * PRIMES@[i - 1] as nat) % wrap()
        } else {
            c
        }
    }
}

/// The state of one sweep over the primes: the curve (A : C), the point P, the exponents
/// left, the cofactor of the side, and whether the side has nothing left.
pub type Sweep = ((nat, nat), (nat, nat), Seq<u8>, nat, bool);

/// The sweep at prime i: if side s still has to do it, the kernel [cofactor below i] P;
/// unless that is infinity, the l_i-isogeny with that kernel, one exponent less, and the
/// prime leaves the cofactor of the side once its exponent is used up.
pub open spec fn sweep_step(st: Sweep, s: nat, i: nat) -> Sweep {
    let (c, p, e, ks, done) = st;
    let idx = remaining_index(s, i);
    if e[idx] != 0 {
        let kernel = ladder2_state(p, c, large_of(cofactor_below(e, s, i)), 0).0;
        if kernel.1 != 0 {
            let (c2, p2) = isogeny_spec(c, p, kernel, PRIMES@[i as int]);
            let left = (e[idx] - 1) as u8;
            let ks2 = if left == 0 {
                (ks * PRIMES@[i as int] as nat) % wrap()
            } else {
                ks
            };
            (c2, p2, e.update(idx, left), ks2, done && left == 0)
        } else {
            (c, p, e, ks, false)
        }
    } else {
        st
    }
}

/// The sweep over the primes from the last one down to prime i.
pub open spec fn sweep_from(st: Sweep, s: nat, i: nat) -> Sweep
    decreases NUM_PRIMES - i,
{
    if i >= NUM_PRIMES {
        st
    } else {
        sweep_step(sweep_from(st, s, i + 1), s, i)
    }
}

/// Euler's criterion, zero included.
pub open spec fn is_square_spec(v: nat) -> bool {
    v == 0 || fpow(v, ((prime() - 1) / 2) as nat) == 1
}

/// The state of the action between rounds: the coefficient A, the exponents left, the
/// cofactor of each side, and which sides are done.
pub type Round = (nat, Seq<u8>, Seq<nat>, Seq<bool>);

/// One round on the sampled x: the side whose curve or twist holds x; if that side is not
/// done, P = [cofactor] (x : 1), one sweep of it over the primes, and A normalized again.
pub open spec fn round_spec(st: Round, x: nat) -> Round {
    let (a, e, k, done) = st;
    let s: nat = if is_square_spec(rhs(a, x)) {
        0
    } else {
        1
    };
    if done[s as int] {
        st
    } else {
        let c = (a, 1nat);
        let p = ladder2_state((x, 1nat), c, large_of(k[s as int]), 0).0;
        let (c2, p2, e2, ks, d) = sweep_from((c, p, e, k[s as int], true), s, 0);
        (
            fmul(c2.0, fpow(c2.1, (prime() - 2) as nat)),
            e2,
            k.update(s as int, ks),
            done.update(s as int, d),
        )
    }
}

/// The state that [`ActionState::new`] makes for the coefficient `a` and the exponents.
pub open spec fn start_round(a: nat, private: Seq<i8>) -> Round {
    (
        a,
        Seq::new(148, |idx: int| start_remaining(private, idx)),
        seq![
            start_cofactor(private, 0, NUM_PRIMES as nat),
            start_cofactor(private, 1, NUM_PRIMES as nat),
        ],
        seq![false, false],
    )
}

/// The rounds on the draws `xs`, in order.
pub open spec fn rounds(st: Round, xs: Seq<nat>) -> Round
    decreases xs.len(),
{
    if xs.len() == 0 {
        st
    } else {
        round_spec(rounds(st, xs.drop_last()), xs.last())
    }
}

/// The action of `private` on the curve with coefficient `a0` can end at the coefficient
/// `a`: some sequence of field elements drawn, taken round by round from the start, leaves
/// both sides done with coefficient `a`.
pub open spec fn action_reaches(a0: nat, private: Seq<i8>, a: nat) -> bool {
    exists|xs: Seq<nat>|
        {
            &&& forall|i: int| 0 <= i < xs.len() ==> #[trigger] xs[i] < prime()
            &&& rounds(start_round(a0, private), xs).3 == seq![true, true]
            &&& rounds(start_round(a0, private), xs).0 == a
        }
}

/// The class-group action in progress.
pub struct ActionState {
    /// The current curve (A : 1).
    pub curve: ProjectivePoint,
    /// The exponents left, side s and prime i at `s * NUM_PRIMES + i`.
    pub remaining: [u8; 148],
    /// For each side, 4 times the primes it has nothing left to do for.
    pub cofactors: [LargeUint; 2],
    /// Which sides have nothing left to do.
    pub done: [bool; 2],
}

impl ActionState {
    /// The state in mathematical terms.
    pub open spec fn state(self) -> Round {
        (
            self.curve.x.val(),
            self.remaining@,
            seq![self.cofactors[0].value(), self.cofactors[1].value()],
            self.done@,
        )
    }

    /// The curve is reduced and normalized to C = 1.
    pub open spec fn wf(self) -> bool {
        self.curve.wf() && self.curve.z.val() == 1
    }

    /// The state before the first round on `curve` for the exponents `private`.
    pub fn new(curve: &Curve, private: &[i8]) -> (r: ActionState)
        requires
            curve.wf(),
            private@.len() == NUM_PRIMES,
            forall|i: int| 0 <= i < NUM_PRIMES ==> #[trigger] private@[i] > -128,
        ensures
            r.wf(),
            r.curve.x.val() == curve.a.val(),
            r.remaining@ == Seq::new(148, |idx: int| start_remaining(private@, idx)),
            r.cofactors[0].value() == start_cofactor(private@, 0, NUM_PRIMES as nat),
            r.cofactors[1].value() == start_cofactor(private@, 1, NUM_PRIMES as nat),
            r.done@ == seq![false, false],
    {
        proof {
            lemma_consts();
            vstd::arithmetic::div_mod::lemma_small_mod(1, prime());
            vstd::arithmetic::div_mod::lemma_small_mod(4, prime());
        }
        let mut k = [LargeUint::from_u64(4), LargeUint::from_u64(4)];
        let mut e: [u8; 148] = [0; 148];
        let mut i: usize = 0;
        while i < NUM_PRIMES
            invariant
                i <= NUM_PRIMES,
                private@.len() == NUM_PRIMES,
                forall|j: int| 0 <= j < NUM_PRIMES ==> #[trigger] private@[j] > -128,
                forall|j: int| 0 <= j < i ==> e[j] == #[trigger] start_remaining(private@, j),
                forall|j: int| NUM_PRIMES <= j < NUM_PRIMES + i ==> e[j] == #[trigger] start_remaining(private@, j),
                k[0].value() == start_cofactor(private@, 0, i as nat),
                k[1].value() == start_cofactor(private@, 1, i as nat),
            decreases NUM_PRIMES - i,
        {
            let t = private[i];
            if t > 0 {
                e[i] = t as u8;
                e[NUM_PRIMES + i] = 0;
                k[1].mul_with_u64(PRIMES[i]);
            } else if t < 0 {
                e[NUM_PRIMES + i] = (-t) as u8;
                e[i] = 0;
                k[0].mul_with_u64(PRIMES[i]);
            } else {
                e[i] = 0;
                e[NUM_PRIMES + i] = 0;
                k[0].mul_with_u64(PRIMES[i]);
                k[1].mul_with_u64(PRIMES[i]);
            }
            proof {
                assert(remaining_index(0, i as nat) == i);
                assert(remaining_index(1, i as nat) == NUM_PRIMES + i);
            }
            i = i + 1;
        }
        proof {
            assert(e@ =~= Seq::new(148, |idx: int| start_remaining(private@, idx))) by {
                assert forall|idx: int| 0 <= idx < 148 implies e@[idx] == start_remaining(private@, idx) by {
                    assert(e[idx] == start_remaining(private@, idx));
                }
            }
        }
        let r = ActionState {
            curve: ProjectivePoint::new(curve.a, GaloisElement::from_u64(1)),
            remaining: e,
            cofactors: k,
            done: [false, false],
        };
        proof {
            assert(r.done@ =~= seq![false, false]);
        }
        r
    }

    /// Both sides are done.
    pub fn finished(&self) -> (r: bool)
        ensures
            r == (self.done@[0] && self.done@[1]),
    {
        self.done[0] && self.done[1]
    }

    /// One round of the action on the sampled field element `x`.
    pub fn round(&mut self, x: &GaloisElement)
        requires
            old(self).wf(),
            x.wf(),
        ensures
            final(self).wf(),
            final(self).state() == round_spec(old(self).state(), x.val()),
    {
        proof {
            lemma_consts();
            vstd::arithmetic::div_mod::lemma_small_mod(1, prime());
        }
        let ghost st0 = self.state();
        let sign: usize = if Curve::right_side(&self.curve.x, x).is_square() {
            0
        } else {
            1
        };
        if self.done[sign] {
            return;
        }
        let p = ProjectivePoint::new(*x, GaloisElement::from_u64(1));
        let mut p = p.ladder2(&self.curve, &self.cofactors[sign]);
        proof {
            lemma_large_of(self.cofactors[sign as int]);
        }
        let ghost sw0: Sweep = (self.curve@, p@, self.remaining@, self.cofactors[sign as int].value(), true);
        self.done[sign] = true;
        let base = sign * NUM_PRIMES;
        let mut i: usize = NUM_PRIMES;
        while i > 0
            invariant
                i <= NUM_PRIMES,
                sign < 2,
                base == sign * NUM_PRIMES,
                self.curve.wf(),
                p.wf(),
                ({
                    let sw = sweep_from(sw0, sign as nat, i as nat);
                    &&& sw.0 == self.curve@
                    &&& sw.1 == p@
                    &&& sw.2 == self.remaining@
                    &&& sw.3 == self.cofactors[sign as int].value()
                    &&& sw.4 == self.done[sign as int]
                }),
                self.cofactors[1 - sign] == old(self).cofactors[1 - sign],
                self.done[1 - sign as int] == old(self).done[1 - sign as int],
            decreases i,
        {
            i = i - 1;
            if self.remaining[base + i] != 0 {
                let mut cof = LargeUint::from_u64(1);
                let mut j: usize = 0;
                while j < i
                    invariant
                        j <= i,
                        i < NUM_PRIMES,
                        base == sign * NUM_PRIMES,
                        sign < 2,
                        cof.value() == cofactor_below(self.remaining@, sign as nat, j as nat),
                    decreases i - j,
                {
                    if self.remaining[base + j] != 0 {
                        cof.mul_with_u64(PRIMES[j]);
                    }
                    j = j + 1;
                }
                proof {
                    lemma_large_of(cof);
                }
                let kernel = p.ladder2(&self.curve, &cof);
                if !kernel.is_infinity() {
                    Curve::isogeny(&mut self.curve, &mut p, &kernel, PRIMES[i]);
                    self.remaining[base + i] = self.remaining[base + i] - 1;
                    if self.remaining[base + i] == 0 {
                        self.cofactors[sign].mul_with_u64(PRIMES[i]);
                    }
                }
            }
            self.done[sign] = self.done[sign] && self.remaining[base + i] == 0;
            proof {
                assert(remaining_index(sign as nat, i as nat) == base + i);
            }
        }
        proof {
            assert(self.curve.z.wf());
        }
        self.curve.z.inverse();
        self.curve.x.mul_with(&self.curve.z);
        self.curve.z = GaloisElement::from_u64(1);
        proof {
            assert(self.remaining@ == sweep_from(sw0, sign as nat, 0).2);
            assert(self.state() =~= round_spec(st0, x.val()));
        }
    }
}

/// The class-group action of the exponent vector `private` on the curve `curve`: for each
/// i, |private[i]| isogenies of degree l_i, in the direction of the sign of private[i].
/// Each round samples x and proceeds as [`ActionState::round`] states. Returns the
/// Montgomery coefficient A of the resulting curve, canonical in [0, p); `None` only if
/// sampling ran out of rounds. The result is reached by the rounds on the elements drawn,
/// with both sides done. The zero vector leaves the curve as it is.
pub fn action(curve: &Curve, private: &[i8], rng: &mut StdRng) -> (r: Option<LargeUint>)
    requires
        curve.wf(),
        private@.len() == NUM_PRIMES,
        forall|i: int| 0 <= i < NUM_PRIMES ==> #[trigger] private@[i] > -128,
    ensures
        r matches Some(a) ==> a.value() < prime(),
        r matches Some(a) ==> action_reaches(curve.a.val(), private@, a.value()),
        r matches Some(a) ==> (all_zero(private@) ==> a.value() == curve.a.val()),
{
    let mut state = ActionState::new(curve, private);
    let ghost xs: Seq<nat> = Seq::empty();
    proof {
        if all_zero(private@) {
            lemma_start_remaining_zero(private@);
        }
        assert(state.state() =~= start_round(curve.a.val(), private@));
    }
    let mut tries: u64 = 0;
    while tries < MAX_ROUNDS
        invariant
            curve.wf(),
            state.wf(),
            state.state() == rounds(start_round(curve.a.val(), private@), xs),
            forall|i: int| 0 <= i < xs.len() ==> #[trigger] xs[i] < prime(),
            all_zero(private@) ==> state.curve.x.val() == curve.a.val(),
            all_zero(private@) ==> forall|j: int| 0 <= j < 148 ==> state.remaining@[j] == 0,
        decreases MAX_ROUNDS - tries,
    {
        tries = tries + 1;
        let x = match GaloisElement::random_element(rng) {
            Some(x) => x,
            None => return None,
        };
        let ghost before = state.state();
        state.round(&x);
        proof {
            if all_zero(private@) {
                lemma_round_without_work(before, x.val());
            }
            let ys = xs.push(x.val());
            assert(ys.drop_last() =~= xs);
            xs = ys;
        }
        if state.finished() {
            proof {
                let st = rounds(start_round(curve.a.val(), private@), xs);
                assert(state.done@ =~= seq![true, true]);
                assert(st.3 == seq![true, true]);
                assert(st.0 == state.curve.x.val());
                assert(action_reaches(curve.a.val(), private@, state.curve.x.val()));
            }
            return Some(state.curve.x.into_large_uint());
        }
    }
    None
}

/// A zero exponent vector leaves nothing to do.
proof fn lemma_start_remaining_zero(private: Seq<i8>)
    requires
        all_zero(private),
        private.len() == NUM_PRIMES,
    ensures
        forall|j: int| 0 <= j < 148 ==> #[trigger] start_remaining(private, j) == 0,
{
    assert forall|j: int| 0 <= j < 148 implies #[trigger] start_remaining(private, j) == 0 by {
        if j >= NUM_PRIMES {
            assert(private[j - NUM_PRIMES] == 0);
        } else {
            assert(private[j] == 0);
        }
    }
}

/// With nothing left to do, a sweep changes nothing.
proof fn lemma_sweep_without_work(st: Sweep, s: nat, i: nat)
    requires
        s < 2,
        st.2.len() == 148,
        forall|j: int| 0 <= j < 148 ==> st.2[j] == 0,
    ensures
        sweep_from(st, s, i) == st,
    decreases NUM_PRIMES - i,
{
    if i < NUM_PRIMES {
        lemma_sweep_without_work(st, s, i + 1);
        assert(0 <= remaining_index(s, i) < 148);
    }
}

/// With nothing left to do, a round keeps the curve.
proof fn lemma_round_without_work(st: Round, x: nat)
    requires
        st.0 < prime(),
        st.1.len() == 148,
        st.2.len() == 2,
        st.3.len() == 2,
        forall|j: int| 0 <= j < 148 ==> st.1[j] == 0,
    ensures
        round_spec(st, x).0 == st.0,
        round_spec(st, x).1 == st.1,
{
    lemma_consts();
    let s: nat = if is_square_spec(rhs(st.0, x)) {
        0
    } else {
        1
    };
    if !st.3[s as int] {
        let c = (st.0, 1nat);
        let p = ladder2_state((x, 1nat), c, large_of(st.2[s as int]), 0).0;
        lemma_sweep_without_work((c, p, st.1, st.2[s as int], true), s, 0);
        vstd::arithmetic::power::lemma1_pow(((prime() - 2) as nat));
        vstd::arithmetic::div_mod::lemma_small_mod(1, prime());
        vstd::arithmetic::div_mod::lemma_small_mod(st.0, prime());
        assert(st.0 * 1 == st.0);
    }
}

/// A private key: one exponent in [-m, m] for each of the small primes.
pub struct CsidhPrivateKey {
    key: [i8; NUM_PRIMES],
}

/// A public key: the Montgomery coefficient A of a curve, canonical in [0, p).
pub struct CsidhPublicKey {
    a: LargeUint,
}

impl CsidhPublicKey {
    /// The coefficient is canonical.
    #[verifier::type_invariant]
    spec fn canonical(self) -> bool {
        self.a.value() < prime()
    }

    /// The coefficient A.
    pub closed spec fn coefficient(self) -> nat {
        self.a.value()
    }

    /// The limbs of the coefficient A.
    pub closed spec fn coefficient_limbs(self) -> Seq<u64> {
        self.a.elements@
    }

    /// Reads the wire form: 64 little-endian bytes of A, rejected unless A is below p.
    pub fn from_bytes(bytes: &[u8]) -> (r: Option<CsidhPublicKey>)
        requires
            bytes@.len() == 64,
        ensures
            r is Some <==> limbs_val(le_limbs(bytes@)) < prime(),
            r matches Some(pk) ==> pk.coefficient_limbs() == le_limbs(bytes@),
    {
        proof {
            lemma_consts();
        }
        let limbs = read_le_limbs(bytes);
        let mut t = LargeUint { elements: limbs };
        if t.sub_from(&LargeUint { elements: P_LIMBS }) {
            Some(CsidhPublicKey { a: LargeUint { elements: limbs } })
        } else {
            None
        }
    }

    /// The wire form: the 64-byte little-endian encoding of A.
    pub fn as_bytes(&self) -> (r: Vec<u8>)
        ensures
            r@ == le_bytes(self.coefficient_limbs()),
            r@.len() == 64,
    {
        self.a.as_bytes()
    }
}

impl CsidhPrivateKey {
    /// The exponent vector.
    pub closed spec fn exponents(self) -> Seq<i8> {
        self.key@
    }

    /// The exponents lie in [-m, m].
    #[verifier::type_invariant]
    spec fn bounded(self) -> bool {
        forall|i: int| 0 <= i < NUM_PRIMES ==> -KEY_BOUND <= #[trigger] self.key@[i] <= KEY_BOUND
    }

    /// A fresh private key: each exponent drawn uniformly from [-m, m].
    pub fn generate_new(rng: &mut StdRng) -> (r: CsidhPrivateKey)
        ensures
            r.exponents().len() == NUM_PRIMES,
            forall|i: int|
                0 <= i < NUM_PRIMES ==> -KEY_BOUND <= #[trigger] r.exponents()[i] <= KEY_BOUND,
    {
        let mut secret = [0i8; NUM_PRIMES];
        let mut i: usize = 0;
        while i < NUM_PRIMES
            invariant
                i <= NUM_PRIMES,
                forall|j: int| 0 <= j < NUM_PRIMES ==> -KEY_BOUND <= #[trigger] secret@[j] <= KEY_BOUND,
            decreases NUM_PRIMES - i,
        {
            secret[i] = sample_inclusive(rng, -KEY_BOUND, KEY_BOUND);
            i = i + 1;
        }
        CsidhPrivateKey { key: secret }
    }

    /// The public key: the action of this key on the curve y^2 = x^3 + x.
    pub fn get_public_key(&self, rng: &mut StdRng) -> (r: Option<CsidhPublicKey>)
        ensures
            r matches Some(pk) ==> pk.coefficient() < prime(),
            r matches Some(pk) ==> action_reaches(0, self.exponents(), pk.coefficient()),
            r matches Some(pk) ==> (all_zero(self.exponents()) ==> pk.coefficient() == 0),
    {
        proof {
            use_type_invariant(self);
            lemma_consts();
            vstd::arithmetic::div_mod::lemma_small_mod(0, prime());
        }
        let curve = Curve::new(LargeUint::from_u64(0), LargeUint::from_u64(1));
        match action(&curve, &self.key, rng) {
            Some(a) => Some(CsidhPublicKey { a }),
            None => None,
        }
    }

    /// The shared secret with the owner of `other`: the 64-byte little-endian encoding
    /// of the coefficient of the action of this key on the curve of `other`.
    pub fn get_shared_secret(&self, other: &CsidhPublicKey, rng: &mut StdRng) -> (r: Option<Vec<u8>>)
        ensures
            r matches Some(b) ==> b@.len() == 64,
            r matches Some(b) ==> exists|s: LargeUint|
                {
                    &&& s.value() < prime()
                    &&& action_reaches(other.coefficient(), self.exponents(), s.value())
                    &&& b@ == le_bytes(s.elements@)
                },
    {
        proof {
            use_type_invariant(self);
            use_type_invariant(other);
            vstd::arithmetic::div_mod::lemma_small_mod(other.a.value(), prime());
        }
        let their_curve = Curve::new(other.a, LargeUint::from_u64(1));
        match action(&their_curve, &self.key, rng) {
            Some(s) => Some(s.as_bytes()),
            None => None,
        }
    }
}

} // verus!
