use csidh::consts::{NUM_PRIMES, P_LIMBS};
use csidh::csidh::{action, CsidhPrivateKey, CsidhPublicKey};
use csidh::large_uint::LargeUint;
use csidh::montgomery::Curve;
use rand::rngs::StdRng;
use rand::SeedableRng;

fn hex_bytes(s: &str) -> Vec<u8> {
    (0..s.len() / 2).map(|i| u8::from_str_radix(&s[2 * i..2 * i + 2], 16).unwrap()).collect()
}

fn base_curve() -> Curve {
    Curve::new(LargeUint::from_u64(0), LargeUint::from_u64(1))
}

#[test]
fn key_exchange_round_trip() {
    let mut rng = StdRng::seed_from_u64(2024);
    let a = CsidhPrivateKey::generate_new(&mut rng);
    let b = CsidhPrivateKey::generate_new(&mut rng);
    let a_pub = a.get_public_key(&mut rng).unwrap();
    let b_pub = b.get_public_key(&mut rng).unwrap();
    let s_a = a.get_shared_secret(&b_pub, &mut rng).unwrap();
    let s_b = b.get_shared_secret(&a_pub, &mut rng).unwrap();
    assert_eq!(s_a.len(), 64);
    assert_eq!(s_a, s_b);
}

#[test]
fn action_commutes_on_sparse_vectors() {
    let mut rng = StdRng::seed_from_u64(5);
    let mut ea = [0i8; NUM_PRIMES];
    ea[0] = 1;
    ea[1] = -1;
    ea[3] = 2;
    let mut eb = [0i8; NUM_PRIMES];
    eb[1] = 1;
    eb[2] = 1;
    eb[4] = -1;
    let a = action(&base_curve(), &ea, &mut rng).unwrap();
    let b = action(&base_curve(), &eb, &mut rng).unwrap();
    let ab = action(&Curve::new(b, LargeUint::from_u64(1)), &ea, &mut rng).unwrap();
    let ba = action(&Curve::new(a, LargeUint::from_u64(1)), &eb, &mut rng).unwrap();
    assert_eq!(ab, ba);
    assert_ne!(a, b);
}

#[test]
fn zero_vector_fixes_the_base_curve() {
    let mut rng = StdRng::seed_from_u64(11);
    let r = action(&base_curve(), &[0i8; NUM_PRIMES], &mut rng).unwrap();
    assert_eq!(r, LargeUint::new());
}

#[test]
fn single_three_isogeny_matches_reference() {
    let mut e = [0i8; NUM_PRIMES];
    e[0] = 1;
    let expected = hex_bytes("40f30bc0e8a2d927d3429ad83566002a4d5f400f51f47638f4bf267c4f8acaae0a7552849a46c3306b087f2fb0b6a903c2c058bc763c93015a8359f751a4ba53");
    let mut rng = StdRng::seed_from_u64(42);
    let r = action(&base_curve(), &e, &mut rng).unwrap();
    assert_eq!(r.as_bytes(), expected);
    let mut other = StdRng::seed_from_u64(43);
    let r2 = action(&base_curve(), &e, &mut other).unwrap();
    assert_eq!(r, r2);
}

#[test]
fn single_largest_isogeny_matches_reference() {
    let mut e = [0i8; NUM_PRIMES];
    e[NUM_PRIMES - 1] = 1;
    let expected = hex_bytes("63a4a8a47b1319842c5beb6b8be4449a0520e2c7cfa2a44306eca79e79dd3bb6197144892bc1b19a5dee19477883cdca696e55f878aa31a370c0a3ebd46f4423");
    let mut rng = StdRng::seed_from_u64(3);
    let r = action(&base_curve(), &e, &mut rng).unwrap();
    assert_eq!(r.as_bytes(), expected);
}

#[test]
fn private_keys_stay_in_bounds() {
    let mut rng = StdRng::seed_from_u64(9);
    for _ in 0..4 {
        let k = CsidhPrivateKey::generate_new(&mut rng);
        let pk = k.get_public_key(&mut rng).unwrap();
        let s = k.get_shared_secret(&pk, &mut rng).unwrap();
        assert_eq!(s.len(), 64);
    }
}

#[test]
fn public_key_encodes_its_coefficient() {
    let mut rng = StdRng::seed_from_u64(77);
    let k = CsidhPrivateKey::generate_new(&mut rng);
    let pk = k.get_public_key(&mut rng).unwrap();
    let bytes = pk.as_bytes();
    assert_eq!(bytes.len(), 64);
    // The coefficient is below p < 2^511: the top bit is clear.
    assert!(bytes[63] < 0x80);
}

#[test]
fn public_key_wire_form_round_trips() {
    let mut rng = StdRng::seed_from_u64(8);
    let mut e = [0i8; NUM_PRIMES];
    e[2] = -1;
    let k_bytes = action(&base_curve(), &e, &mut rng).unwrap().as_bytes();
    let pk = CsidhPublicKey::from_bytes(&k_bytes).unwrap();
    assert_eq!(pk.as_bytes(), k_bytes);
    let b = CsidhPrivateKey::generate_new(&mut rng);
    let s1 = b.get_shared_secret(&pk, &mut rng).unwrap();
    let s2 = b.get_shared_secret(&CsidhPublicKey::from_bytes(&pk.as_bytes()).unwrap(), &mut rng).unwrap();
    assert_eq!(s1, s2);
}

#[test]
fn public_key_at_or_above_p_is_rejected() {
    let p_bytes = LargeUint { elements: P_LIMBS }.as_bytes();
    assert!(CsidhPublicKey::from_bytes(&p_bytes).is_none());
    assert!(CsidhPublicKey::from_bytes(&[0xff; 64]).is_none());
    let mut below = p_bytes.clone();
    below[0] -= 1;
    assert!(CsidhPublicKey::from_bytes(&below).is_some());
    let zero = CsidhPublicKey::from_bytes(&[0u8; 64]).unwrap();
    assert_eq!(zero.as_bytes(), vec![0u8; 64]);
}
