use csidh::consts::P_LIMBS;
use csidh::galois::GaloisElement;
use csidh::large_uint::LargeUint;

fn el(u: u64) -> GaloisElement {
    GaloisElement::from_u64(u)
}

#[test]
fn round_trip_reduces_modulo_p() {
    let x = LargeUint { elements: [7, 0, 0, 0, 0, 0, 0, 0] };
    assert_eq!(GaloisElement::from_large_uint(x).into_large_uint(), x);
    let mut p_plus_5 = LargeUint { elements: P_LIMBS };
    p_plus_5.add_from(&LargeUint::from_u64(5));
    assert_eq!(GaloisElement::from_large_uint(p_plus_5).into_large_uint(), LargeUint::from_u64(5));
    let top = LargeUint { elements: [u64::MAX; 8] };
    let back = GaloisElement::from_large_uint(top).into_large_uint();
    let mut t = back;
    assert!(t.sub_from(&LargeUint { elements: P_LIMBS }));
}

#[test]
fn field_laws_on_samples() {
    let (a, b, c) = (el(123456789), el(987654321987), el(55));
    assert_eq!((a + b) + c, a + (b + c));
    assert_eq!(a * (b + c), a * b + a * c);
    let mut inv = a;
    inv.inverse();
    assert_eq!(a * inv, el(1));
    assert!((a * a).is_square());
    assert!((b * b).is_square());
}

#[test]
fn euler_criterion_on_small_values() {
    assert!(el(0).is_square());
    assert!(el(1).is_square());
    assert!(el(9).is_square());
    assert!(!el(2).is_square());
    let minus_one = el(0) - el(1);
    assert!(!minus_one.is_square());
}

#[test]
fn subtraction_wraps_modulo_p() {
    let mut a = el(1);
    assert!(a.sub_from(&el(3)));
    let mut b = a;
    assert!(!b.add_from(&el(3)));
    assert_eq!(b, el(1));
}

#[test]
fn pow_to_zero_is_one() {
    let mut a = el(12345);
    a.pow(&LargeUint::new());
    assert_eq!(a, el(1));
}

#[test]
fn random_limbs_are_masked_and_checked() {
    assert!(GaloisElement::from_random_limbs(P_LIMBS).is_none());
    let mut below = P_LIMBS;
    below[0] -= 1;
    assert!(GaloisElement::from_random_limbs(below).is_some());
    let mut high = [0u64; 8];
    high[7] = 0x8000_0000_0000_0000;
    let r = GaloisElement::from_random_limbs(high).unwrap();
    assert_eq!(r.elements, [0u64; 8]);
}

#[test]
fn zero_test_and_equality() {
    assert!(el(0).is_zero());
    assert!(!el(1).is_zero());
    assert_ne!(el(1), el(2));
}
