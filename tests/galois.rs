use csidh::galois::GaloisElement;
use csidh::large_uint::LargeUint;

#[test]
fn check_add() {
    let mut one = LargeUint { elements: [1, 0, 0, 0, 0, 0, 0, 0] };
    let two = LargeUint { elements: [2, 0, 0, 0, 0, 0, 0, 0] };
    let three = LargeUint { elements: [3, 0, 0, 0, 0, 0, 0, 0] };
    one.add_from(&two);
    assert_eq!(one, three);

    let one = LargeUint { elements: [1, 0, 0, 0, 0, 0, 0, 0] };
    let mut max_one = LargeUint { elements: [u64::max_value(), 0, 0, 0, 0, 0, 0, 0] };
    let max_two = LargeUint { elements: [0, 1, 0, 0, 0, 0, 0, 0] };
    max_one.add_from(&one);
    assert_eq!(max_one, max_two);
}

#[test]
fn check_sub() {
    let one = LargeUint { elements: [1, 0, 0, 0, 0, 0, 0, 0] };
    let two = LargeUint { elements: [2, 0, 0, 0, 0, 0, 0, 0] };
    let mut three = LargeUint { elements: [3, 0, 0, 0, 0, 0, 0, 0] };
    three.sub_from(&two);
    assert_eq!(one, three);
}

#[test]
fn galois_check_mul() {
    let mut two = GaloisElement::from_u64(2);
    let four = GaloisElement::from_u64(4);
    two.mul_with(&two.clone());
    assert_eq!(two, four);
}

#[test]
fn check_enc_dec() {
    let one = GaloisElement::from_u64(1);
    assert_ne!(one.elements[0], 1);
    let one = one.into_large_uint();
    assert_eq!(one.elements[0], 1);
}

#[test]
fn check_pow() {
    let mut two = GaloisElement::from_u64(2);
    let four = GaloisElement::from_u64(4);
    two.square();
    assert_eq!(two, four);

    let mut two = GaloisElement::from_u64(2);
    let two_c = GaloisElement::from_u64(2);
    let one = LargeUint::from_u64(1);
    two.pow(&one);
    assert_eq!(two, two_c);

    let mut two = GaloisElement::from_u64(2);
    let three = LargeUint::from_u64(3);
    let eight = GaloisElement::from_u64(8);
    two.pow(&three);
    assert_eq!(two, eight);
}

#[test]
fn check_inv() {
    let mut two = GaloisElement::from_u64(2);
    let o_two = GaloisElement::from_u64(2);
    let one = GaloisElement::from_u64(1);
    two.inverse();
    two.mul_with(&o_two);
    assert_eq!(two, one);
}

#[test]
fn check_square() {
    let four = GaloisElement::from_u64(4);
    let one = GaloisElement::from_u64(2);
    assert!(four.is_square());
    assert!(!one.is_square());
}

#[test]
fn check_add_impl() {
    let one = GaloisElement::from_u64(1);
    let two = GaloisElement::from_u64(2);
    assert_eq!(one + one, two);
}

#[test]
fn check_sub_impl() {
    let one = GaloisElement::from_u64(1);
    let two = GaloisElement::from_u64(2);
    assert_eq!(two - one, one);
}

#[test]
fn check_mul_impl() {
    let two = GaloisElement::from_u64(2);
    let four = GaloisElement::from_u64(4);
    assert_eq!(two * two, four);
}

#[test]
fn check_div_impl() {
    let one = GaloisElement::from_u64(1);
    let two = GaloisElement::from_u64(2);
    assert_eq!(two / one, two);

    let six = GaloisElement::from_u64(6);
    let two = GaloisElement::from_u64(2);
    let three = GaloisElement::from_u64(3);
    assert_eq!(six / two, three);
}

#[test]
fn check_complex_impl() {
    let one = GaloisElement::from_u64(1);
    let two = GaloisElement::from_u64(2);
    assert_eq!(((one - two) * two + one + one + two) / two, one);
}

#[test]
fn check_parse() {
    let one = LargeUint::from_u64(1);
    let one_parsed = LargeUint::parse_bytes(b"1");
    assert_eq!(one, one_parsed);

    let foo = LargeUint::from_u64(12314123);
    let foo_parsed = LargeUint::parse_bytes(b"12314123");
    assert_eq!(foo, foo_parsed);
}

#[test]
fn galois_check_bits() {
    let one = LargeUint::from_u64(1);
    assert_eq!(one.bits(), 1);

    let one = LargeUint { elements: [0, 1, 1, 1, 1, 1, 0, 2] };
    assert_eq!(one.bits(), 7 * 64 + 2);
}
