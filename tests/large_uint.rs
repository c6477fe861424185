use csidh::consts::P_LIMBS;
use csidh::large_uint::LargeUint;

const P_TOP: [u64; 8] = P_LIMBS;

#[test]
fn add_carries_out_of_top_limb() {
    let mut a = LargeUint { elements: [u64::MAX; 8] };
    assert!(a.add_from(&LargeUint::from_u64(1)));
    assert_eq!(a, LargeUint::new());
}

#[test]
fn sub_borrows_below_zero() {
    let mut a = LargeUint::from_u64(1);
    assert!(a.sub_from(&LargeUint::from_u64(2)));
    assert_eq!(a, LargeUint { elements: [u64::MAX; 8] });
    let mut b = LargeUint::from_u64(5);
    assert!(!b.sub_from(&LargeUint::from_u64(5)));
    assert_eq!(b, LargeUint::new());
}

#[test]
fn mul_with_u64_carries_and_wraps() {
    let mut a = LargeUint { elements: [u64::MAX, 0, 0, 0, 0, 0, 0, 0] };
    a.mul_with_u64(2);
    assert_eq!(a, LargeUint { elements: [u64::MAX - 1, 1, 0, 0, 0, 0, 0, 0] });
    let mut top = LargeUint { elements: [0, 0, 0, 0, 0, 0, 0, 1 << 63] };
    top.mul_with_u64(2);
    assert_eq!(top, LargeUint::new());
}

#[test]
fn bits_and_bit_access() {
    assert_eq!(LargeUint::new().bits(), 0);
    let x = LargeUint { elements: [0, 0b101, 0, 0, 0, 0, 0, 0] };
    assert_eq!(x.bits(), 64 + 3);
    assert!(x.bit(64));
    assert!(!x.bit(65));
    assert!(x.bit(66));
    assert!(!x.bit(0));
    assert!(LargeUint { elements: [u64::MAX; 8] }.bit(511));
    assert!(!LargeUint { elements: P_TOP }.bit(511));
}

#[test]
fn parse_bytes_of_larger_numbers() {
    assert_eq!(LargeUint::parse_bytes(b""), LargeUint::new());
    let x = LargeUint::parse_bytes(b"18446744073709551616");
    assert_eq!(x, LargeUint { elements: [0, 1, 0, 0, 0, 0, 0, 0] });
}

#[test]
fn as_bytes_is_little_endian() {
    let x = LargeUint { elements: [0x0102, 0, 0, 0, 0, 0, 0, 0xff00_0000_0000_0000] };
    let b = x.as_bytes();
    assert_eq!(b.len(), 64);
    assert_eq!(b[0], 2);
    assert_eq!(b[1], 1);
    assert_eq!(b[2], 0);
    assert_eq!(b[63], 0xff);
    assert_eq!(b[62], 0);
}

#[test]
fn from_u32_matches_from_u64() {
    let a: LargeUint = 77u32.into();
    assert_eq!(a, LargeUint::from_u64(77));
}
