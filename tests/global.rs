use csidh::consts::{PBITS, P_LIMBS};
use csidh::galois::GaloisElement;

#[test]
fn global_check_bits() {
    let p = GaloisElement { elements: P_LIMBS };
    assert_eq!(PBITS, p.into_large_uint_priv().bits());
}
