use csidh::galois::GaloisElement;
use csidh::large_uint::LargeUint;
use csidh::montgomery::{Curve, Point, ProjectivePoint};

const X_P: &[u8] = b"2051044887188588280366899510711463515184102432059522841387541984999186019238289110841661333718393379209806643406155944602233875537370058705956384966209858";
const Y_P: &[u8] = b"2999054700883294606115636709285947688603015463995111523694534197644452886751843273757676343103953201273958036952062931228773567734286840492294219977378136";
const X_9P: &[u8] = b"1254817631949275079030490581963578364746575569014839158947538007979236709253796922466332191140273712204313677321924940880514829958528954596325165920058277";
const Y_9P: &[u8] = b"2381495309685763751265865484184529659090354786855457591442552214156841700513768692570497752099605704710183797526595611214891101033449784504091079214700929";

#[test]
fn montgomery_check_mul() {
    let x = LargeUint::parse_bytes(X_P);
    let y = LargeUint::parse_bytes(Y_P);
    let other_x = LargeUint::parse_bytes(X_9P);
    let other_y = LargeUint::parse_bytes(Y_9P);

    let a = 0u32.into();
    let b = 1u32.into();
    let curve = Curve::new(a, b);
    let point = Point::new(curve, x, y);
    assert!(curve.contains(&point));
    let other_point = Point::new(curve, other_x, other_y);
    assert!(curve.contains(&other_point));

    let multiplied = point.multiply(&LargeUint::from_u64(9u64)).unproject();

    println!(
        "X: {:?}\nY: {:?}\nZ: {:?}\n\nX: {:?}\nY: {:?}\nZ: {:?}",
        multiplied.x.into_large_uint(),
        multiplied.y.into_large_uint(),
        multiplied.z.into_large_uint(),
        other_point.x.into_large_uint(),
        other_point.y.into_large_uint(),
        other_point.z.into_large_uint()
    );

    assert_eq!(other_point, multiplied);
}

#[test]
fn check_ladder2() {
    let x = LargeUint::parse_bytes(X_P);
    let y = LargeUint::parse_bytes(Y_P);

    let a = 0u32.into();
    let b = 1u32.into();
    let curve = Curve::new(a, b);
    let point = Point::new(curve, x, y);
    assert!(curve.contains(&point));

    let mut mult = point.projectivize().ladder(&curve.a, &LargeUint::from_u64(5)).0;

    let p_curve = ProjectivePoint::new(curve.a, GaloisElement::from_u64(1));

    let mut mult2 = point.projectivize().ladder2(&p_curve, &LargeUint::from_u64(5));

    mult.normalize();
    mult2.normalize();
    assert_eq!(mult, mult2)
}

#[test]
fn check_isogeny() {
    let x = LargeUint::parse_bytes(X_P);
    let y = LargeUint::parse_bytes(Y_P);
    let other_x = LargeUint::parse_bytes(X_9P);
    let other_y = LargeUint::parse_bytes(Y_9P);

    let a = 0u32.into();
    let b = 1u32.into();
    let curve = Curve::new(a, b);
    let point = Point::new(curve, x, y);
    assert!(curve.contains(&point));
    let other_point = Point::new(curve, other_x, other_y);

    let mut proj_c = ProjectivePoint::new(curve.a, GaloisElement::from_u64(3));
    let proj_other = other_point.projectivize().ladder2(&proj_c, &LargeUint::from_u64(3));
    let mut proj_point = point.projectivize();

    Curve::isogeny(&mut proj_c, &mut proj_point, &proj_other, 3);

    proj_c.z.inverse();
    proj_c.x.mul_with(&proj_c.z);
    proj_point.normalize();

    assert!(Curve::right_side(&proj_c.x, &proj_point.x).is_square());
}

#[test]
fn ladder_linearity_on_base_curve() {
    let x = LargeUint::parse_bytes(X_P);
    let curve = Curve::new(0u32.into(), 1u32.into());
    let p = ProjectivePoint::new(GaloisElement::from_large_uint(x), GaloisElement::from_u64(1));
    let c = ProjectivePoint::new(curve.a, GaloisElement::from_u64(1));
    for k in 2u64..12 {
        let prev = p.ladder2(&c, &LargeUint::from_u64(k - 1));
        let cur = p.ladder2(&c, &LargeUint::from_u64(k));
        let mut next = p.ladder2(&c, &LargeUint::from_u64(k + 1));
        let mut sum = cur.add(&p, &prev);
        next.normalize();
        sum.normalize();
        assert_eq!(next, sum);
    }
}

#[test]
fn ladder_of_zero_is_infinity() {
    let x = LargeUint::parse_bytes(X_P);
    let p = ProjectivePoint::new(GaloisElement::from_large_uint(x), GaloisElement::from_u64(1));
    let c = ProjectivePoint::new(GaloisElement::from_u64(0), GaloisElement::from_u64(1));
    let r = p.ladder2(&c, &LargeUint::new());
    assert!(r.is_infinity());
    assert_eq!(r.x, GaloisElement::from_u64(1));
    assert!(!p.is_infinity());
}

#[test]
fn ladder_agreement_for_nine() {
    let x = LargeUint::parse_bytes(X_P);
    let y = LargeUint::parse_bytes(Y_P);
    let curve = Curve::new(0u32.into(), 1u32.into());
    let point = Point::new(curve, x, y);
    let c = ProjectivePoint::new(curve.a, GaloisElement::from_u64(1));
    let mut a = point.projectivize().ladder(&curve.a, &LargeUint::from_u64(9)).0;
    let mut b = point.projectivize().ladder2(&c, &LargeUint::from_u64(9));
    a.normalize();
    b.normalize();
    assert_eq!(a, b);
    let nine = Point::new(curve, LargeUint::parse_bytes(X_9P), LargeUint::parse_bytes(Y_9P));
    assert_eq!(a.x, nine.x);
}

#[test]
fn doubling_formulas_agree() {
    let x = LargeUint::parse_bytes(X_P);
    let p = ProjectivePoint::new(GaloisElement::from_large_uint(x), GaloisElement::from_u64(1));
    let a = GaloisElement::from_u64(0);
    let c = ProjectivePoint::new(a, GaloisElement::from_u64(1));
    let mut d1 = p.double(&a);
    let mut d2 = p.double2(&c);
    d1.normalize();
    d2.normalize();
    assert_eq!(d1, d2);
}

#[test]
fn right_side_of_small_values() {
    // x (x^2 + a x + 1) with a = 3, x = 2: 2 * (4 + 6 + 1) = 22
    let r = Curve::right_side(&GaloisElement::from_u64(3), &GaloisElement::from_u64(2));
    assert_eq!(r, GaloisElement::from_u64(22));
}

#[test]
fn point_off_the_curve() {
    let curve = Curve::new(0u32.into(), 1u32.into());
    let point = Point::new(curve, LargeUint::from_u64(2), LargeUint::from_u64(3));
    assert!(!curve.contains(&point));
}

#[test]
fn projectivize_zero_is_infinity() {
    let curve = Curve::new(0u32.into(), 1u32.into());
    let point = Point::new(curve, LargeUint::new(), LargeUint::new());
    assert!(point.projectivize().is_infinity());
}
