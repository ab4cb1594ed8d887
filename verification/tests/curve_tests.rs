use pairings::elliptic_curve::{ECPoint, EllipticCurve};
use pairings::errors::ErrorKind;
use pairings::field::Field;
use pairings::prime_field::PrimeField;
use pairings::rng::Lcg;

type F11 = PrimeField<11>;

fn pf(v: u64) -> F11 {
    PrimeField { value: v }
}

/// The curve y^2 = x^3 + x + 6 over F11 (a1 = a2 = a3 = 0, a4 = 1, a6 = 6).
fn curve11() -> EllipticCurve<F11> {
    EllipticCurve::new_long_weierstrass((pf(0), pf(0), pf(0), pf(1), pf(0), pf(6)))
}

fn aff(x: u64, y: u64) -> ECPoint<F11> {
    ECPoint::new_affine(pf(x), pf(y))
}

fn mul_point(curve: &EllipticCurve<F11>, p: &ECPoint<F11>, k: u32) -> ECPoint<F11> {
    let mut acc: ECPoint<F11> = ECPoint::PointAtInfinity;
    for _ in 0..k {
        acc = curve.add(&acc, p);
    }
    acc
}

// --- Textbook values on the F11 curve.  The group of this curve has 13
// --- elements, so every point other than the identity has order 13.

#[test]
fn doubling_on_f11_curve() {
    let curve = curve11();
    let p = aff(2, 7);
    let d = curve.add(&p, &p);
    assert_eq!(d, aff(5, 2));
    assert_eq!(curve.double(&p), aff(5, 2));
}

#[test]
fn point_order_on_f11_curve() {
    let curve = curve11();
    let p = aff(2, 7);
    // the group of this curve is cyclic of (prime) order 13
    assert_eq!(mul_point(&curve, &p, 5), aff(3, 6));
    assert_eq!(mul_point(&curve, &p, 13), ECPoint::PointAtInfinity);
    for k in 1..13u32 {
        assert!(mul_point(&curve, &p, k) != ECPoint::PointAtInfinity);
    }
}

// --- Group axioms on concrete and random points --------------------------

#[test]
fn group_identity_and_inverse() {
    let curve = curve11();
    let mut rng = Lcg::new(5);
    for _ in 0..10 {
        let p = curve.dup().random_point(&mut rng).unwrap();
        let inf: ECPoint<F11> = EllipticCurve::infinity_point();
        assert_eq!(curve.add(&p, &inf), p);
        assert_eq!(curve.add(&inf, &p), p);
        let minus_p = curve.invert(&p).unwrap();
        assert_eq!(curve.add(&p, &minus_p), ECPoint::PointAtInfinity);
    }
}

#[test]
fn group_commutativity_and_double() {
    let curve = curve11();
    let mut rng = Lcg::new(17);
    for _ in 0..10 {
        let p = curve.dup().random_point(&mut rng).unwrap();
        let q = curve.dup().random_point(&mut rng).unwrap();
        assert_eq!(curve.add(&p, &q), curve.add(&q, &p));
        assert_eq!(curve.double(&p), curve.add(&p, &p));
    }
}

#[test]
fn group_associativity() {
    let curve = curve11();
    let mut rng = Lcg::new(23);
    for _ in 0..10 {
        let p = curve.dup().random_point(&mut rng).unwrap();
        let q = curve.dup().random_point(&mut rng).unwrap();
        let r = curve.dup().random_point(&mut rng).unwrap();
        let left = curve.add(&curve.add(&p, &q), &r);
        let right = curve.add(&p, &curve.add(&q, &r));
        assert_eq!(left, right);
    }
}

// --- Random points land on the curve --------------------------------------

#[test]
fn random_points_are_on_curve() {
    let curve = curve11();
    let mut rng = Lcg::new(31);
    for _ in 0..20 {
        let p = curve.dup().random_point(&mut rng).unwrap();
        assert!(p != ECPoint::PointAtInfinity);
        assert!(curve.dup().is_on_curve(&p));
    }
}

#[test]
fn is_on_curve_detects_outsiders() {
    let curve = curve11();
    assert!(curve.dup().is_on_curve(&aff(2, 7)));
    assert!(!curve.dup().is_on_curve(&aff(2, 8)));
    assert!(curve.dup().is_on_curve(&ECPoint::PointAtInfinity));
}

// --- The line function vanishes on its line --------------------------------

#[test]
fn line_vanishes_exactly_on_the_line() {
    let curve = curve11();
    let p = aff(2, 7);
    let q = aff(5, 2);
    // the chord through P and Q is y = 2x + 3; it meets the curve again at
    // (8, 8) = -(P + Q)
    assert_eq!(curve.add(&p, &q), aff(8, 3));
    let at_third = curve.line(&p, &q, &aff(8, 8)).unwrap();
    assert_eq!(at_third.value, 0);
    let at_p = curve.line(&p, &q, &p).unwrap();
    assert_eq!(at_p.value, 0);
    // (3, 5) is on the curve but not on that line: 2*3 + 3 = 9 != 5
    let off = curve.line(&p, &q, &aff(3, 5)).unwrap();
    assert!(off.value != 0);
    // a non-curve point off the line is not special for the line function
    let off2 = curve.line(&p, &q, &aff(0, 0)).unwrap();
    assert_eq!(off2.value, (0 + 11 - (2 * 0 + 3) % 11) % 11);
}

#[test]
fn line_vertical_and_tangent_cases() {
    let curve = curve11();
    let p = aff(2, 7);
    let minus_p = curve.invert(&p).unwrap();
    // vertical through P vanishes at P and at -P, and is x - 2 elsewhere
    let v = curve.line(&p, &minus_p, &aff(5, 2)).unwrap();
    assert_eq!(v.value, 3);
    let v0 = curve.line(&p, &minus_p, &minus_p).unwrap();
    assert_eq!(v0.value, 0);
    // tangent at P vanishes at P and at -(2P) = (5, -2) = (5, 9)
    let t0 = curve.line(&p, &p, &p).unwrap();
    assert_eq!(t0.value, 0);
    let t1 = curve.line(&p, &p, &aff(5, 9)).unwrap();
    assert_eq!(t1.value, 0);
    let t2 = curve.line(&p, &p, &aff(5, 2)).unwrap();
    assert!(t2.value != 0);
    // lines through the point at infinity are verticals
    let inf: ECPoint<F11> = ECPoint::PointAtInfinity;
    let w = curve.line(&inf, &p, &aff(5, 2)).unwrap();
    assert_eq!(w.value, 3);
    let w2 = curve.line(&p, &inf, &aff(5, 2)).unwrap();
    assert_eq!(w2.value, 3);
}

// --- Invalid inputs ---------------------------------------------------------

#[test]
fn invert_infinity_rejected() {
    let curve = curve11();
    let e = curve.invert(&ECPoint::PointAtInfinity).unwrap_err();
    assert!(matches!(e, ErrorKind::InvalidInput(_)));
}

#[test]
fn line_at_infinity_rejected() {
    let curve = curve11();
    let p = aff(2, 7);
    let q = aff(5, 2);
    let e = curve.line(&p, &q, &ECPoint::PointAtInfinity).unwrap_err();
    assert!(matches!(e, ErrorKind::InvalidInput(_)));
}

#[test]
fn accessors_return_the_coefficients() {
    let curve = curve11();
    let (a1, a2, a3, a4, a5, a6) = curve.get_a_invariants();
    assert_eq!(
        (a1.value, a2.value, a3.value, a4.value, a5.value, a6.value),
        (0, 0, 0, 1, 0, 6)
    );
    let p = ECPoint::new_affine(pf(2), pf(7));
    assert_eq!(p, aff(2, 7));
    assert!(!p.is_zero());
    let inf: ECPoint<F11> = ECPoint::PointAtInfinity;
    assert!(inf.is_zero());
}
