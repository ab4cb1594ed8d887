use pairings::bigint::BigInt;
use pairings::elliptic_curve::{ECPoint, EllipticCurve};
use pairings::errors::ErrorKind;
use pairings::field::Field;
use pairings::finite_field::FiniteField;
use pairings::pairings::{ate_pairing, miller, tate_pairing, weil_pairing};
use pairings::prime_field::PrimeField;
use pairings::rng::Lcg;

type Fq = FiniteField<19, 2>;

/// Fq = F19[X]/(X^2 + 1); the fold-back coefficients of I are [-1, 0].
fn fq(c0: u64, c1: u64) -> Fq {
    FiniteField {
        coords: vec![
            PrimeField { value: c0 },
            PrimeField { value: c1 },
        ],
        polynomial: vec![
            PrimeField { value: 18 },
            PrimeField { value: 0 },
        ],
    }
}

fn big(v: u64) -> BigInt {
    BigInt::from_u64(v)
}

/// The supersingular curve y^2 = x^3 + x over F19, seen over Fq = F19^2.
/// Its group over F19 has 19 + 1 = 20 points; (5, 4) has order 5, and the
/// distortion map (x, y) -> (-x, iy) gives an independent point of order 5
/// over Fq, so the 5-torsion is rational over Fq (embedding degree 2).
fn curve19() -> EllipticCurve<Fq> {
    EllipticCurve::new_long_weierstrass((fq(0, 0), fq(0, 0), fq(0, 0), fq(1, 0), fq(0, 0), fq(0, 0)))
}

/// P = (5, 4), an order-5 point with both coordinates in the base field.
fn point_p() -> ECPoint<Fq> {
    ECPoint::new_affine(fq(5, 0), fq(4, 0))
}

/// Q = (-5, 4i), the image of P under the distortion map.
fn point_q() -> ECPoint<Fq> {
    ECPoint::new_affine(fq(14, 0), fq(0, 4))
}

fn mul_point(curve: &EllipticCurve<Fq>, p: &ECPoint<Fq>, k: u32) -> ECPoint<Fq> {
    let mut acc: ECPoint<Fq> = ECPoint::PointAtInfinity;
    for _ in 0..k {
        acc = curve.add(&acc, p);
    }
    acc
}

fn one() -> Fq {
    fq(1, 0)
}

#[test]
fn torsion_points_are_valid() {
    let curve = curve19();
    let p = point_p();
    let q = point_q();
    assert!(curve.dup().is_on_curve(&p));
    assert!(curve.dup().is_on_curve(&q));
    assert_eq!(mul_point(&curve, &p, 5), ECPoint::PointAtInfinity);
    assert_eq!(mul_point(&curve, &q, 5), ECPoint::PointAtInfinity);
    assert!(mul_point(&curve, &p, 1) != ECPoint::PointAtInfinity);
    assert!(mul_point(&curve, &q, 2) != ECPoint::PointAtInfinity);
}

// --- Miller with n = 1 is vacuous -------------------------------------------

#[test]
fn miller_with_order_one() {
    let curve = curve19();
    let r = miller(&curve, &point_p(), &point_q(), &big(1)).unwrap();
    assert!(r.equals(&one()));
    let r2 = miller(&curve, &point_q(), &point_p(), &big(1)).unwrap();
    assert!(r2.equals(&one()));
}

#[test]
fn miller_with_order_zero_gives_one() {
    let curve = curve19();
    let r = miller(&curve, &point_p(), &point_q(), &big(0)).unwrap();
    assert!(r.equals(&one()));
}

// --- Miller rejects points at infinity --------------------------------------

#[test]
fn miller_rejects_infinity() {
    let curve = curve19();
    let inf: ECPoint<Fq> = ECPoint::PointAtInfinity;
    let e = miller(&curve, &inf, &point_q(), &big(5)).unwrap_err();
    assert!(matches!(e, ErrorKind::InvalidInput(_)));
    let e2 = miller(&curve, &point_p(), &inf, &big(5)).unwrap_err();
    assert!(matches!(e2, ErrorKind::InvalidInput(_)));
}

// --- The Weil pairing on independent 5-torsion points -----------------------

#[test]
fn weil_pairing_is_primitive_root() {
    let curve = curve19();
    let w = weil_pairing(&curve, point_p(), point_q(), big(5)).unwrap();
    // a 5-th root of unity, and not 1: primitive
    assert!(!w.equals(&one()));
    assert!(w.zpow(5).equals(&one()));
}

#[test]
fn weil_product_with_swap_is_one() {
    let curve = curve19();
    let w1 = weil_pairing(&curve, point_p(), point_q(), big(5)).unwrap();
    let w2 = weil_pairing(&curve, point_q(), point_p(), big(5)).unwrap();
    assert!(w1.mul(&w2).equals(&one()));
}

#[test]
fn weil_degenerate_inputs_give_one() {
    let curve = curve19();
    let w = weil_pairing(&curve, point_p(), point_p(), big(5)).unwrap();
    assert!(w.equals(&one()));
    let inf: ECPoint<Fq> = ECPoint::PointAtInfinity;
    let w2 = weil_pairing(&curve, inf, point_q(), big(5)).unwrap();
    assert!(w2.equals(&one()));
}

#[test]
fn weil_bilinearity() {
    let curve = curve19();
    let w = weil_pairing(&curve, point_p(), point_q(), big(5)).unwrap();
    let p2 = mul_point(&curve, &point_p(), 2);
    let q3 = mul_point(&curve, &point_q(), 3);
    // e(2P, Q) = e(P, Q)^2
    let w_left = weil_pairing(&curve, p2.clone(), point_q(), big(5)).unwrap();
    assert!(w_left.equals(&w.zpow(2)));
    // e(P, 3Q) = e(P, Q)^3
    let w_right = weil_pairing(&curve, point_p(), q3.clone(), big(5)).unwrap();
    assert!(w_right.equals(&w.zpow(3)));
    // e(2P, 3Q) = e(P, Q)^6 = e(P, Q)
    let w_both = weil_pairing(&curve, p2, q3, big(5)).unwrap();
    assert!(w_both.equals(&w.zpow(6)));
}

// --- The Tate pairing lands in the group the Weil pairing generates ---------

#[test]
fn tate_is_a_power_of_weil() {
    let curve = curve19();
    let mut rng = Lcg::new(2024);
    let w = weil_pairing(&curve, point_p(), point_q(), big(5)).unwrap();
    let t = tate_pairing(&curve, &point_p(), &point_q(), &big(5), &big(2), &mut rng).unwrap();
    assert!(t.zpow(5).equals(&one()));
    let mut matched = false;
    for j in 0..5i64 {
        if t.equals(&w.zpow(j)) {
            matched = true;
        }
    }
    assert!(matched);
    // non-degenerate on this input
    assert!(!t.equals(&one()));
}

// --- The pole-avoidance fallback of the reduced Tate pairing ----------------

#[test]
fn tate_pole_move() {
    let curve = curve19();
    let p = point_p();
    // Q inside the subgroup of P puts a pole of the Miller function on Q
    let q = mul_point(&curve, &p, 2);
    let direct = miller(&curve, &p, &q, &big(5));
    assert!(direct.is_err());
    let mut rng = Lcg::new(77);
    let t = tate_pairing(&curve, &p, &q, &big(5), &big(2), &mut rng).unwrap();
    // manual translation by the fixed point R = point_q()
    let r = point_q();
    let q_shift = curve.add(&q, &r);
    let t1 = tate_pairing(&curve, &p, &q_shift, &big(5), &big(2), &mut rng).unwrap();
    let t2 = tate_pairing(&curve, &p, &r, &big(5), &big(2), &mut rng).unwrap();
    let expected = *t1.div(&t2).unwrap();
    assert!(t.equals(&expected));
}

// --- The Ate pairing ---------------------------------------------------------

#[test]
fn ate_pairing_lands_in_the_torsion() {
    let curve = curve19();
    // the curve is supersingular over F19: trace t = 0, so t - 1 = -1
    let trace_m_1 = BigInt::zero().sub(&big(1));
    let a = ate_pairing(&curve, &point_p(), &point_q(), &big(5), &big(2), &trace_m_1).unwrap();
    assert!(a.zpow(5).equals(&one()));
}

#[test]
fn ate_pairing_rejects_infinity() {
    let curve = curve19();
    let inf: ECPoint<Fq> = ECPoint::PointAtInfinity;
    let trace_m_1 = BigInt::zero().sub(&big(1));
    let e = ate_pairing(&curve, &inf, &point_q(), &big(5), &big(2), &trace_m_1).unwrap_err();
    assert!(matches!(e, ErrorKind::InvalidInput(_)));
}

// --- Miller bilinearity, asserted through the Weil pairing -------------------

#[test]
fn miller_bilinearity_via_weil() {
    let curve = curve19();
    let w = weil_pairing(&curve, point_p(), point_q(), big(5)).unwrap();
    // a = 2, b = 3, both coprime to 5: e(aP, bQ) == e(P, Q)^(a*b)
    let pa = mul_point(&curve, &point_p(), 2);
    let qb = mul_point(&curve, &point_q(), 3);
    let w_ab = weil_pairing(&curve, pa, qb, big(5)).unwrap();
    assert!(w_ab.equals(&w.zpow(6)));
    // and the pairing with exponent 5 collapses: e(5P, Q) needs 5P = O,
    // which the degenerate rule sends to one
    let p5 = mul_point(&curve, &point_p(), 5);
    let w5 = weil_pairing(&curve, p5, point_q(), big(5)).unwrap();
    assert!(w5.equals(&one()));
}
