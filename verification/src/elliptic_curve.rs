use vstd::prelude::*;
use vstd::arithmetic::div_mod::*;
use crate::arith::{inv_rel, is_prime, lemma_mod_add_neg, lemma_prime_inverse_exists};
use crate::errors::ErrorKind;
use crate::field::Field;
use crate::prime_field::{lemma_pf_opp_frac, PrimeField};
use crate::rng::Lcg;

verus! {

/// Specification-level shape of a curve point: affine coordinates or the
/// point at infinity, over the views of the field elements.
pub enum PointV<V> {
    Affine(V, V),
    Infinity,
}

/// Specification-level curve data: the six long-Weierstrass coefficients
/// (`a5` is carried for uniform indexing and unused by the equation).
pub struct CurveV<V> {
    pub a1: V,
    pub a2: V,
    pub a3: V,
    pub a4: V,
    pub a5: V,
    pub a6: V,
}

type WCoeffs<F> = (F, F, F, F, F, F);

/// Rational point on an elliptic curve, in affine coordinates.
#[derive(Clone, Debug, PartialEq, Eq)]
pub enum ECPoint<F> {
    AffinePoint(F, F),
    PointAtInfinity,
}

/// Elliptic curve in long Weierstrass form
/// `y^2 + a1 x y + a3 y = x^3 + a2 x^2 + a4 x + a6`.
#[derive(Debug, PartialEq, Eq)]
pub struct EllipticCurve<F> {
    weierstrass_coefficients: WCoeffs<F>,
}

impl<F: Field> View for ECPoint<F> {
    type V = PointV<F::V>;

    open spec fn view(&self) -> PointV<F::V> {
        match self {
            ECPoint::AffinePoint(x, y) => PointV::Affine(x@, y@),
            ECPoint::PointAtInfinity => PointV::Infinity,
        }
    }
}

impl<F: Field> View for EllipticCurve<F> {
    type V = CurveV<F::V>;

    closed spec fn view(&self) -> CurveV<F::V> {
        CurveV {
            a1: self.weierstrass_coefficients.0@,
            a2: self.weierstrass_coefficients.1@,
            a3: self.weierstrass_coefficients.2@,
            a4: self.weierstrass_coefficients.3@,
            a5: self.weierstrass_coefficients.4@,
            a6: self.weierstrass_coefficients.5@,
        }
    }
}

/// All six coefficients are well-formed elements of one field instance.
pub open spec fn curve_wf<F: Field>(c: CurveV<F::V>) -> bool {
    &&& F::v_wf(c.a1)
    &&& F::v_wf(c.a2)
    &&& F::v_wf(c.a3)
    &&& F::v_wf(c.a4)
    &&& F::v_wf(c.a5)
    &&& F::v_wf(c.a6)
    &&& F::v_desc(c.a2) == F::v_desc(c.a1)
    &&& F::v_desc(c.a3) == F::v_desc(c.a1)
    &&& F::v_desc(c.a4) == F::v_desc(c.a1)
    &&& F::v_desc(c.a5) == F::v_desc(c.a1)
    &&& F::v_desc(c.a6) == F::v_desc(c.a1)
}

/// The coordinates of a point are well-formed elements of one field.
pub open spec fn pt_elems_wf<F: Field>(p: PointV<F::V>) -> bool {
    match p {
        PointV::Affine(x, y) => F::v_wf(x) && F::v_wf(y) && F::v_desc(x) == F::v_desc(y),
        PointV::Infinity => true,
    }
}

/// The point is well formed over the field of the curve.
pub open spec fn pt_wf<F: Field>(c: CurveV<F::V>, p: PointV<F::V>) -> bool {
    match p {
        PointV::Affine(x, y) => F::v_wf(x) && F::v_wf(y) && F::v_desc(x) == F::v_desc(c.a1)
            && F::v_desc(y) == F::v_desc(c.a1),
        PointV::Infinity => true,
    }
}

/// The point satisfies the Weierstrass equation of the curve (the point at
/// infinity always does).
pub open spec fn pt_on_curve<F: Field>(c: CurveV<F::V>, p: PointV<F::V>) -> bool {
    match p {
        PointV::Infinity => true,
        PointV::Affine(x, y) => {
            let lhs = F::v_add(
                F::v_add(F::v_mul(y, y), F::v_mul(y, F::v_mul(x, c.a1))),
                F::v_mul(y, c.a3),
            );
            let rhs = F::v_add(
                F::v_add(F::v_add(F::v_zpow(x, 3), F::v_mul(F::v_mul(x, x), c.a2)), F::v_mul(x, c.a4)),
                c.a6,
            );
            lhs == rhs
        },
    }
}

/// The group inverse of an affine point.
pub open spec fn pt_invert<F: Field>(c: CurveV<F::V>, x: F::V, y: F::V) -> PointV<F::V> {
    PointV::Affine(x, F::v_neg(F::v_add(F::v_add(c.a3, F::v_mul(c.a1, x)), y)))
}

/// The affine group law: chord-and-tangent addition with the point at
/// infinity as identity.  When the slope denominator has no inverse (which
/// cannot happen for distinct points of a true field) the result is the
/// point at infinity.
pub open spec fn pt_add<F: Field>(c: CurveV<F::V>, p: PointV<F::V>, q: PointV<F::V>) -> PointV<
    F::V,
> {
    match p {
        PointV::Infinity => q,
        PointV::Affine(x_p, y_p) => match q {
            PointV::Infinity => p,
            PointV::Affine(x_q, y_q) => {
                let sum = F::v_add(F::v_add(F::v_add(y_p, y_q), F::v_mul(c.a1, x_q)), c.a3);
                if x_p == x_q && sum == F::v_zero(sum) {
                    PointV::Infinity
                } else {
                    let denom = if x_p == x_q {
                        F::v_add(F::v_add(c.a3, F::v_zmul(y_p, 2)), F::v_mul(c.a1, x_p))
                    } else {
                        F::v_add(x_q, F::v_neg(x_p))
                    };
                    let lambda_num = if x_p == x_q {
                        F::v_add(
                            F::v_add(
                                F::v_add(c.a4, F::v_zmul(F::v_mul(x_p, x_p), 3)),
                                F::v_zmul(F::v_mul(c.a2, x_p), 2),
                            ),
                            F::v_neg(F::v_mul(c.a1, y_p)),
                        )
                    } else {
                        F::v_add(y_q, F::v_neg(y_p))
                    };
                    let nu_num = if x_p == x_q {
                        F::v_add(
                            F::v_add(
                                F::v_add(
                                    F::v_neg(F::v_mul(F::v_mul(x_p, x_p), x_p)),
                                    F::v_mul(c.a4, x_p),
                                ),
                                F::v_zmul(c.a6, 2),
                            ),
                            F::v_neg(F::v_mul(c.a3, y_p)),
                        )
                    } else {
                        F::v_add(F::v_mul(y_p, x_q), F::v_neg(F::v_mul(y_q, x_p)))
                    };
                    if !F::v_invertible(denom) {
                        PointV::Infinity
                    } else {
                        let lambda = F::v_mul(lambda_num, F::v_inv(denom));
                        let nu = F::v_mul(nu_num, F::v_inv(denom));
                        let x = F::v_add(
                            F::v_add(
                                F::v_add(F::v_neg(c.a2), F::v_neg(F::v_add(x_p, x_q))),
                                F::v_mul(lambda, lambda),
                            ),
                            F::v_mul(c.a1, lambda),
                        );
                        let y = F::v_neg(
                            F::v_add(F::v_add(c.a3, nu), F::v_mul(x, F::v_add(lambda, c.a1))),
                        );
                        PointV::Affine(x, y)
                    }
                }
            },
        },
    }
}

/// The slope denominator of the line through `p` and `q` has an inverse
/// whenever the evaluation needs one.
pub open spec fn line_defined<F: Field>(c: CurveV<F::V>, p: PointV<F::V>, q: PointV<F::V>) -> bool {
    match (p, q) {
        (PointV::Affine(x_p, y_p), PointV::Affine(x_q, y_q)) => {
            if x_p != x_q || y_p != y_q {
                if x_p == x_q {
                    true
                } else {
                    F::v_invertible(F::v_add(x_q, F::v_neg(x_p)))
                }
            } else {
                let denom = F::v_add(F::v_add(F::v_zmul(y_p, 2), c.a3), F::v_mul(x_p, c.a1));
                denom == F::v_zero(denom) || F::v_invertible(denom)
            }
        },
        _ => true,
    }
}

/// Value of the line through `p` and `q` (chord, tangent or vertical) at the
/// affine point `r`.
pub open spec fn line_at<F: Field>(
    c: CurveV<F::V>,
    p: PointV<F::V>,
    q: PointV<F::V>,
    r: PointV<F::V>,
) -> F::V {
    match r {
        PointV::Infinity => F::v_zero(c.a1),
        PointV::Affine(x_r, y_r) => match (p, q) {
            (PointV::Infinity, PointV::Infinity) => F::v_one(x_r),
            (PointV::Infinity, PointV::Affine(x_q, y_q)) => F::v_add(x_r, F::v_neg(x_q)),
            (PointV::Affine(x_p, y_p), PointV::Infinity) => F::v_add(x_r, F::v_neg(x_p)),
            (PointV::Affine(x_p, y_p), PointV::Affine(x_q, y_q)) => {
                if x_p != x_q || y_p != y_q {
                    if x_p == x_q {
                        F::v_add(x_r, F::v_neg(x_p))
                    } else {
                        let slope = F::v_mul(
                            F::v_add(y_q, F::v_neg(y_p)),
                            F::v_inv(F::v_add(x_q, F::v_neg(x_p))),
                        );
                        F::v_add(
                            F::v_add(y_r, F::v_neg(y_p)),
                            F::v_neg(F::v_mul(slope, F::v_add(x_r, F::v_neg(x_p)))),
                        )
                    }
                } else {
                    let denom = F::v_add(F::v_add(F::v_zmul(y_p, 2), c.a3), F::v_mul(x_p, c.a1));
                    if denom == F::v_zero(denom) {
                        F::v_add(x_r, F::v_neg(x_p))
                    } else {
                        let num = F::v_add(
                            F::v_add(
                                F::v_add(F::v_zmul(F::v_mul(x_p, x_p), 3), F::v_neg(F::v_mul(y_p, c.a1))),
                                c.a4,
                            ),
                            F::v_zmul(F::v_mul(x_p, c.a2), 2),
                        );
                        let slope = F::v_mul(num, F::v_inv(denom));
                        F::v_add(
                            F::v_add(y_r, F::v_neg(y_p)),
                            F::v_neg(F::v_mul(slope, F::v_add(x_r, F::v_neg(x_p)))),
                        )
                    }
                }
            },
        },
    }
}

impl<F: Field> ECPoint<F> {
    /// New point from affine coordinates.
    pub fn new_affine(x: F, y: F) -> (r: Self)
        ensures
            r@ == PointV::<F::V>::Affine(x@, y@),
    {
        ECPoint::AffinePoint(x, y)
    }

    /// True exactly of the point at infinity, the zero of the group.
    pub fn is_zero(&self) -> (b: bool)
        ensures
            b == (self@ is Infinity),
    {
        match self {
            ECPoint::PointAtInfinity => true,
            ECPoint::AffinePoint(_, _) => false,
        }
    }

    /// Copy of the point.
    pub fn dup(&self) -> (r: Self)
        requires
            pt_elems_wf::<F>(self@),
        ensures
            r@ == self@,
    {
        match self {
            ECPoint::AffinePoint(x, y) => ECPoint::AffinePoint(x.dup(), y.dup()),
            ECPoint::PointAtInfinity => ECPoint::PointAtInfinity,
        }
    }
}

/// Structural equality of two points over one field instance.
pub fn point_eq<F: Field>(a: &ECPoint<F>, b: &ECPoint<F>) -> (r: bool)
    requires
        pt_elems_wf::<F>(a@),
        pt_elems_wf::<F>(b@),
        a@ is Affine && b@ is Affine ==> F::v_desc(a@->0) == F::v_desc(b@->0),
    ensures
        r == (a@ == b@),
{
    match (a, b) {
        (ECPoint::PointAtInfinity, ECPoint::PointAtInfinity) => true,
        (ECPoint::AffinePoint(x1, y1), ECPoint::AffinePoint(x2, y2)) => x1.equals(x2) && y1.equals(
            y2,
        ),
        _ => false,
    }
}

impl<F: Field> EllipticCurve<F> {
    /// Copy of the curve.
    pub fn dup(&self) -> (r: Self)
        requires
            curve_wf::<F>(self@),
        ensures
            r@ == self@,
    {
        let (a1, a2, a3, a4, a5, a6) = &self.weierstrass_coefficients;
        EllipticCurve {
            weierstrass_coefficients: (a1.dup(), a2.dup(), a3.dup(), a4.dup(), a5.dup(), a6.dup()),
        }
    }

    /// New curve in long Weierstrass form
    /// `y^2 + a1 x y + a3 y = x^3 + a2 x^2 + a4 x + a6`.
    pub fn new_long_weierstrass(coeffs: WCoeffs<F>) -> (r: Self)
        ensures
            r@ == (CurveV {
                a1: coeffs.0@,
                a2: coeffs.1@,
                a3: coeffs.2@,
                a4: coeffs.3@,
                a5: coeffs.4@,
                a6: coeffs.5@,
            }),
    {
        EllipticCurve { weierstrass_coefficients: coeffs }
    }

    /// The identity element of the group.
    pub fn infinity_point() -> (r: ECPoint<F>)
        ensures
            r@ == PointV::<F::V>::Infinity,
    {
        ECPoint::PointAtInfinity
    }

    /// The six Weierstrass coefficients.
    pub fn get_a_invariants(&self) -> (r: &WCoeffs<F>)
        ensures
            r.0@ == self@.a1,
            r.1@ == self@.a2,
            r.2@ == self@.a3,
            r.3@ == self@.a4,
            r.4@ == self@.a5,
            r.5@ == self@.a6,
    {
        &self.weierstrass_coefficients
    }

    /// Both sides of the Weierstrass equation agree at the point.
    fn check_on_curve(&self, p: &ECPoint<F>) -> (b: bool)
        requires
            curve_wf::<F>(self@),
            pt_wf::<F>(self@, p@),
        ensures
            b == pt_on_curve::<F>(self@, p@),
    {
        match p {
            ECPoint::PointAtInfinity => true,
            ECPoint::AffinePoint(x_p, y_p) => {
                let (a1, a2, a3, a4, _a5, a6) = &self.weierstrass_coefficients;
                let lhs = y_p.square().add(&y_p.mul(&x_p.mul(a1))).add(&y_p.mul(a3));
                let rhs = x_p.zpow(3).add(&x_p.square().mul(a2)).add(&x_p.mul(a4)).add(a6);
                lhs.equals(&rhs)
            },
        }
    }

    /// Check that the point is on the curve.
    pub fn is_on_curve(self, p: &ECPoint<F>) -> (b: bool)
        requires
            curve_wf::<F>(self@),
            pt_wf::<F>(self@, p@),
        ensures
            b == pt_on_curve::<F>(self@, p@),
    {
        self.check_on_curve(p)
    }

    /// Random affine point of the curve, found by drawing abscissas until
    /// the quadratic for the ordinate has a root.  Every returned point is
    /// affine and satisfies the curve equation; after a bounded number of
    /// fruitless draws the search reports `InvalidInput` (the curve may be
    /// pathological, or the generator starved).
    pub fn random_point(self, rng: &mut Lcg) -> (res: Result<ECPoint<F>, ErrorKind>)
        requires
            curve_wf::<F>(self@),
        ensures
            (res matches Ok(r) ==> r@ is Affine && pt_wf::<F>(self@, r@) && pt_on_curve::<F>(
                self@,
                r@,
            )),
            (res matches Err(e) ==> e is InvalidInput),
    {
        let mut tries: u32 = 0;
        while tries < 100000
            invariant
                curve_wf::<F>(self@),
            decreases 100000 - tries,
        {
            tries += 1;
            let (a1, a2, a3, a4, _a5, a6) = &self.weierstrass_coefficients;
            let x = a1.random_element(rng);
            // y^2 + (a1 x + a3) y = x^3 + a2 x^2 + a4 x + a6
            let b = x.mul(a1).add(a3);
            let c = x.zpow(3).add(&x.square().mul(a2)).add(&x.mul(a4)).add(a6).neg();
            let delta = b.square().add(&c.zmul(4).neg());
            match c.one().zmul(2).invert() {
                Ok(half) => {
                    match delta.sqrt(rng) {
                        Ok(sq) => {
                            // y = (-b + sqrt(delta)) / 2
                            let y = half.mul(&b.neg().add(&sq));
                            let cand = ECPoint::AffinePoint(x, y);
                            if self.check_on_curve(&cand) {
                                return Ok(cand);
                            }
                        },
                        Err(_) => {},
                    }
                },
                Err(_) => {},
            }
        }
        Err(ErrorKind::InvalidInput("no curve point was found within the drawing budget"))
    }

    /// Evaluation of the line through `P` and `Q` (chord, tangent or
    /// vertical) at `R`.  `R` at infinity is `InvalidInput`; a slope whose
    /// denominator has no inverse is `NoInverse`.
    pub fn line(&self, pt_p: &ECPoint<F>, pt_q: &ECPoint<F>, pt_r: &ECPoint<F>) -> (res: Result<
        F,
        ErrorKind,
    >)
        requires
            curve_wf::<F>(self@),
            pt_wf::<F>(self@, pt_p@),
            pt_wf::<F>(self@, pt_q@),
            pt_wf::<F>(self@, pt_r@),
        ensures
            (res matches Ok(v) ==> pt_r@ is Affine && line_defined::<F>(self@, pt_p@, pt_q@) && v@
                == line_at::<F>(self@, pt_p@, pt_q@, pt_r@) && F::v_wf(v@) && F::v_desc(v@)
                == F::v_desc(self@.a1)),
            (res matches Err(e) ==> (pt_r@ is Infinity && e is InvalidInput) || (pt_r@ is Affine
                && !line_defined::<F>(self@, pt_p@, pt_q@) && e == ErrorKind::NoInverse)),
            (pt_r@ is Affine && line_defined::<F>(self@, pt_p@, pt_q@) ==> res is Ok),
    {
        let (x_r, y_r) = match pt_r {
            ECPoint::PointAtInfinity => {
                return Err(ErrorKind::InvalidInput("R cannot be the point at infinity"));
            },
            ECPoint::AffinePoint(x, y) => (x, y),
        };
        match (pt_p, pt_q) {
            (ECPoint::PointAtInfinity, ECPoint::PointAtInfinity) => Ok(x_r.one()),
            (ECPoint::PointAtInfinity, ECPoint::AffinePoint(x_q, _)) => Ok(x_r.add(&x_q.neg())),
            (ECPoint::AffinePoint(x_p, _), ECPoint::PointAtInfinity) => Ok(x_r.add(&x_p.neg())),
            (ECPoint::AffinePoint(x_p, y_p), ECPoint::AffinePoint(x_q, y_q)) => {
                let same_x = x_p.equals(x_q);
                let same_y = y_p.equals(y_q);
                if !same_x || !same_y {
                    if same_x {
                        // vertical chord
                        Ok(x_r.add(&x_p.neg()))
                    } else {
                        let num = y_q.add(&y_p.neg());
                        let denom = x_q.add(&x_p.neg());
                        let slope = match num.div(&denom) {
                            Ok(s) => *s,
                            Err(e) => {
                                return Err(e);
                            },
                        };
                        Ok(y_r.add(&y_p.neg()).add(&slope.mul(&x_r.add(&x_p.neg())).neg()))
                    }
                } else {
                    let (a1, a2, a3, a4, _a5, _a6) = &self.weierstrass_coefficients;
                    // tangent: slope (3 x^2 + 2 a2 x - a1 y + a4) / (2 y + a1 x + a3)
                    let num = x_p.square().zmul(3).add(&y_p.mul(a1).neg()).add(a4).add(
                        &x_p.mul(a2).zmul(2),
                    );
                    let denom = y_p.zmul(2).add(a3).add(&x_p.mul(a1));
                    if denom.is_zero() {
                        Ok(x_r.add(&x_p.neg()))
                    } else {
                        let slope = match num.div(&denom) {
                            Ok(s) => *s,
                            Err(e) => {
                                return Err(e);
                            },
                        };
                        Ok(y_r.add(&y_p.neg()).add(&slope.mul(&x_r.add(&x_p.neg())).neg()))
                    }
                }
            },
        }
    }

    /// Chord-and-tangent addition of two points.
    pub fn add(&self, pt_p: &ECPoint<F>, pt_q: &ECPoint<F>) -> (r: ECPoint<F>)
        requires
            curve_wf::<F>(self@),
            pt_wf::<F>(self@, pt_p@),
            pt_wf::<F>(self@, pt_q@),
        ensures
            r@ == pt_add::<F>(self@, pt_p@, pt_q@),
            pt_wf::<F>(self@, r@),
    {
        let (x_p, y_p) = match pt_p {
            ECPoint::PointAtInfinity => {
                return pt_q.dup();
            },
            ECPoint::AffinePoint(x, y) => (x, y),
        };
        let (x_q, y_q) = match pt_q {
            ECPoint::PointAtInfinity => {
                return pt_p.dup();
            },
            ECPoint::AffinePoint(x, y) => (x, y),
        };
        let (a1, a2, a3, a4, _a5, a6) = &self.weierstrass_coefficients;
        let same_x = x_p.equals(x_q);
        let sum = y_p.add(y_q).add(&a1.mul(x_q)).add(a3);
        if same_x && sum.is_zero() {
            ECPoint::PointAtInfinity
        } else {
            let denom: F;
            let lambda_num: F;
            let nu_num: F;
            if same_x {
                denom = a3.add(&y_p.zmul(2)).add(&a1.mul(x_p));
                lambda_num = a4.add(&x_p.square().zmul(3)).add(&a2.mul(x_p).zmul(2)).add(
                    &a1.mul(y_p).neg(),
                );
                nu_num = (x_p.square().mul(x_p).neg()).add(&a4.mul(x_p)).add(&a6.zmul(2)).add(
                    &a3.mul(y_p).neg(),
                );
            } else {
                denom = x_q.add(&x_p.neg());
                lambda_num = y_q.add(&y_p.neg());
                nu_num = y_p.mul(x_q).add(&y_q.mul(x_p).neg());
            }
            let lambda = match lambda_num.div(&denom) {
                Ok(l) => *l,
                Err(_) => {
                    return ECPoint::PointAtInfinity;
                },
            };
            let nu = match nu_num.div(&denom) {
                Ok(v) => *v,
                Err(_) => {
                    proof {
                        assert(false);
                    }
                    return ECPoint::PointAtInfinity;
                },
            };
            let x = a2.neg().add(&x_p.add(x_q).neg()).add(&lambda.square()).add(&a1.mul(&lambda));
            let y = a3.add(&nu).add(&x.mul(&lambda.add(a1))).neg();
            ECPoint::AffinePoint(x, y)
        }
    }

    /// Doubling: the addition of a point with itself.
    pub fn double(&self, pt_p: &ECPoint<F>) -> (r: ECPoint<F>)
        requires
            curve_wf::<F>(self@),
            pt_wf::<F>(self@, pt_p@),
        ensures
            r@ == pt_add::<F>(self@, pt_p@, pt_p@),
            pt_wf::<F>(self@, r@),
    {
        self.add(pt_p, pt_p)
    }

    /// Group inverse of a point; the point at infinity is `InvalidInput`.
    pub fn invert(&self, pt_p: &ECPoint<F>) -> (res: Result<ECPoint<F>, ErrorKind>)
        requires
            curve_wf::<F>(self@),
            pt_wf::<F>(self@, pt_p@),
        ensures
            (res matches Ok(r) ==> pt_p@ is Affine && r@ == pt_invert::<F>(
                self@,
                pt_p@->0,
                pt_p@->1,
            ) && pt_wf::<F>(self@, r@)),
            (res matches Err(e) ==> pt_p@ is Infinity && e is InvalidInput),
            pt_p@ is Affine <==> res is Ok,
    {
        let (x, y) = match pt_p {
            ECPoint::PointAtInfinity => {
                return Err(ErrorKind::InvalidInput("P must not be zero"));
            },
            ECPoint::AffinePoint(x, y) => (x, y),
        };
        let (a1, _a2, a3, _a4, _a5, _a6) = &self.weierstrass_coefficients;
        let new_y = a3.add(&a1.mul(x)).add(y).neg();
        Ok(ECPoint::AffinePoint(x.dup(), new_y))
    }
}

// ---------------------------------------------------------------------------
// Group laws provable of the affine addition formulas.
// ---------------------------------------------------------------------------

/// The point at infinity is neutral on both sides of the addition.
pub proof fn lemma_add_identity<F: Field>(c: CurveV<F::V>, p: PointV<F::V>)
    ensures
        pt_add::<F>(c, p, PointV::Infinity) == p,
        pt_add::<F>(c, PointV::Infinity, p) == p,
{
}

/// Over a prime field, a point and its group inverse add to the point at
/// infinity.
pub proof fn lemma_pf_add_opposite<const P: u32>(c: CurveV<int>, x: int, y: int)
    requires
        curve_wf::<PrimeField<P>>(c),
        PrimeField::<P>::v_wf(x),
        PrimeField::<P>::v_wf(y),
    ensures
        pt_add::<PrimeField<P>>(c, PointV::Affine(x, y), pt_invert::<PrimeField<P>>(c, x, y))
            == PointV::<int>::Infinity,
{
    let p = P as int;
    let m1 = (c.a1 * x) % p;
    lemma_mod_bound(c.a1 * x, p);
    let t1 = (c.a3 + m1) % p;
    lemma_mod_bound(c.a3 + m1, p);
    let t2 = (t1 + y) % p;
    lemma_mod_bound(t1 + y, p);
    let yq = (p - t2) % p;
    lemma_mod_bound(p - t2, p);
    let s1 = (y + yq) % p;
    let s2 = (s1 + m1) % p;
    let sum = (s2 + c.a3) % p;
    assert(s1 == (y - t2) % p) by {
        lemma_mod_add_neg(y, t2, p);
    }
    assert(s2 == (y - t2 + m1) % p) by {
        lemma_add_mod_noop(y - t2, m1, p);
        lemma_small_mod(m1 as nat, p as nat);
    }
    assert(sum == (y - t2 + m1 + c.a3) % p) by {
        lemma_add_mod_noop(y - t2 + m1, c.a3, p);
        lemma_small_mod(c.a3 as nat, p as nat);
    }
    assert((y - t2 + m1 + c.a3) % p == (y - (t1 + y) + m1 + c.a3) % p) by {
        lemma_sub_mod_noop_right(y + m1 + c.a3, t1 + y, p);
    }
    assert((y - (t1 + y) + m1 + c.a3) % p == (m1 + c.a3 - (c.a3 + m1)) % p) by {
        lemma_sub_mod_noop_right(m1 + c.a3, c.a3 + m1, p);
    }
    assert(sum == 0) by {
        lemma_small_mod(0, p as nat);
    }
}

/// Over a prime field, the chord-and-tangent addition is commutative, away
/// from one degenerate shape that no pair of curve points attains: two
/// distinct points sharing their abscissa whose chord is not vertical (two
/// curve points of one abscissa are always opposite, with a vanishing
/// vertical sum).
pub proof fn lemma_pf_add_comm_pt<const P: u32>(c: CurveV<int>, p: PointV<int>, q: PointV<int>)
    requires
        curve_wf::<PrimeField<P>>(c),
        pt_wf::<PrimeField<P>>(c, p),
        pt_wf::<PrimeField<P>>(c, q),
        p is Affine && q is Affine && p != q && p->0 == q->0
            ==> PrimeField::<P>::v_add(
            PrimeField::<P>::v_add(
                PrimeField::<P>::v_add(p->1, q->1),
                PrimeField::<P>::v_mul(c.a1, q->0),
            ),
            c.a3,
        ) == 0,
    ensures
        pt_add::<PrimeField<P>>(c, p, q) == pt_add::<PrimeField<P>>(c, q, p),
{
    let pp = P as int;
    if p is Infinity || q is Infinity || p == q {
    } else if p->0 == q->0 {
        // a vertical pair: both orders give the point at infinity
        assert(PrimeField::<P>::v_add(
            PrimeField::<P>::v_add(
                PrimeField::<P>::v_add(q->1, p->1),
                PrimeField::<P>::v_mul(c.a1, p->0),
            ),
            c.a3,
        ) == 0);
    } else {
        let x_p = p->0;
        let y_p = p->1;
        let x_q = q->0;
        let y_q = q->1;
        // distinct abscissas: the vertical test fails on both sides
        let d1 = (x_q + (pp - x_p) % pp) % pp;
        let d2 = (x_p + (pp - x_q) % pp) % pp;
        lemma_mod_add_neg(x_q, x_p, pp);
        lemma_mod_add_neg(x_p, x_q, pp);
        lemma_mod_bound(x_q - x_p, pp);
        lemma_mod_bound(x_p - x_q, pp);
        assert(d2 == (pp - d1) % pp) by {
            lemma_sub_mod_noop_right(0, x_q - x_p, pp);
            crate::arith::lemma_mod_neg_form(d1, pp);
        }
        // numerators of the slope and the intercept swap signs
        let n1 = (y_q + (pp - y_p) % pp) % pp;
        let n2 = (y_p + (pp - y_q) % pp) % pp;
        lemma_mod_add_neg(y_q, y_p, pp);
        lemma_mod_add_neg(y_p, y_q, pp);
        lemma_mod_bound(y_q - y_p, pp);
        lemma_mod_bound(y_p - y_q, pp);
        assert(n2 == (pp - n1) % pp) by {
            lemma_sub_mod_noop_right(0, y_q - y_p, pp);
            crate::arith::lemma_mod_neg_form(n1, pp);
        }
        let ma = (y_p * x_q) % pp;
        let mb = (y_q * x_p) % pp;
        lemma_mod_bound(y_p * x_q, pp);
        lemma_mod_bound(y_q * x_p, pp);
        let u1 = (ma + (pp - mb) % pp) % pp;
        let u2 = (mb + (pp - ma) % pp) % pp;
        lemma_mod_add_neg(ma, mb, pp);
        lemma_mod_add_neg(mb, ma, pp);
        lemma_mod_bound(ma - mb, pp);
        lemma_mod_bound(mb - ma, pp);
        assert(u2 == (pp - u1) % pp) by {
            lemma_sub_mod_noop_right(0, ma - mb, pp);
            crate::arith::lemma_mod_neg_form(u1, pp);
        }
        // equal fractions on both sides
        lemma_pf_opp_frac::<P>(n1, d1);
        lemma_pf_opp_frac::<P>(u1, d1);
        if PrimeField::<P>::v_invertible(d1) {
            // the slopes and intercepts agree, and so do the coordinates
            assert(PrimeField::<P>::v_add(x_p, x_q) == PrimeField::<P>::v_add(x_q, x_p));
        }
    }
}

/// `R` is on the chord through two points with distinct abscissas, in
/// cross-multiplied form.
pub open spec fn pf_collinear<const P: u32>(
    x_p: int,
    y_p: int,
    x_q: int,
    y_q: int,
    x_r: int,
    y_r: int,
) -> bool {
    ((y_r - y_p) * (x_q - x_p)) % (P as int) == ((y_q - y_p) * (x_r - x_p)) % (P as int)
}

/// A residue of a value strictly between `-p` and `p` vanishes only at zero.
proof fn lemma_small_range_mod(v: int, p: int)
    requires
        p >= 2,
        -p < v < p,
    ensures
        (v % p == 0) <==> (v == 0),
{
    if v >= 0 {
        lemma_small_mod(v as nat, p as nat);
    } else {
        lemma_mod_add_multiples_vanish(v, p);
        lemma_small_mod((v + p) as nat, p as nat);
    }
}

/// Over a prime field, the line through two points with distinct abscissas
/// vanishes at `R` exactly when `R` lies on that line.
pub proof fn lemma_pf_line_vanishing<const P: u32>(
    c: CurveV<int>,
    x_p: int,
    y_p: int,
    x_q: int,
    y_q: int,
    x_r: int,
    y_r: int,
)
    requires
        curve_wf::<PrimeField<P>>(c),
        is_prime(P as int),
        PrimeField::<P>::v_wf(x_p),
        PrimeField::<P>::v_wf(y_p),
        PrimeField::<P>::v_wf(x_q),
        PrimeField::<P>::v_wf(y_q),
        PrimeField::<P>::v_wf(x_r),
        PrimeField::<P>::v_wf(y_r),
        x_p != x_q,
    ensures
        line_defined::<PrimeField<P>>(c, PointV::Affine(x_p, y_p), PointV::Affine(x_q, y_q)),
        (line_at::<PrimeField<P>>(
            c,
            PointV::Affine(x_p, y_p),
            PointV::Affine(x_q, y_q),
            PointV::Affine(x_r, y_r),
        ) == 0) <==> pf_collinear::<P>(x_p, y_p, x_q, y_q, x_r, y_r),
{
    let p = P as int;
    let d = (x_q + (p - x_p) % p) % p;
    lemma_mod_add_neg(x_q, x_p, p);
    lemma_mod_bound(x_q - x_p, p);
    assert(d != 0) by {
        lemma_small_range_mod(x_q - x_p, p);
    }
    lemma_prime_inverse_exists(P as nat, d as nat);
    assert(PrimeField::<P>::v_invertible(d));
    let w = PrimeField::<P>::v_inv(d);
    assert(inv_rel(d, p, w));
    let num = (y_q + (p - y_p) % p) % p;
    lemma_mod_add_neg(y_q, y_p, p);
    lemma_mod_bound(y_q - y_p, p);
    let s = (num * w) % p;
    lemma_mod_bound(num * w, p);
    let dr = (x_r + (p - x_p) % p) % p;
    lemma_mod_add_neg(x_r, x_p, p);
    lemma_mod_bound(x_r - x_p, p);
    let yr = (y_r + (p - y_p) % p) % p;
    lemma_mod_add_neg(y_r, y_p, p);
    lemma_mod_bound(y_r - y_p, p);
    let sdr = (s * dr) % p;
    lemma_mod_bound(s * dr, p);
    let lv = (yr + (p - sdr) % p) % p;
    lemma_mod_add_neg(yr, sdr, p);
    // the key identity: (s * dr) * d == num * dr modulo p
    assert((sdr * d) % p == (num * dr) % p) by {
        lemma_mul_mod_noop_left(s * dr, d, p);
        assert((s * dr) * d == s * (dr * d)) by (nonlinear_arith);
        lemma_mul_mod_noop_left(num * w, dr * d, p);
        assert((num * w) * (dr * d) == (num * dr) * (d * w)) by (nonlinear_arith);
        lemma_mul_mod_noop_right(num * dr, d * w, p);
        assert((num * dr) * 1 == num * dr);
        lemma_mod_twice(num * dr, p);
    }
    // translations to the cross-multiplied form
    assert((yr * d) % p == ((y_r - y_p) * (x_q - x_p)) % p) by {
        lemma_mul_mod_noop_general(y_r - y_p, x_q - x_p, p);
    }
    assert((num * dr) % p == ((y_q - y_p) * (x_r - x_p)) % p) by {
        lemma_mul_mod_noop_general(y_q - y_p, x_r - x_p, p);
    }
    if lv == 0 {
        assert(yr == sdr) by {
            lemma_small_range_mod(yr - sdr, p);
        }
        assert(pf_collinear::<P>(x_p, y_p, x_q, y_q, x_r, y_r));
    }
    if pf_collinear::<P>(x_p, y_p, x_q, y_q, x_r, y_r) {
        assert((yr * d) % p == (sdr * d) % p);
        crate::arith::lemma_mod_cancel(yr, sdr, d, w, p);
        assert(lv == 0) by {
            lemma_small_mod(0, p as nat);
        }
    }
}

} // verus!
