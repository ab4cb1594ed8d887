use vstd::prelude::*;
use vstd::arithmetic::power::pow;
use crate::arith::trunc_div;
use crate::bigint::{bits_of, lemma_canon_bits, lemma_view_bits, BigInt};
use crate::elliptic_curve::{
    curve_wf, line_at, line_defined, pt_add, pt_invert, pt_on_curve, pt_wf, point_eq,
    CurveV, ECPoint, EllipticCurve, PointV,
};
use crate::errors::ErrorKind;
use crate::field::Field;
use crate::rng::Lcg;

verus! {

// ---------------------------------------------------------------------------
// Specification of Miller's double-and-add accumulation.
// ---------------------------------------------------------------------------

/// The group negation, with the point at infinity its own negative.
pub open spec fn pt_neg_total<F: Field>(c: CurveV<F::V>, p: PointV<F::V>) -> PointV<F::V> {
    match p {
        PointV::Infinity => PointV::Infinity,
        PointV::Affine(x, y) => pt_invert::<F>(c, x, y),
    }
}

/// One doubling step of the Miller loop: `S = 2V`,
/// `f <- f^2 * line(V,V,Q) / line(S,-S,Q)`.  `None` when a line slope or the
/// vertical's value has no needed inverse.
pub open spec fn miller_dstep<F: Field>(
    c: CurveV<F::V>,
    q: PointV<F::V>,
    f: F::V,
    v: PointV<F::V>,
) -> Option<(F::V, PointV<F::V>)> {
    let s = pt_add::<F>(c, v, v);
    if !line_defined::<F>(c, v, v) {
        None
    } else {
        let ell = line_at::<F>(c, v, v, q);
        let s_neg = pt_neg_total::<F>(c, s);
        if !line_defined::<F>(c, s, s_neg) {
            None
        } else {
            let vee = line_at::<F>(c, s, s_neg, q);
            if !F::v_invertible(vee) {
                None
            } else {
                Some((F::v_mul(F::v_mul(f, f), F::v_mul(ell, F::v_inv(vee))), s))
            }
        }
    }
}

/// One addition step of the Miller loop: `S = V + P`,
/// `f <- f * line(V,P,Q) / line(S,-S,Q)`.
pub open spec fn miller_astep<F: Field>(
    c: CurveV<F::V>,
    p: PointV<F::V>,
    q: PointV<F::V>,
    f: F::V,
    v: PointV<F::V>,
) -> Option<(F::V, PointV<F::V>)> {
    let s = pt_add::<F>(c, v, p);
    if !line_defined::<F>(c, v, p) {
        None
    } else {
        let ell = line_at::<F>(c, v, p, q);
        let s_neg = pt_neg_total::<F>(c, s);
        if !line_defined::<F>(c, s, s_neg) {
            None
        } else {
            let vee = line_at::<F>(c, s, s_neg, q);
            if !F::v_invertible(vee) {
                None
            } else {
                Some((F::v_mul(f, F::v_mul(ell, F::v_inv(vee))), s))
            }
        }
    }
}

/// The accumulator and running multiple after the Miller loop has consumed
/// the bits above index `i` (the most significant bit is skipped; the bits
/// are least-significant first).
pub open spec fn miller_state<F: Field>(
    c: CurveV<F::V>,
    p: PointV<F::V>,
    q: PointV<F::V>,
    bits: Seq<bool>,
    i: int,
) -> Option<(F::V, PointV<F::V>)>
    decreases bits.len() - i,
{
    if i < 0 || i >= bits.len() - 1 {
        Some((F::v_one(c.a1), p))
    } else {
        match miller_state::<F>(c, p, q, bits, i + 1) {
            None => None,
            Some((f, v)) => match miller_dstep::<F>(c, q, f, v) {
                None => None,
                Some((f2, v2)) => if bits[i] {
                    miller_astep::<F>(c, p, q, f2, v2)
                } else {
                    Some((f2, v2))
                },
            },
        }
    }
}

/// `f_{n,P}(Q)`: the Miller state at bit zero, inverted together with the
/// final vertical when `n` is negative.
pub open spec fn miller_val<F: Field>(
    c: CurveV<F::V>,
    p: PointV<F::V>,
    q: PointV<F::V>,
    nv: int,
    bits: Seq<bool>,
) -> Option<F::V> {
    match miller_state::<F>(c, p, q, bits, 0) {
        None => None,
        Some((f, v)) => {
            if nv > 0 {
                Some(f)
            } else {
                let v_neg = pt_neg_total::<F>(c, v);
                if !line_defined::<F>(c, v, v_neg) {
                    None
                } else {
                    let vee = line_at::<F>(c, v, v_neg, q);
                    let prod = F::v_mul(f, vee);
                    if !F::v_invertible(prod) {
                        None
                    } else {
                        Some(F::v_inv(prod))
                    }
                }
            }
        },
    }
}

/// A failed Miller state stays failed below.
proof fn lemma_miller_none<F: Field>(
    c: CurveV<F::V>,
    p: PointV<F::V>,
    q: PointV<F::V>,
    bits: Seq<bool>,
    j: int,
    i: int,
)
    requires
        0 <= j <= i,
        miller_state::<F>(c, p, q, bits, i) is None,
    ensures
        miller_state::<F>(c, p, q, bits, j) is None,
    decreases i - j,
{
    if j < i {
        lemma_miller_none::<F>(c, p, q, bits, j + 1, i);
    }
}

/// Group negation with the point at infinity fixed.
fn neg_point<F: Field>(curve: &EllipticCurve<F>, p: &ECPoint<F>) -> (r: ECPoint<F>)
    requires
        curve_wf::<F>(curve@),
        pt_wf::<F>(curve@, p@),
    ensures
        r@ == pt_neg_total::<F>(curve@, p@),
        pt_wf::<F>(curve@, r@),
{
    match p {
        ECPoint::PointAtInfinity => ECPoint::PointAtInfinity,
        _ => match curve.invert(p) {
            Ok(v) => v,
            Err(_) => {
                proof {
                    assert(false);
                }
                ECPoint::PointAtInfinity
            },
        },
    }
}

/// Miller's algorithm: `f_{n,P}(Q)`, the function with divisor
/// `n(P) - ([n]P) - (n-1)(O)`, accumulated over the bits of `n` by
/// double-and-add.  `P` or `Q` at infinity is `InvalidInput`; `n = 0` gives
/// one; otherwise the result is exactly `miller_val` over the canonical bits
/// of `|n|`, and a failure inside the loop (a pole of a line or a running
/// multiple through infinity) surfaces as the error of the failing step.
pub fn miller<F: Field>(
    curve: &EllipticCurve<F>,
    pt_p: &ECPoint<F>,
    pt_q: &ECPoint<F>,
    n: &BigInt,
) -> (res: Result<F, ErrorKind>)
    requires
        curve_wf::<F>(curve@),
        pt_wf::<F>(curve@, pt_p@),
        pt_wf::<F>(curve@, pt_q@),
        n.wf(),
    ensures
        pt_p@ is Infinity ==> (res matches Err(e) && e is InvalidInput),
        pt_p@ is Affine && pt_q@ is Infinity ==> (res matches Err(e) && e is InvalidInput),
        pt_p@ is Affine && pt_q@ is Affine && n@ == 0 ==> (res matches Ok(v) && v@ == F::v_one(
            curve@.a1,
        ) && F::v_wf(v@) && F::v_desc(v@) == F::v_desc(curve@.a1)),
        pt_p@ is Affine && pt_q@ is Affine && n@ != 0 ==> {
            let mv = miller_val::<F>(curve@, pt_p@, pt_q@, n@, bits_of(vstd::math::abs(n@)));
            &&& (res matches Ok(v) ==> mv matches Some(w) && v@ == w && F::v_wf(v@) && F::v_desc(
                v@,
            ) == F::v_desc(curve@.a1))
            &&& (res matches Err(e) ==> mv is None && e == ErrorKind::NoInverse)
        },
{
    let ghost c = curve@;
    match pt_p {
        ECPoint::PointAtInfinity => {
            return Err(ErrorKind::InvalidInput("P must not be zero"));
        },
        _ => {},
    }
    match pt_q {
        ECPoint::PointAtInfinity => {
            return Err(ErrorKind::InvalidInput("Q must not be zero"));
        },
        _ => {},
    }
    let coeffs = curve.get_a_invariants();
    let one_el = coeffs.0.one();
    if n.is_zero() {
        return Ok(one_el);
    }
    proof {
        lemma_view_bits(n);
    }
    let bits = n.abs().to_bits();
    proof {
        lemma_canon_bits(bits@);
    }
    let ghost bs = bits@;
    let sign = n.is_positive();
    let mut t = one_el;
    let mut pt_v = pt_p.dup();
    let mut i: usize = bits.len() - 1;
    proof {
        assert(miller_state::<F>(c, pt_p@, pt_q@, bs, i as int) == Some((t@, pt_v@)));
    }
    while i > 0
        invariant
            curve_wf::<F>(c),
            c == curve@,
            bs == bits@,
            n.wf(),
            n@ != 0,
            bs == bits_of(vstd::math::abs(n@)),
            pt_wf::<F>(c, pt_p@),
            pt_wf::<F>(c, pt_q@),
            pt_p@ is Affine,
            pt_q@ is Affine,
            i < bs.len(),
            F::v_wf(t@),
            F::v_desc(t@) == F::v_desc(c.a1),
            pt_wf::<F>(c, pt_v@),
            miller_state::<F>(c, pt_p@, pt_q@, bs, i as int) == Some((t@, pt_v@)),
        decreases i,
    {
        let k = i - 1;
        let ghost f0 = t@;
        let ghost v0 = pt_v@;
        // doubling step
        let pt_s = curve.double(&pt_v);
        let ell = match curve.line(&pt_v, &pt_v, pt_q) {
            Ok(v) => v,
            Err(e) => {
                proof {
                    lemma_miller_none::<F>(c, pt_p@, pt_q@, bs, 0, k as int);
                }
                return Err(e);
            },
        };
        let s_inv = neg_point(curve, &pt_s);
        let vee = match curve.line(&pt_s, &s_inv, pt_q) {
            Ok(v) => v,
            Err(e) => {
                proof {
                    lemma_miller_none::<F>(c, pt_p@, pt_q@, bs, 0, k as int);
                }
                return Err(e);
            },
        };
        let ratio = match ell.div(&vee) {
            Ok(b) => *b,
            Err(e) => {
                proof {
                    lemma_miller_none::<F>(c, pt_p@, pt_q@, bs, 0, k as int);
                }
                return Err(e);
            },
        };
        t = t.square().mul(&ratio);
        pt_v = pt_s;
        proof {
            assert(miller_dstep::<F>(c, pt_q@, f0, v0) == Some((t@, pt_v@)));
        }
        if bits[k] {
            let ghost f1 = t@;
            let ghost v1 = pt_v@;
            let pt_s = curve.add(&pt_v, pt_p);
            let ell = match curve.line(&pt_v, pt_p, pt_q) {
                Ok(v) => v,
                Err(e) => {
                    proof {
                        lemma_miller_none::<F>(c, pt_p@, pt_q@, bs, 0, k as int);
                    }
                    return Err(e);
                },
            };
            let s_inv = neg_point(curve, &pt_s);
            let vee = match curve.line(&pt_s, &s_inv, pt_q) {
                Ok(v) => v,
                Err(e) => {
                    proof {
                        lemma_miller_none::<F>(c, pt_p@, pt_q@, bs, 0, k as int);
                    }
                    return Err(e);
                },
            };
            let ratio = match ell.div(&vee) {
                Ok(b) => *b,
                Err(e) => {
                    proof {
                        lemma_miller_none::<F>(c, pt_p@, pt_q@, bs, 0, k as int);
                    }
                    return Err(e);
                },
            };
            t = t.mul(&ratio);
            pt_v = pt_s;
            proof {
                assert(miller_astep::<F>(c, pt_p@, pt_q@, f1, v1) == Some((t@, pt_v@)));
            }
        }
        i = k;
    }
    // negative order: invert together with the last vertical
    if !sign {
        let v_inv = neg_point(curve, &pt_v);
        let vee = match curve.line(&pt_v, &v_inv, pt_q) {
            Ok(v) => v,
            Err(e) => {
                return Err(e);
            },
        };
        let prod = t.mul(&vee);
        t = match prod.invert() {
            Ok(b) => *b,
            Err(e) => {
                return Err(e);
            },
        };
    }
    Ok(t)
}

// ---------------------------------------------------------------------------
// The pairings.
// ---------------------------------------------------------------------------

/// Value of the Weil pairing over the two Miller values, with the sign
/// correction for odd orders.
pub open spec fn weil_val<F: Field>(
    c: CurveV<F::V>,
    p: PointV<F::V>,
    q: PointV<F::V>,
    nv: int,
    bits: Seq<bool>,
) -> Option<F::V> {
    match (miller_val::<F>(c, p, q, nv, bits), miller_val::<F>(c, q, p, nv, bits)) {
        (Some(f_pq), Some(f_qp)) => {
            if !F::v_invertible(f_qp) {
                None
            } else {
                let ratio = F::v_mul(f_pq, F::v_inv(f_qp));
                if nv % 2 != 0 {
                    Some(F::v_neg(ratio))
                } else {
                    Some(ratio)
                }
            }
        },
        _ => None,
    }
}

/// Weil pairing `e_W(P, Q, n) = (-1)^n f_{n,P}(Q) / f_{n,Q}(P)`.
/// Degenerate inputs (`P = Q` or a point at infinity) give one.  The points
/// are not checked to have order `n`: callers own that.
pub fn weil_pairing<F: Field>(
    curve: &EllipticCurve<F>,
    pt_p: ECPoint<F>,
    pt_q: ECPoint<F>,
    order: BigInt,
) -> (res: Result<F, ErrorKind>)
    requires
        curve_wf::<F>(curve@),
        pt_wf::<F>(curve@, pt_p@),
        pt_wf::<F>(curve@, pt_q@),
        order.wf(),
    ensures
        pt_p@ == pt_q@ || pt_p@ is Infinity || pt_q@ is Infinity ==> (res matches Ok(v) && v@
            == F::v_one(curve@.a1)),
        pt_p@ != pt_q@ && pt_p@ is Affine && pt_q@ is Affine && order@ != 0 ==> {
            let wv = weil_val::<F>(curve@, pt_p@, pt_q@, order@, bits_of(vstd::math::abs(order@)));
            &&& (res matches Ok(v) ==> wv matches Some(w) && v@ == w)
            &&& (res matches Err(e) ==> (wv is None && e == ErrorKind::NoInverse))
        },
        pt_p@ != pt_q@ && pt_p@ is Affine && pt_q@ is Affine && order@ == 0 ==> {
            let one = F::v_one(curve@.a1);
            &&& (F::v_invertible(one) ==> (res matches Ok(v) && v@ == F::v_mul(
                one,
                F::v_inv(one),
            )))
            &&& (!F::v_invertible(one) ==> (res matches Err(e) && e == ErrorKind::NoInverse))
        },
{
    let coeffs = curve.get_a_invariants();
    let one_el = coeffs.0.one();
    if point_eq(&pt_p, &pt_q) {
        return Ok(one_el);
    }
    match &pt_p {
        ECPoint::PointAtInfinity => {
            return Ok(one_el);
        },
        _ => {},
    }
    match &pt_q {
        ECPoint::PointAtInfinity => {
            return Ok(one_el);
        },
        _ => {},
    }
    proof {
        lemma_view_bits(&order);
    }
    let f_pq = match miller(curve, &pt_p, &pt_q, &order) {
        Ok(v) => v,
        Err(e) => {
            return Err(e);
        },
    };
    let f_qp = match miller(curve, &pt_q, &pt_p, &order) {
        Ok(v) => v,
        Err(e) => {
            return Err(e);
        },
    };
    let ratio = match f_pq.div(&f_qp) {
        Ok(b) => *b,
        Err(e) => {
            return Err(e);
        },
    };
    if order.is_odd() {
        Ok(ratio.neg())
    } else {
        Ok(ratio)
    }
}

/// The reduced-Tate exponent `(q^k - 1) / n` over the integers.
pub open spec fn tate_exponent<F: Field>(k: int, n: int) -> int {
    trunc_div(pow(F::v_base_order() as int, k as nat) - 1, n)
}

/// What the pole-move fallback of the reduced Tate pairing establishes:
/// the result `v` is the quotient of the pairings of `q` translated by an
/// affine curve point `rp` and of `rp` itself, and each of the two values,
/// where its own direct Miller value exists, is that value raised to the
/// reduced-Tate exponent `e`.
pub open spec fn tate_fallback_rel<F: Field>(
    c: CurveV<F::V>,
    p: PointV<F::V>,
    q: PointV<F::V>,
    nv: int,
    bits: Seq<bool>,
    e: int,
    rp: PointV<F::V>,
    v1: F::V,
    v2: F::V,
    v: F::V,
) -> bool {
    &&& rp is Affine
    &&& pt_wf::<F>(c, rp)
    &&& pt_on_curve::<F>(c, rp)
    &&& F::v_wf(v1)
    &&& F::v_wf(v2)
    &&& F::v_invertible(v2)
    &&& v == F::v_mul(v1, F::v_inv(v2))
    &&& (e >= 0 && pt_add::<F>(c, q, rp) is Affine ==> (miller_val::<F>(
        c,
        p,
        pt_add::<F>(c, q, rp),
        nv,
        bits,
    ) matches Some(m1) ==> v1 == F::v_pow(m1, e as nat)))
    &&& (e >= 0 ==> (miller_val::<F>(c, p, rp, nv, bits) matches Some(m2) ==> v2 == F::v_pow(
        m2,
        e as nat,
    )))
}

fn tate_with_fuel<F: Field>(
    curve: &EllipticCurve<F>,
    pt_p: &ECPoint<F>,
    pt_q: &ECPoint<F>,
    order: &BigInt,
    embedding_degree: &BigInt,
    rng: &mut Lcg,
    fuel: u32,
) -> (res: Result<F, ErrorKind>)
    requires
        curve_wf::<F>(curve@),
        pt_wf::<F>(curve@, pt_p@),
        pt_wf::<F>(curve@, pt_q@),
        order.wf(),
        order@ != 0,
        embedding_degree.wf(),
        embedding_degree@ >= 0,
    ensures
        res matches Ok(v) ==> F::v_wf(v@) && F::v_desc(v@) == F::v_desc(curve@.a1),
        ({
            let mv = miller_val::<F>(
                curve@,
                pt_p@,
                pt_q@,
                order@,
                bits_of(vstd::math::abs(order@)),
            );
            let e = tate_exponent::<F>(embedding_degree@, order@);
            pt_p@ is Affine && pt_q@ is Affine && e >= 0 ==> (mv matches Some(w) ==> (res
                matches Ok(v) && v@ == F::v_pow(w, e as nat)))
        }),
        ({
            let mv = miller_val::<F>(
                curve@,
                pt_p@,
                pt_q@,
                order@,
                bits_of(vstd::math::abs(order@)),
            );
            let e = tate_exponent::<F>(embedding_degree@, order@);
            pt_p@ is Affine && pt_q@ is Affine && mv is None ==> (res matches Ok(v)
                ==> exists|rp: PointV<F::V>, v1: F::V, v2: F::V|
                #[trigger] tate_fallback_rel::<F>(
                    curve@,
                    pt_p@,
                    pt_q@,
                    order@,
                    bits_of(vstd::math::abs(order@)),
                    e,
                    rp,
                    v1,
                    v2,
                    v@,
                ))
        }),
    decreases fuel,
{
    match miller(curve, pt_p, pt_q, order) {
        Ok(m) => {
            let q_base = F::base_order();
            let e = q_base.pow(embedding_degree).sub(&BigInt::one()).div(order);
            if e.is_positive() || e.is_zero() {
                Ok(m.pow(&e))
            } else {
                Err(ErrorKind::InvalidInput("the embedding degree gives a negative exponent"))
            }
        },
        Err(_) => {
            match pt_p {
                ECPoint::PointAtInfinity => {
                    return Err(ErrorKind::InvalidInput("P must not be zero"));
                },
                _ => {},
            }
            match pt_q {
                ECPoint::PointAtInfinity => {
                    return Err(ErrorKind::InvalidInput("Q must not be zero"));
                },
                _ => {},
            }
            if fuel == 0 {
                return Err(ErrorKind::InvalidInput("the pole move kept failing"));
            }
            // a pole was hit: translate Q by a random point R and divide the
            // two translated pairings
            let pt_r = match curve.dup().random_point(rng) {
                Ok(r) => r,
                Err(e) => {
                    return Err(e);
                },
            };
            let q_shift = curve.add(pt_q, &pt_r);
            let f_qr = match tate_with_fuel(
                curve,
                pt_p,
                &q_shift,
                order,
                embedding_degree,
                rng,
                fuel - 1,
            ) {
                Ok(v) => v,
                Err(e) => {
                    return Err(e);
                },
            };
            let f_r = match tate_with_fuel(
                curve,
                pt_p,
                &pt_r,
                order,
                embedding_degree,
                rng,
                fuel - 1,
            ) {
                Ok(v) => v,
                Err(e) => {
                    return Err(e);
                },
            };
            match f_qr.div(&f_r) {
                Ok(b) => {
                    let v = *b;
                    proof {
                        let ghost bs = bits_of(vstd::math::abs(order@));
                        let ghost e = tate_exponent::<F>(embedding_degree@, order@);
                        assert(tate_fallback_rel::<F>(
                            curve@,
                            pt_p@,
                            pt_q@,
                            order@,
                            bs,
                            e,
                            pt_r@,
                            f_qr@,
                            f_r@,
                            v@,
                        ));
                    }
                    Ok(v)
                },
                Err(e) => Err(e),
            }
        },
    }
}

/// Reduced Tate pairing `e_T(P, Q, n, k) = f_{n,P}(Q)^((q^k - 1)/n)`, with
/// `q` the base field order and `k` the embedding degree.  When the direct
/// Miller computation hits a pole, `Q` is translated by random points `R`
/// and the quotient of the translated pairings is returned (a Las Vegas
/// fallback with a bounded number of retries).  Neither the order of `P`
/// nor the embedding degree is checked: callers own both.
pub fn tate_pairing<F: Field>(
    curve: &EllipticCurve<F>,
    pt_p: &ECPoint<F>,
    pt_q: &ECPoint<F>,
    order: &BigInt,
    embedding_degree: &BigInt,
    rng: &mut Lcg,
) -> (res: Result<F, ErrorKind>)
    requires
        curve_wf::<F>(curve@),
        pt_wf::<F>(curve@, pt_p@),
        pt_wf::<F>(curve@, pt_q@),
        order.wf(),
        order@ != 0,
        embedding_degree.wf(),
        embedding_degree@ >= 0,
    ensures
        res matches Ok(v) ==> F::v_wf(v@) && F::v_desc(v@) == F::v_desc(curve@.a1),
        ({
            let mv = miller_val::<F>(
                curve@,
                pt_p@,
                pt_q@,
                order@,
                bits_of(vstd::math::abs(order@)),
            );
            let e = tate_exponent::<F>(embedding_degree@, order@);
            pt_p@ is Affine && pt_q@ is Affine && e >= 0 ==> (mv matches Some(w) ==> (res
                matches Ok(v) && v@ == F::v_pow(w, e as nat)))
        }),
        ({
            let mv = miller_val::<F>(
                curve@,
                pt_p@,
                pt_q@,
                order@,
                bits_of(vstd::math::abs(order@)),
            );
            let e = tate_exponent::<F>(embedding_degree@, order@);
            pt_p@ is Affine && pt_q@ is Affine && mv is None ==> (res matches Ok(v)
                ==> exists|rp: PointV<F::V>, v1: F::V, v2: F::V|
                #[trigger] tate_fallback_rel::<F>(
                    curve@,
                    pt_p@,
                    pt_q@,
                    order@,
                    bits_of(vstd::math::abs(order@)),
                    e,
                    rp,
                    v1,
                    v2,
                    v@,
                ))
        }),
{
    tate_with_fuel(curve, pt_p, pt_q, order, embedding_degree, rng, 64)
}

/// Modified Ate pairing `e_A(P, Q, n, k, t-1) = f_{t-1,Q}(P)^((q^k - 1)/n)`,
/// with `t` the Frobenius trace.  The subgroup and eigenspace conditions on
/// `P` and `Q` are the caller's obligation.
pub fn ate_pairing<F: Field>(
    curve: &EllipticCurve<F>,
    pt_p: &ECPoint<F>,
    pt_q: &ECPoint<F>,
    order: &BigInt,
    embedding_degree: &BigInt,
    trace_m_1: &BigInt,
) -> (res: Result<F, ErrorKind>)
    requires
        curve_wf::<F>(curve@),
        pt_wf::<F>(curve@, pt_p@),
        pt_wf::<F>(curve@, pt_q@),
        order.wf(),
        order@ != 0,
        embedding_degree.wf(),
        embedding_degree@ >= 0,
        trace_m_1.wf(),
    ensures
        res matches Ok(v) ==> F::v_wf(v@) && F::v_desc(v@) == F::v_desc(curve@.a1),
        ({
            let mv = miller_val::<F>(
                curve@,
                pt_q@,
                pt_p@,
                trace_m_1@,
                bits_of(vstd::math::abs(trace_m_1@)),
            );
            let e = tate_exponent::<F>(embedding_degree@, order@);
            &&& (pt_p@ is Affine && pt_q@ is Affine && trace_m_1@ != 0 && e >= 0 ==> (mv
                matches Some(w) ==> (res matches Ok(v) && v@ == F::v_pow(w, e as nat))))
            &&& (pt_p@ is Infinity || pt_q@ is Infinity ==> (res matches Err(err)
                && err is InvalidInput))
        }),
{
    let m = match miller(curve, pt_q, pt_p, trace_m_1) {
        Ok(v) => v,
        Err(e) => {
            return Err(e);
        },
    };
    let q_base = F::base_order();
    let e = q_base.pow(embedding_degree).sub(&BigInt::one()).div(order);
    if e.is_positive() || e.is_zero() {
        Ok(m.pow(&e))
    } else {
        Err(ErrorKind::InvalidInput("the embedding degree gives a negative exponent"))
    }
}

} // verus!
