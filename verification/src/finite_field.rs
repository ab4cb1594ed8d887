use vstd::prelude::*;
use vstd::arithmetic::div_mod::*;
use vstd::arithmetic::mul::lemma_mul_is_commutative;
use vstd::arithmetic::power::*;
use vstd::pervasive::VecAdditionalExecFns;
use crate::bigint::BigInt;
use crate::errors::ErrorKind;
use crate::field::Field;
use crate::prime_field::PrimeField;
use crate::rng::Lcg;

verus! {

// ---------------------------------------------------------------------------
// Coefficient-sequence model of the extension field arithmetic.
// ---------------------------------------------------------------------------

/// Views of a vector of prime-field elements.
pub open spec fn vals<const P: u32>(v: Seq<PrimeField<P>>) -> Seq<int> {
    Seq::new(v.len(), |i: int| v[i]@)
}

/// Every entry is a reduced residue.
pub open spec fn all_reduced(s: Seq<int>, p: int) -> bool {
    forall|i: int| 0 <= i < s.len() ==> 0 <= #[trigger] s[i] < p
}

/// Every entry is zero.
pub open spec fn all_zero(s: Seq<int>) -> bool {
    forall|i: int| 0 <= i < s.len() ==> #[trigger] s[i] == 0
}

/// Partial convolution sum of the schoolbook polynomial product: the first
/// `l` terms of coefficient `k` of `a * b`, accumulated modulo `p`.
pub open spec fn conv_at(a: Seq<int>, b: Seq<int>, k: int, l: int, p: int) -> int
    decreases l,
{
    if l <= 0 {
        0
    } else {
        let j = l - 1;
        let prev = conv_at(a, b, k, j, p);
        if 0 <= k - j < a.len() && 0 <= j < b.len() {
            (prev + (a[k - j] * b[j]) % p) % p
        } else {
            prev
        }
    }
}

/// Coefficients of the schoolbook product of two coefficient sequences,
/// reduced modulo `p`.
pub open spec fn poly_prod(a: Seq<int>, b: Seq<int>, p: int) -> Seq<int> {
    Seq::new((a.len() + b.len() - 1) as nat, |k: int| conv_at(a, b, k, k + 1, p))
}

/// One step of the reduction by `X^n = sum red[k] X^k` (with `n` the length
/// of `red`): the coefficient of degree `l` is folded into the coefficients
/// `l - n .. l`, and then zeroed.
pub open spec fn fold_step(s: Seq<int>, red: Seq<int>, l: int, p: int) -> Seq<int> {
    let n = red.len() as int;
    Seq::new(
        s.len(),
        |j: int|
            if j == l {
                0
            } else if l - n <= j < l {
                (s[j] + (s[l] * red[j - (l - n)]) % p) % p
            } else {
                s[j]
            },
    )
}

/// Reduction of a product buffer: the degrees from `l` down to the length of
/// `red` are folded, highest first.
pub open spec fn reduce_from(s: Seq<int>, red: Seq<int>, l: int, p: int) -> Seq<int>
    decreases (if l >= 0 {
        l + 1
    } else {
        0
    }),
{
    if l < red.len() as int || red.len() == 0 || l < 0 {
        s
    } else {
        reduce_from(fold_step(s, red, l, p), red, l - 1, p)
    }
}

/// Power by the recursive halving `x^e = x^(e/2) * x^(e/2)` (times `x` when
/// `e` is odd), over the extension-field views.
pub open spec fn ff_pow<const P: u32, const N: usize>(
    a: (Seq<int>, Seq<int>),
    e: nat,
) -> (Seq<int>, Seq<int>)
    decreases e,
{
    if e == 0 {
        FiniteField::<P, N>::v_one(a)
    } else if e == 1 {
        a
    } else {
        let h = e / 2;
        if e % 2 == 1 {
            FiniteField::<P, N>::v_mul(ff_pow::<P, N>(a, h), ff_pow::<P, N>(a, (h + 1) as nat))
        } else {
            FiniteField::<P, N>::v_mul(ff_pow::<P, N>(a, h), ff_pow::<P, N>(a, h))
        }
    }
}

/// Bridge between the element views and the coefficient-sequence view.
proof fn lemma_coord_wf<const P: u32, const N: usize>(x: &FiniteField<P, N>, i: int)
    requires
        FiniteField::<P, N>::v_wf(x@),
        0 <= i < N as int,
    ensures
        x.coords@.len() == N,
        x.polynomial@.len() == N,
        x@.0[i] == x.coords@[i]@,
        x@.1[i] == x.polynomial@[i]@,
        PrimeField::<P>::v_wf(x.coords@[i]@),
        PrimeField::<P>::v_wf(x.polynomial@[i]@),
{
    assert(x@.0[i] == x.coords@[i]@);
    assert(x@.1[i] == x.polynomial@[i]@);
    assert(0 <= x@.0[i] < P as int);
    assert(0 <= x@.1[i] < P as int);
}

proof fn lemma_conv_reduced(a: Seq<int>, b: Seq<int>, k: int, l: int, p: int)
    requires
        p >= 2,
    ensures
        0 <= conv_at(a, b, k, l, p) < p,
    decreases l,
{
    if l <= 0 {
    } else {
        lemma_conv_reduced(a, b, k, l - 1, p);
        let j = l - 1;
        if 0 <= k - j < a.len() && 0 <= j < b.len() {
            lemma_mod_bound(conv_at(a, b, k, j, p) + (a[k - j] * b[j]) % p, p);
        }
    }
}

proof fn lemma_fold_wf(s: Seq<int>, red: Seq<int>, l: int, p: int)
    requires
        p >= 2,
        all_reduced(s, p),
    ensures
        fold_step(s, red, l, p).len() == s.len(),
        all_reduced(fold_step(s, red, l, p), p),
{
    let f = fold_step(s, red, l, p);
    assert forall|j: int| 0 <= j < f.len() implies 0 <= #[trigger] f[j] < p by {
        let n = red.len() as int;
        if j == l {
        } else if l - n <= j < l {
            lemma_mod_bound(s[j] + (s[l] * red[j - (l - n)]) % p, p);
        }
    }
}

proof fn lemma_reduce_wf(s: Seq<int>, red: Seq<int>, l: int, p: int)
    requires
        p >= 2,
        all_reduced(s, p),
    ensures
        reduce_from(s, red, l, p).len() == s.len(),
        all_reduced(reduce_from(s, red, l, p), p),
    decreases (if l >= 0 {
        l + 1
    } else {
        0
    }),
{
    if l < red.len() as int || red.len() == 0 || l < 0 {
    } else {
        lemma_fold_wf(s, red, l, p);
        lemma_reduce_wf(fold_step(s, red, l, p), red, l - 1, p);
    }
}

proof fn lemma_conv_zero(a: Seq<int>, b: Seq<int>, k: int, l: int, p: int)
    requires
        p >= 2,
        all_zero(a),
    ensures
        conv_at(a, b, k, l, p) == 0,
    decreases l,
{
    if l <= 0 {
    } else {
        lemma_conv_zero(a, b, k, l - 1, p);
        let j = l - 1;
        if 0 <= k - j < a.len() && 0 <= j < b.len() {
            assert(a[k - j] == 0);
            assert(a[k - j] * b[j] == 0) by (nonlinear_arith)
                requires
                    a[k - j] == 0,
            ;
            lemma_small_mod(0, p as nat);
        }
    }
}

proof fn lemma_fold_zero(s: Seq<int>, red: Seq<int>, l: int, p: int)
    requires
        p >= 2,
        all_zero(s),
        0 <= l < s.len(),
    ensures
        all_zero(fold_step(s, red, l, p)),
{
    let f = fold_step(s, red, l, p);
    assert forall|j: int| 0 <= j < f.len() implies #[trigger] f[j] == 0 by {
        let n = red.len() as int;
        if j == l {
        } else if l - n <= j < l {
            assert(s[l] == 0);
            assert(s[l] * red[j - (l - n)] == 0) by (nonlinear_arith)
                requires
                    s[l] == 0,
            ;
            lemma_small_mod(0, p as nat);
        }
    }
}

proof fn lemma_reduce_zero(s: Seq<int>, red: Seq<int>, l: int, p: int)
    requires
        p >= 2,
        all_zero(s),
        l < s.len(),
    ensures
        all_zero(reduce_from(s, red, l, p)),
    decreases (if l >= 0 {
        l + 1
    } else {
        0
    }),
{
    if l < red.len() as int || red.len() == 0 || l < 0 {
    } else {
        lemma_fold_zero(s, red, l, p);
        lemma_reduce_zero(fold_step(s, red, l, p), red, l - 1, p);
    }
}

/// The product of the zero element with itself is the zero element.
proof fn lemma_ff_mul_zero<const P: u32, const N: usize>(a: (Seq<int>, Seq<int>))
    requires
        FiniteField::<P, N>::v_wf(a),
        all_zero(a.0),
    ensures
        FiniteField::<P, N>::v_mul(a, a) == a,
{
    let p = P as int;
    let prod = poly_prod(a.0, a.0, p);
    assert forall|k: int| 0 <= k < prod.len() implies #[trigger] prod[k] == 0 by {
        lemma_conv_zero(a.0, a.0, k, k + 1, p);
    }
    assert(all_zero(prod));
    lemma_reduce_zero(prod, a.1, 2 * (N as int) - 2, p);
    lemma_reduce_wf(prod, a.1, 2 * (N as int) - 2, p);
    let red = reduce_from(prod, a.1, 2 * (N as int) - 2, p);
    assert(red.take(N as int) =~= a.0);
}

// ---------------------------------------------------------------------------
// The extension field type.
// ---------------------------------------------------------------------------

/// Element of the degree-`N` extension of the prime field with `P` elements:
/// a residue class of polynomials modulo a fixed monic reduction polynomial
/// `I(X) = X^N - sum polynomial[k] X^k`.  `coords` are the coefficients, low
/// degree first; `polynomial` stores the `N` fold-back coefficients of `I`
/// and is shared by all elements of one field instance.  `I` must be
/// irreducible over the prime field; that is the caller's obligation and is
/// not checked.
#[derive(Clone, Debug, PartialEq, Eq)]
pub struct FiniteField<const P: u32, const N: usize> {
    pub coords: Vec<PrimeField<P>>,
    pub polynomial: Vec<PrimeField<P>>,
}

impl<const P: u32, const N: usize> View for FiniteField<P, N> {
    type V = (Seq<int>, Seq<int>);

    open spec fn view(&self) -> (Seq<int>, Seq<int>) {
        (vals(self.coords@), vals(self.polynomial@))
    }
}

/// Copy of a coefficient vector.
fn copy_elems<const P: u32>(v: &Vec<PrimeField<P>>) -> (r: Vec<PrimeField<P>>)
    ensures
        r@ == v@,
{
    let mut r: Vec<PrimeField<P>> = Vec::new();
    let mut i: usize = 0;
    while i < v.len()
        invariant
            i <= v@.len(),
            r@ =~= v@.subrange(0, i as int),
        decreases v@.len() - i,
    {
        r.push(v[i]);
        i += 1;
    }
    proof {
        assert(v@.subrange(0, v@.len() as int) =~= v@);
    }
    r
}

impl<const P: u32, const N: usize> FiniteField<P, N> {
    /// The Tonelli-Shanks search over the extension field: fast, and any
    /// value it returns is a root, but it may come back empty-handed (its
    /// non-residue sampling is a bounded Las Vegas search, and nothing here
    /// proves the number theory behind its completeness).
    fn sqrt_tonelli(&self, rng: &mut Lcg) -> (r: Option<Self>)
        requires
            Self::v_wf(self@),
            self@ != Self::v_zero(self@),
        ensures
            r matches Some(b) ==> Self::v_wf(b@) && Self::v_desc(b@) == Self::v_desc(self@)
                && Self::v_mul(b@, b@) == self@,
    {
        let ghost a = self@;
        let one_el = self.one();
        let two = BigInt::from_u64(2);
        let q = self.order();
        proof {
            lemma_pow1(P as int);
            lemma_pow_increases(P as nat, 1, N as nat);
            lemma_pow_positive(P as int, N as nat);
        }
        let qm1 = q.sub(&BigInt::one());
        // Euler's criterion: a residue passes
        let e = qm1.duplicate().div(&two);
        let euler = ff_pow_rec(self, &e);
        if !euler.equals(&one_el) {
            return None;
        }
        // Write q - 1 = qq * 2^s with qq odd (the search is bounded; the
        // bound is far beyond any reachable field size).
        let mut qq = qm1;
        let mut s: u64 = 0;
        let mut cont = !qq.is_odd();
        while cont && s < 1000000
            invariant
                qq.wf(),
                qq@ >= 1,
                cont == (qq@ % 2 == 0),
                two.wf(),
                two@ == 2,
            decreases 1000000 - s,
        {
            proof {
                lemma_fundamental_div_mod(qq@, 2);
                assert(crate::arith::trunc_div(qq@, 2) == qq@ / 2);
            }
            qq = qq.div(&two);
            s += 1;
            cont = !qq.is_odd();
        }
        // Sample a non-residue z.
        let mut z = self.one();
        let mut found = false;
        let mut tries: u32 = 0;
        while tries < 100000 && !found
            invariant
                Self::v_wf(a),
                a == self@,
                Self::v_wf(z@),
                Self::v_desc(z@) == Self::v_desc(a),
                qq.wf(),
                qq@ >= 0,
                e.wf(),
                e@ >= 0,
                Self::v_wf(one_el@),
                Self::v_desc(one_el@) == Self::v_desc(a),
            decreases 100000 - tries,
        {
            tries += 1;
            let zc = self.random_element(rng);
            if !zc.is_zero() {
                let t = ff_pow_rec(&zc, &e);
                if !t.equals(&one_el) {
                    z = zc;
                    found = true;
                }
            }
        }
        if !found {
            return None;
        }
        let mut m: u64 = s;
        let mut c = ff_pow_rec(&z, &qq);
        let qp1h = qq.duplicate().add(BigInt::one()).div(&two);
        let mut t = ff_pow_rec(self, &qq);
        let mut r = ff_pow_rec(self, &qp1h);
        let mut t_is_one = t.equals(&one_el);
        let mut t_is_zero = t.is_zero();
        while !t_is_one && !t_is_zero
            invariant
                Self::v_wf(a),
                a == self@,
                a != Self::v_zero(a),
                Self::v_wf(c@),
                Self::v_wf(t@),
                Self::v_wf(r@),
                Self::v_desc(c@) == Self::v_desc(a),
                Self::v_desc(t@) == Self::v_desc(a),
                Self::v_desc(r@) == Self::v_desc(a),
                Self::v_wf(one_el@),
                Self::v_desc(one_el@) == Self::v_desc(a),
            decreases m,
        {
            let mut i: u64 = 1;
            let mut tt = t.mul(&t);
            let mut found_i = false;
            while i < m && !found_i
                invariant
                    Self::v_wf(tt@),
                    Self::v_desc(tt@) == Self::v_desc(a),
                    Self::v_wf(one_el@),
                    Self::v_desc(one_el@) == Self::v_desc(a),
                    Self::v_wf(a),
                    i >= 1,
                    found_i ==> i < m,
                decreases (m as int - i as int) + (if found_i {
                    0int
                } else {
                    1int
                }),
            {
                if tt.equals(&one_el) {
                    found_i = true;
                } else {
                    tt = tt.mul(&tt);
                    i += 1;
                }
            }
            if !found_i {
                return None;
            }
            let mut b = c.dup();
            let mut jj: u64 = 0;
            let steps: u64 = m - i - 1;
            while jj < steps
                invariant
                    Self::v_wf(b@),
                    Self::v_desc(b@) == Self::v_desc(a),
                    Self::v_wf(a),
                    jj <= steps,
                decreases steps - jj,
            {
                b = b.mul(&b);
                jj += 1;
            }
            m = i;
            c = b.mul(&b);
            t = t.mul(&c);
            r = r.mul(&b);
            t_is_one = t.equals(&one_el);
            t_is_zero = t.is_zero();
        }
        let cand = if t_is_zero {
            self.zero()
        } else {
            r
        };
        let sq = cand.mul(&cand);
        if sq.equals(self) {
            Some(cand)
        } else {
            None
        }
    }

    /// Walk every coefficient vector of the field in base-`P` order looking
    /// for a square root, so that a failure really means that no root
    /// exists.
    fn sqrt_exhaustive(&self) -> (r: Result<Box<Self>, ErrorKind>)
        requires
            Self::v_wf(self@),
            self@ != Self::v_zero(self@),
        ensures
            (r matches Ok(b) ==> Self::v_wf(b@) && Self::v_desc(b@) == Self::v_desc(self@)
                && Self::v_mul(b@, b@) == self@),
            (r matches Err(e) ==> e == ErrorKind::NonQuadraticResidue),
            (r is Ok) <==> (exists|y: (Seq<int>, Seq<int>)|
                Self::v_wf(y) && Self::v_desc(y) == Self::v_desc(self@) && #[trigger] Self::v_mul(
                    y,
                    y,
                ) == self@),
    {
        let ghost a = self@;
        let ghost pi = P as int;
        let zero_el = PrimeField::<P> { value: 0 };
        let mut cand: Vec<PrimeField<P>> = Vec::new();
        let mut ii: usize = 0;
        while ii < N
            invariant
                ii <= N,
                cand@.len() == ii,
                zero_el.value == 0,
                forall|j: int| 0 <= j < ii ==> #[trigger] cand@[j]@ == 0,
            decreases N - ii,
        {
            cand.push(zero_el);
            ii += 1;
        }
        proof {
            assert(all_zero(vals(cand@))) by {
                assert(forall|j: int|
                    0 <= j < N as int ==> #[trigger] vals(cand@)[j] == cand@[j]@);
            }
            lemma_coords_val_zero(vals(cand@), pi);
            assert forall|y: (Seq<int>, Seq<int>)|
                Self::v_wf(y) && Self::v_desc(y) == Self::v_desc(a) && coords_val(y.0, pi)
                    < coords_val(vals(cand@), pi) implies #[trigger] Self::v_mul(y, y) != a by {
                lemma_coords_val_bound(y.0, pi);
            }
        }
        loop
            invariant
                Self::v_wf(a),
                a == self@,
                a != Self::v_zero(a),
                pi == P as int,
                zero_el.value == 0,
                cand@.len() == N,
                forall|j: int| 0 <= j < N ==> 0 <= #[trigger] cand@[j]@ < pi,
                forall|y: (Seq<int>, Seq<int>)|
                    Self::v_wf(y) && Self::v_desc(y) == Self::v_desc(a) && coords_val(y.0, pi)
                        < coords_val(vals(cand@), pi) ==> #[trigger] Self::v_mul(y, y) != a,
            decreases pow(pi, N as nat) - coords_val(vals(cand@), pi),
        {
            proof {
                assert(all_reduced(vals(cand@), pi)) by {
                    assert(forall|j: int|
                        0 <= j < N as int ==> #[trigger] vals(cand@)[j] == cand@[j]@);
                }
                lemma_coords_val_bound(vals(cand@), pi);
            }
            let elem = FiniteField {
                coords: copy_elems(&cand),
                polynomial: copy_elems(&self.polynomial),
            };
            proof {
                assert(elem@.0 =~= vals(cand@));
                assert(elem@.1 =~= a.1);
                assert(Self::v_wf(elem@));
            }
            let sq = elem.mul(&elem);
            if sq.equals(self) {
                proof {
                    assert(Self::v_mul(elem@, elem@) == a);
                }
                return Ok(Box::new(elem));
            }
            let ghost old_cand = vals(cand@);
            proof {
                assert(forall|k: int| 0 <= k < N as int ==> #[trigger] old_cand[k] == cand@[k]@);
            }
            // find the lowest coordinate below P - 1
            let mut piv: usize = 0;
            while piv < N && cand[piv].value == P as u64 - 1
                invariant
                    P >= 2,
                    piv <= N,
                    pi == P as int,
                    cand@.len() == N,
                    forall|j: int| 0 <= j < N ==> 0 <= #[trigger] cand@[j]@ < pi,
                    forall|j: int| 0 <= j < piv ==> #[trigger] cand@[j]@ == pi - 1,
                decreases N - piv,
            {
                piv += 1;
            }
            if piv == N {
                // every coordinate is P - 1: the whole field has been walked
                proof {
                    assert(forall|j: int|
                        0 <= j < N as int ==> #[trigger] old_cand[j] == pi - 1);
                    lemma_coords_val_max(old_cand, pi);
                    if exists|yy: (Seq<int>, Seq<int>)|
                        Self::v_wf(yy) && Self::v_desc(yy) == Self::v_desc(a)
                            && #[trigger] Self::v_mul(yy, yy) == a {
                        let w = choose|yy: (Seq<int>, Seq<int>)|
                            Self::v_wf(yy) && Self::v_desc(yy) == Self::v_desc(a)
                                && #[trigger] Self::v_mul(yy, yy) == a;
                        lemma_coords_val_bound(w.0, pi);
                        if coords_val(w.0, pi) < coords_val(old_cand, pi) {
                            assert(Self::v_mul(w, w) != a);
                        } else {
                            lemma_coords_val_inj(w.0, old_cand, pi);
                            assert(w.1 == a.1);
                            assert(w == elem@);
                        }
                        assert(false);
                    }
                }
                return Err(ErrorKind::NonQuadraticResidue);
            }
            // roll the lower coordinates over and bump the pivot
            let mut j: usize = 0;
            while j < piv
                invariant
                    P >= 2,
                    pi == P as int,
                    j <= piv < N,
                    cand@.len() == N,
                    zero_el.value == 0,
                    old_cand.len() == N,
                    forall|k: int| 0 <= k < N ==> 0 <= #[trigger] old_cand[k] < pi,
                    forall|k: int| 0 <= k < piv ==> #[trigger] old_cand[k] == pi - 1,
                    old_cand[piv as int] < pi - 1,
                    forall|k: int| 0 <= k < j ==> #[trigger] cand@[k]@ == 0,
                    forall|k: int| j <= k < N ==> #[trigger] cand@[k]@ == old_cand[k],
                decreases piv - j,
            {
                cand.set(j, zero_el);
                j += 1;
            }
            proof {
                assert(cand@[piv as int]@ == old_cand[piv as int]);
            }
            let bumped = PrimeField::<P> { value: cand[piv].value + 1 };
            cand.set(piv, bumped);
            proof {
                let nv = vals(cand@);
                assert(forall|k: int| 0 <= k < N as int ==> #[trigger] nv[k] == cand@[k]@);
                assert(nv[piv as int] == old_cand[piv as int] + 1);
                lemma_odometer_step(old_cand, nv, pi, piv as int);
                assert(all_reduced(nv, pi));
                lemma_coords_val_bound(nv, pi);
                assert forall|y: (Seq<int>, Seq<int>)|
                    Self::v_wf(y) && Self::v_desc(y) == Self::v_desc(a) && coords_val(y.0, pi)
                        < coords_val(nv, pi) implies #[trigger] Self::v_mul(y, y) != a by {
                    if coords_val(y.0, pi) < coords_val(old_cand, pi) {
                        assert(Self::v_mul(y, y) != a);
                    } else {
                        assert(all_reduced(y.0, pi));
                        lemma_coords_val_inj(y.0, old_cand, pi);
                        assert(y.1 == a.1);
                        assert(y == elem@);
                        assert(Self::v_mul(y, y) == sq@);
                    }
                }
            }
        }
    }
}

impl<const P: u32, const N: usize> Field for FiniteField<P, N> {
    open spec fn v_wf(a: (Seq<int>, Seq<int>)) -> bool {
        &&& P >= 2
        &&& 1 <= N <= 0x7fffffff
        &&& a.0.len() == N
        &&& a.1.len() == N
        &&& all_reduced(a.0, P as int)
        &&& all_reduced(a.1, P as int)
    }

    open spec fn v_desc(a: (Seq<int>, Seq<int>)) -> (Seq<int>, Seq<int>) {
        (Seq::<int>::empty(), a.1)
    }

    open spec fn v_zero(a: (Seq<int>, Seq<int>)) -> (Seq<int>, Seq<int>) {
        (Seq::new(N as nat, |i: int| 0int), a.1)
    }

    open spec fn v_one(a: (Seq<int>, Seq<int>)) -> (Seq<int>, Seq<int>) {
        (
            Seq::new(
                N as nat,
                |i: int|
                    if i == 0 {
                        1int
                    } else {
                        0int
                    },
            ),
            a.1,
        )
    }

    open spec fn v_add(a: (Seq<int>, Seq<int>), b: (Seq<int>, Seq<int>)) -> (Seq<int>, Seq<int>) {
        (Seq::new(N as nat, |i: int| (a.0[i] + b.0[i]) % (P as int)), a.1)
    }

    open spec fn v_neg(a: (Seq<int>, Seq<int>)) -> (Seq<int>, Seq<int>) {
        (Seq::new(N as nat, |i: int| (P as int - a.0[i]) % (P as int)), a.1)
    }

    open spec fn v_mul(a: (Seq<int>, Seq<int>), b: (Seq<int>, Seq<int>)) -> (Seq<int>, Seq<int>) {
        (
            reduce_from(poly_prod(a.0, b.0, P as int), a.1, 2 * (N as int) - 2, P as int).take(
                N as int,
            ),
            a.1,
        )
    }

    open spec fn v_zmul(a: (Seq<int>, Seq<int>), k: int) -> (Seq<int>, Seq<int>) {
        (Seq::new(N as nat, |i: int| (a.0[i] * k) % (P as int)), a.1)
    }

    open spec fn v_pow(a: (Seq<int>, Seq<int>), e: nat) -> (Seq<int>, Seq<int>) {
        ff_pow::<P, N>(a, e)
    }

    open spec fn v_zpow(a: (Seq<int>, Seq<int>), k: int) -> (Seq<int>, Seq<int>) {
        if k >= 0 {
            ff_pow::<P, N>(a, k as nat)
        } else {
            ff_pow::<P, N>(Self::v_inv(a), (-k) as nat)
        }
    }

    open spec fn v_inv(a: (Seq<int>, Seq<int>)) -> (Seq<int>, Seq<int>) {
        ff_pow::<P, N>(a, (Self::v_order(a) - 2) as nat)
    }

    open spec fn v_invertible(a: (Seq<int>, Seq<int>)) -> bool {
        a != Self::v_zero(a)
    }

    open spec fn v_is_square(a: (Seq<int>, Seq<int>)) -> bool {
        ff_pow::<P, N>(a, ((Self::v_order(a) - 1) / 2) as nat) == Self::v_one(a)
    }

    open spec fn v_order(a: (Seq<int>, Seq<int>)) -> nat {
        pow(P as int, N as nat) as nat
    }

    open spec fn v_base_order() -> nat {
        P as nat
    }

    open spec fn v_degree() -> nat {
        N as nat
    }

    proof fn axiom_desc(a: (Seq<int>, Seq<int>), b: (Seq<int>, Seq<int>)) {
    }

    proof fn axiom_ops_wf(a: (Seq<int>, Seq<int>), b: (Seq<int>, Seq<int>)) {
        let p = P as int;
        assert forall|i: int| 0 <= i < N as int implies 0 <= #[trigger] (Self::v_add(a, b).0[i])
            < p by {
            lemma_mod_bound(a.0[i] + b.0[i], p);
        }
        assert forall|i: int| 0 <= i < N as int implies 0 <= #[trigger] (Self::v_neg(a).0[i])
            < p by {
            lemma_mod_bound(p - a.0[i], p);
        }
        assert forall|i: int| 0 <= i < N as int implies 0 <= #[trigger] (Self::v_zero(a).0[i])
            < p by {
        }
        assert forall|i: int| 0 <= i < N as int implies 0 <= #[trigger] (Self::v_one(a).0[i])
            < p by {
        }
        lemma_ff_mul_wf::<P, N>(a, b);
        lemma_ff_pow_wf::<P, N>(a, (Self::v_order(a) - 2) as nat);
    }

    proof fn axiom_iter_ops_wf(a: (Seq<int>, Seq<int>), k: int, e: nat) {
        let p = P as int;
        assert forall|i: int| 0 <= i < N as int implies 0 <= #[trigger] (Self::v_zmul(a, k).0[i])
            < p by {
            lemma_mod_bound(a.0[i] * k, p);
        }
        lemma_ff_pow_wf::<P, N>(a, e);
        lemma_ff_pow_wf::<P, N>(a, (Self::v_order(a) - 2) as nat);
        if k < 0 {
            lemma_ff_pow_wf::<P, N>(Self::v_inv(a), (-k) as nat);
        } else {
            lemma_ff_pow_wf::<P, N>(a, k as nat);
        }
    }

    fn zero(&self) -> (r: Self) {
        let mut coords: Vec<PrimeField<P>> = Vec::new();
        let mut i: usize = 0;
        while i < N
            invariant
                i <= N,
                coords@.len() == i,
                forall|j: int| 0 <= j < i ==> #[trigger] coords@[j]@ == 0,
            decreases N - i,
        {
            coords.push(PrimeField { value: 0 });
            i += 1;
        }
        let r = FiniteField { coords, polynomial: copy_elems(&self.polynomial) };
        proof {
            assert(r@.0 =~= Self::v_zero(self@).0);
        }
        r
    }

    fn one(&self) -> (r: Self) {
        let mut coords: Vec<PrimeField<P>> = Vec::new();
        let mut i: usize = 0;
        while i < N
            invariant
                i <= N,
                coords@.len() == i,
                forall|j: int|
                    0 <= j < i ==> #[trigger] coords@[j]@ == (if j == 0 {
                        1int
                    } else {
                        0int
                    }),
            decreases N - i,
        {
            if i == 0 {
                coords.push(PrimeField { value: 1 });
            } else {
                coords.push(PrimeField { value: 0 });
            }
            i += 1;
        }
        let r = FiniteField { coords, polynomial: copy_elems(&self.polynomial) };
        proof {
            assert(r@.0 =~= Self::v_one(self@).0);
        }
        r
    }

    fn is_zero(&self) -> (b: bool) {
        let mut i: usize = 0;
        let mut all0 = true;
        while i < N
            invariant
                i <= N,
                self@.0.len() == N,
                self.coords@.len() == N,
                all0 == (forall|j: int| 0 <= j < i ==> #[trigger] self@.0[j] == 0),
            decreases N - i,
        {
            proof {
                assert(self@.0[i as int] == self.coords@[i as int]@);
            }
            if self.coords[i].value != 0 {
                all0 = false;
            }
            i += 1;
        }
        proof {
            if all0 {
                assert(self@.0 =~= Self::v_zero(self@).0);
            } else {
                let j = choose|j: int| 0 <= j < N && #[trigger] self@.0[j] != 0;
                assert(self@.0[j] != Self::v_zero(self@).0[j]);
            }
        }
        all0
    }

    fn equals(&self, y: &Self) -> (b: bool) {
        let mut i: usize = 0;
        let mut same = true;
        while i < N
            invariant
                i <= N,
                self@.0.len() == N,
                y@.0.len() == N,
                self.coords@.len() == N,
                y.coords@.len() == N,
                same == (forall|j: int| 0 <= j < i ==> #[trigger] self@.0[j] == y@.0[j]),
            decreases N - i,
        {
            proof {
                assert(self@.0[i as int] == self.coords@[i as int]@);
                assert(y@.0[i as int] == y.coords@[i as int]@);
            }
            if self.coords[i].value != y.coords[i].value {
                same = false;
            }
            i += 1;
        }
        proof {
            if same {
                assert(self@.0 =~= y@.0);
            } else {
                let j = choose|j: int| 0 <= j < N && #[trigger] self@.0[j] != y@.0[j];
                assert(self@.0[j] != y@.0[j]);
            }
        }
        same
    }

    fn dup(&self) -> (r: Self) {
        FiniteField { coords: copy_elems(&self.coords), polynomial: copy_elems(&self.polynomial) }
    }

    fn add(&self, y: &Self) -> (r: Self) {
        let mut coords: Vec<PrimeField<P>> = Vec::new();
        let mut i: usize = 0;
        while i < N
            invariant
                i <= N,
                Self::v_wf(self@),
                Self::v_wf(y@),
                self.coords@.len() == N,
                y.coords@.len() == N,
                coords@.len() == i,
                forall|j: int|
                    0 <= j < i ==> #[trigger] coords@[j]@ == (self@.0[j] + y@.0[j]) % (P as int),
            decreases N - i,
        {
            proof {
                lemma_coord_wf(self, i as int);
                lemma_coord_wf(y, i as int);
            }
            coords.push(self.coords[i].add(&y.coords[i]));
            i += 1;
        }
        let r = FiniteField { coords, polynomial: copy_elems(&self.polynomial) };
        proof {
            assert(r@.0 =~= Self::v_add(self@, y@).0);
            assert forall|j: int| 0 <= j < N as int implies 0 <= #[trigger] (r@.0[j]) < P as int by {
                lemma_mod_bound(self@.0[j] + y@.0[j], P as int);
            }
        }
        r
    }

    fn neg(&self) -> (r: Self) {
        let mut coords: Vec<PrimeField<P>> = Vec::new();
        let mut i: usize = 0;
        while i < N
            invariant
                i <= N,
                Self::v_wf(self@),
                self.coords@.len() == N,
                coords@.len() == i,
                forall|j: int|
                    0 <= j < i ==> #[trigger] coords@[j]@ == (P as int - self@.0[j]) % (P as int),
            decreases N - i,
        {
            proof {
                lemma_coord_wf(self, i as int);
            }
            coords.push(self.coords[i].neg());
            i += 1;
        }
        let r = FiniteField { coords, polynomial: copy_elems(&self.polynomial) };
        proof {
            assert(r@.0 =~= Self::v_neg(self@).0);
            assert forall|j: int| 0 <= j < N as int implies 0 <= #[trigger] (r@.0[j]) < P as int by {
                lemma_mod_bound(P as int - self@.0[j], P as int);
            }
        }
        r
    }

    fn zmul(&self, y: i64) -> (r: Self) {
        let mut coords: Vec<PrimeField<P>> = Vec::new();
        let mut i: usize = 0;
        while i < N
            invariant
                i <= N,
                Self::v_wf(self@),
                self.coords@.len() == N,
                coords@.len() == i,
                forall|j: int|
                    0 <= j < i ==> #[trigger] coords@[j]@ == (self@.0[j] * (y as int)) % (P as int),
            decreases N - i,
        {
            proof {
                lemma_coord_wf(self, i as int);
            }
            coords.push(self.coords[i].zmul(y));
            i += 1;
        }
        let r = FiniteField { coords, polynomial: copy_elems(&self.polynomial) };
        proof {
            assert(r@.0 =~= Self::v_zmul(self@, y as int).0);
            assert forall|j: int| 0 <= j < N as int implies 0 <= #[trigger] (r@.0[j]) < P as int by {
                lemma_mod_bound(self@.0[j] * (y as int), P as int);
            }
        }
        r
    }

    fn mul(&self, y: &Self) -> (r: Self) {
        let ghost av = self@.0;
        let ghost bv = y@.0;
        let ghost rv = self@.1;
        let ghost p = P as int;
        let n: usize = N;
        let zero_el = PrimeField::<P> { value: 0 };
        // product buffer of 2n - 1 zero coefficients
        let mut q: Vec<PrimeField<P>> = Vec::new();
        let mut t: usize = 0;
        while t < 2 * n - 1
            invariant
                n == N,
                1 <= n <= 0x7fffffff,
                t <= 2 * n - 1,
                zero_el.value == 0,
                q@.len() == t,
                forall|j: int| 0 <= j < t ==> #[trigger] q@[j]@ == 0,
            decreases 2 * n - 1 - t,
        {
            q.push(zero_el);
            t += 1;
        }
        // schoolbook product
        let mut k: usize = 0;
        while k < 2 * n - 1
            invariant
                n == N,
                1 <= n <= 0x7fffffff,
                P >= 2,
                k <= 2 * n - 1,
                Self::v_wf(self@),
                Self::v_wf(y@),
                av == self@.0,
                bv == y@.0,
                p == P as int,
                self.coords@.len() == n,
                y.coords@.len() == n,
                q@.len() == 2 * n - 1,
                forall|j: int| 0 <= j < k ==> #[trigger] q@[j]@ == conv_at(av, bv, j, j + 1, p),
                forall|j: int| k <= j < 2 * n - 1 ==> #[trigger] q@[j]@ == 0,
                forall|j: int| 0 <= j < 2 * n - 1 ==> 0 <= #[trigger] q@[j]@ < p,
            decreases 2 * n - 1 - k,
        {
            let mut l: usize = 0;
            while l < k + 1
                invariant
                    n == N,
                    1 <= n <= 0x7fffffff,
                    P >= 2,
                    k < 2 * n - 1,
                    l <= k + 1,
                    Self::v_wf(self@),
                    Self::v_wf(y@),
                    av == self@.0,
                    bv == y@.0,
                    p == P as int,
                    self.coords@.len() == n,
                    y.coords@.len() == n,
                    q@.len() == 2 * n - 1,
                    forall|j: int| 0 <= j < k ==> #[trigger] q@[j]@ == conv_at(av, bv, j, j + 1, p),
                    q@[k as int]@ == conv_at(av, bv, k as int, l as int, p),
                    forall|j: int| k < j < 2 * n - 1 ==> #[trigger] q@[j]@ == 0,
                    forall|j: int| 0 <= j < 2 * n - 1 ==> 0 <= #[trigger] q@[j]@ < p,
                decreases k + 1 - l,
            {
                if k - l < n && l < n {
                    proof {
                        lemma_coord_wf(self, k as int - l as int);
                        lemma_coord_wf(y, l as int);
                    }
                    let prod = self.coords[k - l].mul(&y.coords[l]);
                    let s = q[k].add(&prod);
                    q.set(k, s);
                }
                proof {
                    let ll = l as int;
                    assert(conv_at(av, bv, k as int, ll + 1, p) == (if 0 <= k as int - ll < av.len()
                        && 0 <= ll < bv.len() {
                        (conv_at(av, bv, k as int, ll, p) + (av[k as int - ll] * bv[ll]) % p) % p
                    } else {
                        conv_at(av, bv, k as int, ll, p)
                    }));
                }
                l += 1;
            }
            k += 1;
        }
        proof {
            assert(vals(q@) =~= poly_prod(av, bv, p));
        }
        let ghost q0 = vals(q@);
        // reduction, highest degree first
        let mut li: usize = 2 * n - 2;
        let mut started = n <= 2 * n - 2;
        proof {
            if !started {
                assert(reduce_from(vals(q@), rv, li as int, p) == vals(q@));
            }
        }
        while started
            invariant
                n == N,
                1 <= n <= 0x7fffffff,
                P >= 2,
                p == P as int,
                zero_el.value == 0,
                rv == self@.1,
                rv.len() == n,
                Self::v_wf(self@),
                self.polynomial@.len() == n,
                q@.len() == 2 * n - 1,
                started ==> n as int <= li as int <= 2 * n - 2,
                !started ==> reduce_from(vals(q@), rv, (n - 1) as int, p) == reduce_from(
                    q0,
                    rv,
                    2 * (n as int) - 2,
                    p,
                ),
                started ==> reduce_from(vals(q@), rv, li as int, p) == reduce_from(
                    q0,
                    rv,
                    2 * (n as int) - 2,
                    p,
                ),
                forall|j: int| 0 <= j < 2 * n - 1 ==> 0 <= #[trigger] q@[j]@ < p,
            decreases (if started {
                li as int + 1
            } else {
                0
            }),
        {
            let ghost before = vals(q@);
            let ql = q[li];
            let mut kk: usize = 0;
            while kk < n
                invariant
                    n == N,
                    1 <= n <= 0x7fffffff,
                    P >= 2,
                    p == P as int,
                    kk <= n,
                    n as int <= li as int <= 2 * n - 2,
                    rv == self@.1,
                    rv.len() == n,
                    Self::v_wf(self@),
                    self.polynomial@.len() == n,
                    q@.len() == 2 * n - 1,
                    before.len() == 2 * n - 1,
                    ql@ == before[li as int],
                    0 <= ql@ < p,
                    forall|j: int|
                        0 <= j < 2 * n - 1 ==> #[trigger] q@[j]@ == (if li as int - n as int <= j
                            < li as int - n as int + kk as int {
                            (before[j] + (before[li as int] * rv[j - (li as int - n as int)]) % p)
                                % p
                        } else {
                            before[j]
                        }),
                    forall|j: int| 0 <= j < 2 * n - 1 ==> 0 <= #[trigger] q@[j]@ < p,
                decreases n - kk,
            {
                let idx = li - n + kk;
                proof {
                    lemma_coord_wf(self, kk as int);
                }
                let prod = ql.mul(&self.polynomial[kk]);
                let s = q[idx].add(&prod);
                q.set(idx, s);
                proof {
                    lemma_mod_bound(before[idx as int] + (before[li as int] * rv[kk as int]) % p, p);
                }
                kk += 1;
            }
            q.set(li, zero_el);
            proof {
                let fs = fold_step(before, rv, li as int, p);
                assert forall|j: int| 0 <= j < 2 * n - 1 implies vals(q@)[j] == #[trigger] fs[j] by {
                    assert(vals(q@)[j] == q@[j]@);
                }
                assert(vals(q@) =~= fs);
                assert(reduce_from(before, rv, li as int, p) == reduce_from(
                    fold_step(before, rv, li as int, p),
                    rv,
                    li as int - 1,
                    p,
                ));
            }
            if li == n {
                started = false;
            } else {
                li -= 1;
            }
        }
        // the low n coefficients are the result
        let mut res: Vec<PrimeField<P>> = Vec::new();
        let mut i: usize = 0;
        while i < n
            invariant
                n == N,
                i <= n,
                q@.len() == 2 * n - 1,
                res@.len() == i,
                forall|j: int| 0 <= j < i ==> #[trigger] res@[j] == q@[j],
            decreases n - i,
        {
            res.push(q[i]);
            i += 1;
        }
        let r = FiniteField { coords: res, polynomial: copy_elems(&self.polynomial) };
        proof {
            assert(r@.0 =~= reduce_from(q0, rv, 2 * (n as int) - 2, p).take(n as int));
        }
        r
    }

    fn pow(&self, y: &BigInt) -> (r: Self) {
        ff_pow_rec(self, y)
    }

    fn zpow(&self, y: i64) -> (r: Self) {
        if y >= 0 {
            ff_pow_rec(self, &BigInt::from_u64(y as u64))
        } else {
            let inv = match self.invert() {
                Ok(b) => b,
                Err(_) => {
                    proof {
                        assert(false);
                    }
                    Box::new(self.dup())
                },
            };
            let wide: i128 = y as i128;
            let mag: u64 = (-wide) as u64;
            ff_pow_rec(&inv, &BigInt::from_u64(mag))
        }
    }

    fn square(&self) -> (r: Self) {
        self.mul(self)
    }

    fn sqrt(&self, rng: &mut Lcg) -> (r: Result<Box<Self>, ErrorKind>) {
        let ghost a = self@;
        let ghost pi = P as int;
        if self.is_zero() {
            proof {
                assert(all_zero(self@.0)) by {
                    assert(forall|j: int|
                        0 <= j < N as int ==> #[trigger] self@.0[j] == Self::v_zero(self@).0[j]);
                }
                lemma_ff_mul_zero::<P, N>(self@);
            }
            return Ok(Box::new(self.dup()));
        }
        // the fast Tonelli-Shanks path
        match self.sqrt_tonelli(rng) {
            Some(b) => {
                proof {
                    assert(Self::v_mul(b@, b@) == a);
                }
                Ok(Box::new(b))
            },
            None => self.sqrt_exhaustive(),
        }
    }

    fn is_square(&self) -> (b: bool) {
        let one_el = self.one();
        let two = BigInt::from_u64(2);
        let q = self.order();
        proof {
            lemma_pow1(P as int);
            lemma_pow_increases(P as nat, 1, N as nat);
            lemma_pow_positive(P as int, N as nat);
        }
        let e = q.sub(&BigInt::one()).div(&two);
        let pw = ff_pow_rec(self, &e);
        pw.equals(&one_el)
    }

    fn invert(&self) -> (r: Result<Box<Self>, ErrorKind>) {
        if self.is_zero() {
            Err(ErrorKind::NoInverse)
        } else {
            let q = self.order();
            proof {
                lemma_pow1(P as int);
                lemma_pow_increases(P as nat, 1, N as nat);
                lemma_pow_positive(P as int, N as nat);
            }
            let e = q.sub(&BigInt::from_u64(2));
            let r = ff_pow_rec(self, &e);
            Ok(Box::new(r))
        }
    }

    fn div(&self, y: &Self) -> (r: Result<Box<Self>, ErrorKind>) {
        match y.invert() {
            Ok(i) => Ok(Box::new(self.mul(&i))),
            Err(e) => Err(e),
        }
    }

    fn degree() -> (d: usize) {
        N
    }

    fn order(&self) -> (r: BigInt) {
        proof {
            lemma_pow_positive(P as int, N as nat);
        }
        BigInt::from_u64(P as u64).pow(&BigInt::from_u64(N as u64))
    }

    fn base_order() -> (r: BigInt) {
        BigInt::from_u64(P as u64)
    }

    fn random_element(&self, rng: &mut Lcg) -> (r: Self) {
        let seed = PrimeField::<P> { value: 0 };
        let mut coords: Vec<PrimeField<P>> = Vec::new();
        let mut i: usize = 0;
        while i < N
            invariant
                P >= 2,
                i <= N,
                seed.value == 0,
                coords@.len() == i,
                forall|j: int| 0 <= j < i ==> 0 <= #[trigger] coords@[j]@ < P as int,
            decreases N - i,
        {
            coords.push(seed.random_element(rng));
            i += 1;
        }
        FiniteField { coords, polynomial: copy_elems(&self.polynomial) }
    }
}

/// Well-formedness of the product.
proof fn lemma_ff_mul_wf<const P: u32, const N: usize>(
    a: (Seq<int>, Seq<int>),
    b: (Seq<int>, Seq<int>),
)
    requires
        FiniteField::<P, N>::v_wf(a),
        FiniteField::<P, N>::v_wf(b),
    ensures
        FiniteField::<P, N>::v_wf(FiniteField::<P, N>::v_mul(a, b)),
        FiniteField::<P, N>::v_desc(FiniteField::<P, N>::v_mul(a, b)) == FiniteField::<P, N>::v_desc(a),
{
    let p = P as int;
    let prod = poly_prod(a.0, b.0, p);
    assert forall|k: int| 0 <= k < prod.len() implies 0 <= #[trigger] prod[k] < p by {
        lemma_conv_reduced(a.0, b.0, k, k + 1, p);
    }
    lemma_reduce_wf(prod, a.1, 2 * (N as int) - 2, p);
}

/// Well-formedness of the halving power.
proof fn lemma_ff_pow_wf<const P: u32, const N: usize>(a: (Seq<int>, Seq<int>), e: nat)
    requires
        FiniteField::<P, N>::v_wf(a),
    ensures
        FiniteField::<P, N>::v_wf(ff_pow::<P, N>(a, e)),
        FiniteField::<P, N>::v_desc(ff_pow::<P, N>(a, e)) == FiniteField::<P, N>::v_desc(a),
    decreases e,
{
    if e == 0 {
    } else if e == 1 {
    } else {
        let h = e / 2;
        lemma_ff_pow_wf::<P, N>(a, h);
        if e % 2 == 1 {
            lemma_ff_pow_wf::<P, N>(a, (h + 1) as nat);
            lemma_ff_mul_wf::<P, N>(ff_pow::<P, N>(a, h), ff_pow::<P, N>(a, (h + 1) as nat));
        } else {
            lemma_ff_mul_wf::<P, N>(ff_pow::<P, N>(a, h), ff_pow::<P, N>(a, h));
        }
    }
}

// ---------------------------------------------------------------------------
// Field laws of the extension field.  Associativity of the reduced product
// needs the quotient-ring structure of `Fp[X]/I` and is exercised by tests
// instead; the other ring laws are proved below.
// ---------------------------------------------------------------------------

/// Addition is commutative.
pub proof fn lemma_ff_add_comm<const P: u32, const N: usize>(
    a: (Seq<int>, Seq<int>),
    b: (Seq<int>, Seq<int>),
)
    requires
        FiniteField::<P, N>::v_wf(a),
        FiniteField::<P, N>::v_wf(b),
        FiniteField::<P, N>::v_desc(a) == FiniteField::<P, N>::v_desc(b),
    ensures
        FiniteField::<P, N>::v_add(a, b) == FiniteField::<P, N>::v_add(b, a),
{
    assert(FiniteField::<P, N>::v_add(a, b).0 =~= FiniteField::<P, N>::v_add(b, a).0);
}

/// Addition is associative.
pub proof fn lemma_ff_add_assoc<const P: u32, const N: usize>(
    a: (Seq<int>, Seq<int>),
    b: (Seq<int>, Seq<int>),
    c: (Seq<int>, Seq<int>),
)
    requires
        FiniteField::<P, N>::v_wf(a),
        FiniteField::<P, N>::v_wf(b),
        FiniteField::<P, N>::v_wf(c),
    ensures
        FiniteField::<P, N>::v_add(FiniteField::<P, N>::v_add(a, b), c) == FiniteField::<P,
            N,
        >::v_add(a, FiniteField::<P, N>::v_add(b, c)),
{
    let p = P as int;
    let lhs = FiniteField::<P, N>::v_add(FiniteField::<P, N>::v_add(a, b), c);
    let rhs = FiniteField::<P, N>::v_add(a, FiniteField::<P, N>::v_add(b, c));
    assert forall|i: int| 0 <= i < N as int implies lhs.0[i] == #[trigger] rhs.0[i] by {
        lemma_small_mod(a.0[i] as nat, p as nat);
        lemma_small_mod(c.0[i] as nat, p as nat);
        lemma_add_mod_noop(a.0[i] + b.0[i], c.0[i], p);
        lemma_add_mod_noop(a.0[i], b.0[i] + c.0[i], p);
    }
    assert(lhs.0 =~= rhs.0);
}

/// The zero element is neutral for addition.
pub proof fn lemma_ff_add_zero<const P: u32, const N: usize>(a: (Seq<int>, Seq<int>))
    requires
        FiniteField::<P, N>::v_wf(a),
    ensures
        FiniteField::<P, N>::v_add(a, FiniteField::<P, N>::v_zero(a)) == a,
{
    let p = P as int;
    let lhs = FiniteField::<P, N>::v_add(a, FiniteField::<P, N>::v_zero(a));
    assert forall|i: int| 0 <= i < N as int implies #[trigger] lhs.0[i] == a.0[i] by {
        lemma_small_mod(a.0[i] as nat, p as nat);
    }
    assert(lhs.0 =~= a.0);
}

/// Every element cancels with its negation.
pub proof fn lemma_ff_add_neg<const P: u32, const N: usize>(a: (Seq<int>, Seq<int>))
    requires
        FiniteField::<P, N>::v_wf(a),
    ensures
        FiniteField::<P, N>::v_add(a, FiniteField::<P, N>::v_neg(a)) == FiniteField::<P,
            N,
        >::v_zero(a),
{
    let p = P as int;
    let lhs = FiniteField::<P, N>::v_add(a, FiniteField::<P, N>::v_neg(a));
    assert forall|i: int| 0 <= i < N as int implies #[trigger] lhs.0[i] == 0 by {
        lemma_mod_self_0(p);
        lemma_small_mod(0, p as nat);
        if a.0[i] != 0 {
            lemma_small_mod((p - a.0[i]) as nat, p as nat);
        }
    }
    assert(lhs.0 =~= FiniteField::<P, N>::v_zero(a).0);
}

/// One reduced term of the convolution at coefficient `k`.
spec fn conv_term(a: Seq<int>, b: Seq<int>, k: int, j: int, p: int) -> int {
    if 0 <= k - j < a.len() && 0 <= j < b.len() {
        (a[k - j] * b[j]) % p
    } else {
        0
    }
}

/// Sum of the first `l` reduced terms, without the outer reduction.
spec fn conv_lsum(a: Seq<int>, b: Seq<int>, k: int, l: int, p: int) -> int
    decreases l,
{
    if l <= 0 {
        0
    } else {
        conv_lsum(a, b, k, l - 1, p) + conv_term(a, b, k, l - 1, p)
    }
}

/// Sum of the reduced terms from index `from` up to `k`.
spec fn conv_hsum(a: Seq<int>, b: Seq<int>, k: int, from: int, p: int) -> int
    decreases (if from <= k {
        k + 1 - from
    } else {
        0
    }),
{
    if from > k {
        0
    } else {
        conv_term(a, b, k, from, p) + conv_hsum(a, b, k, from + 1, p)
    }
}

proof fn lemma_conv_at_is_sum(a: Seq<int>, b: Seq<int>, k: int, l: int, p: int)
    requires
        p >= 2,
    ensures
        conv_at(a, b, k, l, p) == conv_lsum(a, b, k, l, p) % p,
    decreases l,
{
    if l <= 0 {
        lemma_small_mod(0, p as nat);
    } else {
        lemma_conv_at_is_sum(a, b, k, l - 1, p);
        let j = l - 1;
        let t = conv_term(a, b, k, j, p);
        lemma_conv_reduced(a, b, k, l - 1, p);
        if 0 <= k - j < a.len() && 0 <= j < b.len() {
            lemma_mod_bound(a[k - j] * b[j], p);
            assert((conv_lsum(a, b, k, j, p) % p + t) % p == (conv_lsum(a, b, k, j, p) + t) % p)
                by {
                lemma_add_mod_noop(conv_lsum(a, b, k, j, p), t, p);
                lemma_small_mod(t as nat, p as nat);
            }
        } else {
            lemma_mod_twice(conv_lsum(a, b, k, j, p), p);
        }
    }
}

proof fn lemma_conv_split(a: Seq<int>, b: Seq<int>, k: int, m: int, p: int)
    requires
        0 <= m <= k + 1,
    ensures
        conv_lsum(a, b, k, m, p) + conv_hsum(a, b, k, m, p) == conv_lsum(a, b, k, k + 1, p),
    decreases k + 1 - m,
{
    if m == k + 1 {
    } else {
        lemma_conv_split(a, b, k, m + 1, p);
    }
}

proof fn lemma_conv_reverse(a: Seq<int>, b: Seq<int>, k: int, l: int, p: int)
    requires
        a.len() == b.len(),
        0 <= l <= k + 1,
        k < 2 * a.len() - 1,
    ensures
        conv_lsum(b, a, k, l, p) == conv_hsum(a, b, k, k + 1 - l, p),
    decreases l,
{
    if l <= 0 {
    } else {
        lemma_conv_reverse(a, b, k, l - 1, p);
        let j = l - 1;
        assert(conv_term(b, a, k, j, p) == conv_term(a, b, k, k - j, p)) by {
            if 0 <= k - j < b.len() && 0 <= j < a.len() {
                lemma_mul_is_commutative(b[k - j], a[j]);
            }
        }
        assert(conv_hsum(a, b, k, k + 1 - l, p) == conv_term(a, b, k, k - j, p) + conv_hsum(
            a,
            b,
            k,
            k + 2 - l,
            p,
        ));
    }
}

/// Multiplication in the extension field is commutative.
pub proof fn lemma_ff_mul_comm<const P: u32, const N: usize>(
    a: (Seq<int>, Seq<int>),
    b: (Seq<int>, Seq<int>),
)
    requires
        FiniteField::<P, N>::v_wf(a),
        FiniteField::<P, N>::v_wf(b),
        FiniteField::<P, N>::v_desc(a) == FiniteField::<P, N>::v_desc(b),
    ensures
        FiniteField::<P, N>::v_mul(a, b) == FiniteField::<P, N>::v_mul(b, a),
{
    let p = P as int;
    assert(a.1 == b.1);
    let pab = poly_prod(a.0, b.0, p);
    let pba = poly_prod(b.0, a.0, p);
    assert forall|k: int| 0 <= k < pab.len() implies pab[k] == #[trigger] pba[k] by {
        lemma_conv_at_is_sum(a.0, b.0, k, k + 1, p);
        lemma_conv_at_is_sum(b.0, a.0, k, k + 1, p);
        lemma_conv_reverse(a.0, b.0, k, k + 1, p);
        lemma_conv_split(a.0, b.0, k, 0, p);
    }
    assert(pab =~= pba);
}

proof fn lemma_conv_one(a: Seq<int>, one: Seq<int>, k: int, l: int, p: int)
    requires
        p >= 2,
        all_reduced(a, p),
        one.len() >= 1,
        one[0] == 1,
        forall|j: int| 1 <= j < one.len() ==> #[trigger] one[j] == 0,
    ensures
        conv_at(a, one, k, l, p) == (if l >= 1 && 0 <= k < a.len() {
            a[k]
        } else {
            0int
        }),
    decreases l,
{
    if l <= 0 {
    } else {
        lemma_conv_one(a, one, k, l - 1, p);
        let j = l - 1;
        let prev = conv_at(a, one, k, j, p);
        if 0 <= k - j < a.len() && 0 <= j < one.len() {
            if j == 0 {
                assert((0 + (a[k] * 1) % p) % p == a[k]) by {
                    assert(a[k] * 1 == a[k]);
                    lemma_small_mod(a[k] as nat, p as nat);
                }
            } else {
                assert(a[k - j] * one[j] == 0) by (nonlinear_arith)
                    requires
                        one[j] == 0,
                ;
                lemma_small_mod(0, p as nat);
                if prev != 0 {
                    lemma_small_mod(prev as nat, p as nat);
                }
                if prev == 0 {
                    lemma_small_mod(0, p as nat);
                }
            }
        }
    }
}

proof fn lemma_reduce_identity(s: Seq<int>, red: Seq<int>, l: int, p: int)
    requires
        p >= 2,
        all_reduced(s, p),
        l < s.len(),
        forall|j: int| red.len() <= j <= l && j < s.len() ==> #[trigger] s[j] == 0,
    ensures
        reduce_from(s, red, l, p) == s,
    decreases (if l >= 0 {
        l + 1
    } else {
        0
    }),
{
    if l < red.len() as int || red.len() == 0 || l < 0 {
    } else {
        let f = fold_step(s, red, l, p);
        assert(s[l] == 0);
        assert forall|j: int| 0 <= j < f.len() implies #[trigger] f[j] == s[j] by {
            let n = red.len() as int;
            if j == l {
            } else if l - n <= j < l {
                assert(s[l] * red[j - (l - n)] == 0) by (nonlinear_arith)
                    requires
                        s[l] == 0,
                ;
                lemma_small_mod(0, p as nat);
                lemma_small_mod(s[j] as nat, p as nat);
            }
        }
        assert(f =~= s);
        lemma_reduce_identity(s, red, l - 1, p);
    }
}

/// The one element is neutral for multiplication.
pub proof fn lemma_ff_mul_one<const P: u32, const N: usize>(a: (Seq<int>, Seq<int>))
    requires
        FiniteField::<P, N>::v_wf(a),
    ensures
        FiniteField::<P, N>::v_mul(a, FiniteField::<P, N>::v_one(a)) == a,
{
    let p = P as int;
    let one = FiniteField::<P, N>::v_one(a).0;
    let prod = poly_prod(a.0, one, p);
    assert forall|k: int| 0 <= k < prod.len() implies #[trigger] prod[k] == (if k < N as int {
        a.0[k]
    } else {
        0int
    }) by {
        lemma_conv_one(a.0, one, k, k + 1, p);
    }
    lemma_reduce_identity(prod, a.1, 2 * (N as int) - 2, p);
    assert(reduce_from(prod, a.1, 2 * (N as int) - 2, p).take(N as int) =~= a.0);
}

/// Pointwise reduced sum of two coefficient sequences of one length.
spec fn seq_madd(s: Seq<int>, t: Seq<int>, p: int) -> Seq<int> {
    Seq::new(s.len(), |i: int| (s[i] + t[i]) % p)
}

proof fn lemma_conv_linear(a: Seq<int>, b: Seq<int>, c: Seq<int>, k: int, l: int, p: int)
    requires
        p >= 2,
        b.len() == c.len(),
    ensures
        conv_at(a, seq_madd(b, c, p), k, l, p) == (conv_at(a, b, k, l, p) + conv_at(
            a,
            c,
            k,
            l,
            p,
        )) % p,
    decreases l,
{
    lemma_conv_reduced(a, b, k, l, p);
    lemma_conv_reduced(a, c, k, l, p);
    if l <= 0 {
        lemma_small_mod(0, p as nat);
    } else {
        lemma_conv_linear(a, b, c, k, l - 1, p);
        let j = l - 1;
        let m = seq_madd(b, c, p);
        let xx = conv_at(a, b, k, j, p);
        let yy = conv_at(a, c, k, j, p);
        lemma_conv_reduced(a, b, k, j, p);
        lemma_conv_reduced(a, c, k, j, p);
        if 0 <= k - j < a.len() && 0 <= j < b.len() {
            let aa = a[k - j];
            assert((aa * ((b[j] + c[j]) % p)) % p == (aa * b[j] + aa * c[j]) % p) by {
                lemma_mul_mod_noop_right(aa, b[j] + c[j], p);
                assert(aa * (b[j] + c[j]) == aa * b[j] + aa * c[j]) by (nonlinear_arith);
            }
            assert(((xx + yy) % p + (aa * ((b[j] + c[j]) % p)) % p) % p == (xx + yy + aa * b[j] + aa
                * c[j]) % p) by {
                lemma_add_mod_noop(xx + yy, aa * b[j] + aa * c[j], p);
            }
            assert(((xx + (aa * b[j]) % p) % p + (yy + (aa * c[j]) % p) % p) % p == (xx + aa * b[j]
                + yy + aa * c[j]) % p) by {
                lemma_add_mod_noop_right(xx, aa * b[j], p);
                lemma_add_mod_noop_right(yy, aa * c[j], p);
                lemma_add_mod_noop(xx + aa * b[j], yy + aa * c[j], p);
            }
        } else {
            lemma_mod_twice(xx + yy, p);
        }
    }
}

proof fn lemma_fold_linear(s: Seq<int>, t: Seq<int>, red: Seq<int>, l: int, p: int)
    requires
        p >= 2,
        s.len() == t.len(),
        all_reduced(s, p),
        all_reduced(t, p),
        0 <= l < s.len(),
    ensures
        fold_step(seq_madd(s, t, p), red, l, p) == seq_madd(
            fold_step(s, red, l, p),
            fold_step(t, red, l, p),
            p,
        ),
{
    let n = red.len() as int;
    let m = seq_madd(s, t, p);
    let lhs = fold_step(m, red, l, p);
    let rhs = seq_madd(fold_step(s, red, l, p), fold_step(t, red, l, p), p);
    assert forall|j: int| 0 <= j < lhs.len() implies lhs[j] == #[trigger] rhs[j] by {
        if j == l {
            lemma_small_mod(0, p as nat);
        } else if l - n <= j < l {
            let rr = red[j - (l - n)];
            assert((m[l] * rr) % p == (s[l] * rr + t[l] * rr) % p) by {
                lemma_mul_mod_noop_left(s[l] + t[l], rr, p);
                assert((s[l] + t[l]) * rr == s[l] * rr + t[l] * rr) by (nonlinear_arith);
            }
            assert(lhs[j] == (s[j] + t[j] + s[l] * rr + t[l] * rr) % p) by {
                lemma_add_mod_noop(s[j] + t[j], s[l] * rr + t[l] * rr, p);
            }
            assert(rhs[j] == (s[j] + s[l] * rr + t[j] + t[l] * rr) % p) by {
                lemma_add_mod_noop_right(s[j], s[l] * rr, p);
                lemma_add_mod_noop_right(t[j], t[l] * rr, p);
                lemma_add_mod_noop(s[j] + s[l] * rr, t[j] + t[l] * rr, p);
            }
        }
    }
    assert(lhs =~= rhs);
}

proof fn lemma_reduce_linear(s: Seq<int>, t: Seq<int>, red: Seq<int>, l: int, p: int)
    requires
        p >= 2,
        s.len() == t.len(),
        all_reduced(s, p),
        all_reduced(t, p),
        l < s.len(),
    ensures
        reduce_from(seq_madd(s, t, p), red, l, p) == seq_madd(
            reduce_from(s, red, l, p),
            reduce_from(t, red, l, p),
            p,
        ),
    decreases (if l >= 0 {
        l + 1
    } else {
        0
    }),
{
    if l < red.len() as int || red.len() == 0 || l < 0 {
    } else {
        lemma_fold_linear(s, t, red, l, p);
        lemma_fold_wf(s, red, l, p);
        lemma_fold_wf(t, red, l, p);
        lemma_reduce_linear(fold_step(s, red, l, p), fold_step(t, red, l, p), red, l - 1, p);
    }
}

/// Multiplication distributes over addition in the extension field.
pub proof fn lemma_ff_distrib<const P: u32, const N: usize>(
    a: (Seq<int>, Seq<int>),
    b: (Seq<int>, Seq<int>),
    c: (Seq<int>, Seq<int>),
)
    requires
        FiniteField::<P, N>::v_wf(a),
        FiniteField::<P, N>::v_wf(b),
        FiniteField::<P, N>::v_wf(c),
    ensures
        FiniteField::<P, N>::v_mul(a, FiniteField::<P, N>::v_add(b, c)) == FiniteField::<P,
            N,
        >::v_add(FiniteField::<P, N>::v_mul(a, b), FiniteField::<P, N>::v_mul(a, c)),
{
    let p = P as int;
    let m = FiniteField::<P, N>::v_add(b, c).0;
    assert(m =~= seq_madd(b.0, c.0, p));
    let pab = poly_prod(a.0, b.0, p);
    let pac = poly_prod(a.0, c.0, p);
    let pam = poly_prod(a.0, m, p);
    assert forall|k: int| 0 <= k < pam.len() implies #[trigger] pam[k] == seq_madd(
        pab,
        pac,
        p,
    )[k] by {
        lemma_conv_linear(a.0, b.0, c.0, k, k + 1, p);
    }
    assert(pam =~= seq_madd(pab, pac, p));
    assert forall|k: int| 0 <= k < pab.len() implies 0 <= #[trigger] pab[k] < p by {
        lemma_conv_reduced(a.0, b.0, k, k + 1, p);
    }
    assert forall|k: int| 0 <= k < pac.len() implies 0 <= #[trigger] pac[k] < p by {
        lemma_conv_reduced(a.0, c.0, k, k + 1, p);
    }
    lemma_reduce_linear(pab, pac, a.1, 2 * (N as int) - 2, p);
    let rab = reduce_from(pab, a.1, 2 * (N as int) - 2, p);
    let rac = reduce_from(pac, a.1, 2 * (N as int) - 2, p);
    lemma_reduce_wf(pab, a.1, 2 * (N as int) - 2, p);
    lemma_reduce_wf(pac, a.1, 2 * (N as int) - 2, p);
    assert(seq_madd(rab, rac, p).take(N as int) =~= FiniteField::<P, N>::v_add(
        FiniteField::<P, N>::v_mul(a, b),
        FiniteField::<P, N>::v_mul(a, c),
    ).0);
}

/// Base-`p` value of a coefficient sequence, low digit first.
spec fn coords_val(s: Seq<int>, p: int) -> int
    decreases s.len(),
{
    if s.len() == 0 {
        0
    } else {
        s[0] + p * coords_val(s.subrange(1, s.len() as int), p)
    }
}

proof fn lemma_coords_val_zero(s: Seq<int>, p: int)
    requires
        all_zero(s),
    ensures
        coords_val(s, p) == 0,
    decreases s.len(),
{
    if s.len() > 0 {
        let t = s.subrange(1, s.len() as int);
        assert(all_zero(t));
        lemma_coords_val_zero(t, p);
        assert(p * 0 == 0) by (nonlinear_arith);
    }
}

proof fn lemma_coords_val_bound(s: Seq<int>, p: int)
    requires
        p >= 2,
        all_reduced(s, p),
    ensures
        0 <= coords_val(s, p) < pow(p, s.len()),
    decreases s.len(),
{
    if s.len() == 0 {
        lemma_pow0(p);
    } else {
        let t = s.subrange(1, s.len() as int);
        assert(all_reduced(t, p));
        lemma_coords_val_bound(t, p);
        lemma_pow1(p);
        lemma_pow_adds(p, 1, (s.len() - 1) as nat);
        let vt = coords_val(t, p);
        let pw = pow(p, (s.len() - 1) as nat);
        assert(s[0] + p * vt < p * pw) by (nonlinear_arith)
            requires
                0 <= s[0] < p && 0 <= vt && vt <= pw - 1 && p >= 2,
        ;
        assert(0 <= s[0] + p * vt) by (nonlinear_arith)
            requires
                0 <= s[0] && 0 <= vt && p >= 2,
        ;
    }
}

proof fn lemma_coords_val_inj(s: Seq<int>, t: Seq<int>, p: int)
    requires
        p >= 2,
        all_reduced(s, p),
        all_reduced(t, p),
        s.len() == t.len(),
        coords_val(s, p) == coords_val(t, p),
    ensures
        s == t,
    decreases s.len(),
{
    if s.len() == 0 {
        assert(s =~= t);
    } else {
        let s1 = s.subrange(1, s.len() as int);
        let t1 = t.subrange(1, t.len() as int);
        assert(all_reduced(s1, p));
        assert(all_reduced(t1, p));
        lemma_coords_val_bound(s1, p);
        lemma_coords_val_bound(t1, p);
        let v = coords_val(s, p);
        assert(v == coords_val(s1, p) * p + s[0]) by (nonlinear_arith)
            requires
                v == s[0] + p * coords_val(s1, p),
        ;
        assert(v == coords_val(t1, p) * p + t[0]) by (nonlinear_arith)
            requires
                v == t[0] + p * coords_val(t1, p),
        ;
        lemma_fundamental_div_mod_converse(v, p, coords_val(s1, p), s[0]);
        lemma_fundamental_div_mod_converse(v, p, coords_val(t1, p), t[0]);
        lemma_coords_val_inj(s1, t1, p);
        assert forall|k: int| 0 <= k < s.len() implies s[k] == t[k] by {
            if k >= 1 {
                assert(s[k] == s1[k - 1]);
                assert(t[k] == t1[k - 1]);
            }
        }
        assert(s =~= t);
    }
}

proof fn lemma_coords_val_max(s: Seq<int>, p: int)
    requires
        p >= 2,
        forall|j: int| 0 <= j < s.len() ==> #[trigger] s[j] == p - 1,
    ensures
        coords_val(s, p) == pow(p, s.len()) - 1,
    decreases s.len(),
{
    if s.len() == 0 {
        lemma_pow0(p);
    } else {
        let t = s.subrange(1, s.len() as int);
        lemma_coords_val_max(t, p);
        lemma_pow1(p);
        lemma_pow_adds(p, 1, (s.len() - 1) as nat);
        let pw = pow(p, (s.len() - 1) as nat);
        assert((p - 1) + p * (pw - 1) == p * pw - 1) by (nonlinear_arith);
    }
}

proof fn lemma_odometer_step(s: Seq<int>, t: Seq<int>, p: int, i: int)
    requires
        p >= 2,
        s.len() == t.len(),
        0 <= i < s.len(),
        forall|j: int| 0 <= j < i ==> #[trigger] s[j] == p - 1,
        forall|j: int| 0 <= j < i ==> #[trigger] t[j] == 0,
        t[i] == s[i] + 1,
        forall|j: int| i < j < s.len() ==> #[trigger] s[j] == t[j],
    ensures
        coords_val(t, p) == coords_val(s, p) + 1,
    decreases i,
{
    let s1 = s.subrange(1, s.len() as int);
    let t1 = t.subrange(1, t.len() as int);
    if i == 0 {
        assert(s1 =~= t1);
    } else {
        assert forall|j: int| 0 <= j < i - 1 implies #[trigger] s1[j] == p - 1 by {
            assert(s1[j] == s[j + 1]);
        }
        assert forall|j: int| 0 <= j < i - 1 implies #[trigger] t1[j] == 0 by {
            assert(t1[j] == t[j + 1]);
        }
        assert(t1[i - 1] == s1[i - 1] + 1);
        assert forall|j: int| i - 1 < j < s1.len() implies #[trigger] s1[j] == t1[j] by {
            assert(s1[j] == s[j + 1] && t1[j] == t[j + 1]);
        }
        lemma_odometer_step(s1, t1, p, i - 1);
        assert(p * (coords_val(s1, p) + 1) == p * coords_val(s1, p) + p) by (nonlinear_arith);
    }
}

/// Power with a non-negative big-integer exponent, by the recursive halving
/// of the exponent.
fn ff_pow_rec<const P: u32, const N: usize>(x: &FiniteField<P, N>, e: &BigInt) -> (r: FiniteField<
    P,
    N,
>)
    requires
        FiniteField::<P, N>::v_wf(x@),
        e.wf(),
        e@ >= 0,
    ensures
        r@ == ff_pow::<P, N>(x@, e@ as nat),
        FiniteField::<P, N>::v_wf(r@),
        FiniteField::<P, N>::v_desc(r@) == FiniteField::<P, N>::v_desc(x@),
    decreases e@,
{
    proof {
        lemma_ff_pow_wf::<P, N>(x@, e@ as nat);
    }
    if e.is_zero() {
        x.one()
    } else if e.is_one() {
        x.dup()
    } else {
        let two = BigInt::from_u64(2);
        let h = e.duplicate().div(&two);
        let odd = e.is_odd();
        proof {
            lemma_fundamental_div_mod(e@, 2);
        }
        let a1 = ff_pow_rec(x, &h);
        if odd {
            let h1 = h.duplicate().add(BigInt::one());
            let a2 = ff_pow_rec(x, &h1);
            a1.mul(&a2)
        } else {
            a1.mul(&a1)
        }
    }
}

} // verus!
