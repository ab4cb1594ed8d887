use vstd::prelude::*;
use crate::bigint::BigInt;
use crate::errors::ErrorKind;
use crate::rng::Lcg;

verus! {

/// Generic finite field operations.
///
/// An implementation models its elements through the `View` it chooses: the
/// `v_*` specification functions describe every operation on those views, and
/// the executable methods promise to compute exactly those views.  `v_wf` is
/// the well-formedness of one element.  `v_desc` is the descriptor of the
/// field instance an element belongs to (for the prime field a constant, for
/// the extension field its reduction polynomial): two elements may mix
/// exactly when their descriptors are equal.
pub trait Field: Sized + View {
    /// The element is a well-formed member of its field.
    spec fn v_wf(a: Self::V) -> bool;

    /// Descriptor of the field instance of `a`.
    spec fn v_desc(a: Self::V) -> Self::V;

    /// Additive neutral of the field of `a`.
    spec fn v_zero(a: Self::V) -> Self::V;

    /// Multiplicative neutral of the field of `a`.
    spec fn v_one(a: Self::V) -> Self::V;

    /// Sum.
    spec fn v_add(a: Self::V, b: Self::V) -> Self::V;

    /// Additive inverse.
    spec fn v_neg(a: Self::V) -> Self::V;

    /// Product.
    spec fn v_mul(a: Self::V, b: Self::V) -> Self::V;

    /// Product with an integer (repeated addition with sign).
    spec fn v_zmul(a: Self::V, k: int) -> Self::V;

    /// Power with a non-negative exponent.
    spec fn v_pow(a: Self::V, e: nat) -> Self::V;

    /// Power with an integer exponent; negative exponents go through the
    /// multiplicative inverse.
    spec fn v_zpow(a: Self::V, k: int) -> Self::V;

    /// Multiplicative inverse (meaningful when `v_invertible(a)`).
    spec fn v_inv(a: Self::V) -> Self::V;

    /// The element has a multiplicative inverse.
    spec fn v_invertible(a: Self::V) -> bool;

    /// Euler's criterion: `a^((order-1)/2)` is one.
    spec fn v_is_square(a: Self::V) -> bool;

    /// Number of elements of the field of `a`.
    spec fn v_order(a: Self::V) -> nat;

    /// Number of elements of the base prime field.
    spec fn v_base_order() -> nat;

    /// Degree of the field over its base prime field.
    spec fn v_degree() -> nat;

    /// Elements of one field instance share their neutrals and order.
    proof fn axiom_desc(a: Self::V, b: Self::V)
        requires
            Self::v_desc(a) == Self::v_desc(b),
        ensures
            Self::v_zero(a) == Self::v_zero(b),
            Self::v_one(a) == Self::v_one(b),
            Self::v_order(a) == Self::v_order(b),
    ;

    /// The operations keep elements well formed, inside their field.
    proof fn axiom_ops_wf(a: Self::V, b: Self::V)
        requires
            Self::v_wf(a),
            Self::v_wf(b),
            Self::v_desc(a) == Self::v_desc(b),
        ensures
            Self::v_wf(Self::v_add(a, b)) && Self::v_desc(Self::v_add(a, b)) == Self::v_desc(a),
            Self::v_wf(Self::v_mul(a, b)) && Self::v_desc(Self::v_mul(a, b)) == Self::v_desc(a),
            Self::v_wf(Self::v_neg(a)) && Self::v_desc(Self::v_neg(a)) == Self::v_desc(a),
            Self::v_wf(Self::v_inv(a)) && Self::v_desc(Self::v_inv(a)) == Self::v_desc(a),
            Self::v_wf(Self::v_zero(a)) && Self::v_desc(Self::v_zero(a)) == Self::v_desc(a),
            Self::v_wf(Self::v_one(a)) && Self::v_desc(Self::v_one(a)) == Self::v_desc(a),
    ;

    /// So do the iterated operations.
    proof fn axiom_iter_ops_wf(a: Self::V, k: int, e: nat)
        requires
            Self::v_wf(a),
        ensures
            Self::v_wf(Self::v_zmul(a, k)) && Self::v_desc(Self::v_zmul(a, k)) == Self::v_desc(a),
            Self::v_wf(Self::v_pow(a, e)) && Self::v_desc(Self::v_pow(a, e)) == Self::v_desc(a),
            Self::v_wf(Self::v_zpow(a, k)) && Self::v_desc(Self::v_zpow(a, k)) == Self::v_desc(a),
    ;

    /// Neutral element for addition.
    fn zero(&self) -> (r: Self)
        requires
            Self::v_wf(self@),
        ensures
            r@ == Self::v_zero(self@),
            Self::v_wf(r@),
            Self::v_desc(r@) == Self::v_desc(self@),
    ;

    /// Neutral element for multiplication.
    fn one(&self) -> (r: Self)
        requires
            Self::v_wf(self@),
        ensures
            r@ == Self::v_one(self@),
            Self::v_wf(r@),
            Self::v_desc(r@) == Self::v_desc(self@),
    ;

    /// Check if the value is zero.
    fn is_zero(&self) -> (b: bool)
        requires
            Self::v_wf(self@),
        ensures
            b == (self@ == Self::v_zero(self@)),
    ;

    /// Value equality of two elements of one field.
    fn equals(&self, y: &Self) -> (b: bool)
        requires
            Self::v_wf(self@),
            Self::v_wf(y@),
            Self::v_desc(self@) == Self::v_desc(y@),
        ensures
            b == (self@ == y@),
    ;

    /// Copy of the element.
    fn dup(&self) -> (r: Self)
        requires
            Self::v_wf(self@),
        ensures
            r@ == self@,
    ;

    /// Addition.
    fn add(&self, y: &Self) -> (r: Self)
        requires
            Self::v_wf(self@),
            Self::v_wf(y@),
            Self::v_desc(self@) == Self::v_desc(y@),
        ensures
            r@ == Self::v_add(self@, y@),
            Self::v_wf(r@),
            Self::v_desc(r@) == Self::v_desc(self@),
    ;

    /// Additive inverse.
    fn neg(&self) -> (r: Self)
        requires
            Self::v_wf(self@),
        ensures
            r@ == Self::v_neg(self@),
            Self::v_wf(r@),
            Self::v_desc(r@) == Self::v_desc(self@),
    ;

    /// Multiplication.
    fn mul(&self, y: &Self) -> (r: Self)
        requires
            Self::v_wf(self@),
            Self::v_wf(y@),
            Self::v_desc(self@) == Self::v_desc(y@),
        ensures
            r@ == Self::v_mul(self@, y@),
            Self::v_wf(r@),
            Self::v_desc(r@) == Self::v_desc(self@),
    ;

    /// Multiplication by an integer.
    fn zmul(&self, y: i64) -> (r: Self)
        requires
            Self::v_wf(self@),
        ensures
            r@ == Self::v_zmul(self@, y as int),
            Self::v_wf(r@),
            Self::v_desc(r@) == Self::v_desc(self@),
    ;

    /// Power with a non-negative big-integer exponent.
    fn pow(&self, y: &BigInt) -> (r: Self)
        requires
            Self::v_wf(self@),
            y.wf(),
            y@ >= 0,
        ensures
            r@ == Self::v_pow(self@, y@ as nat),
            Self::v_wf(r@),
            Self::v_desc(r@) == Self::v_desc(self@),
    ;

    /// Power with a machine-integer exponent; a negative exponent asks for
    /// an invertible base, and a zero exponent gives one even on the zero
    /// element.
    fn zpow(&self, y: i64) -> (r: Self)
        requires
            Self::v_wf(self@),
            y < 0 ==> Self::v_invertible(self@),
        ensures
            r@ == Self::v_zpow(self@, y as int),
            Self::v_wf(r@),
            Self::v_desc(r@) == Self::v_desc(self@),
    ;

    /// Squaring.
    fn square(&self) -> (r: Self)
        requires
            Self::v_wf(self@),
        ensures
            r@ == Self::v_mul(self@, self@),
            Self::v_wf(r@),
            Self::v_desc(r@) == Self::v_desc(self@),
    ;

    /// Square root.  A root is returned exactly when one exists in the
    /// field of `self`: a returned root really squares to `self`, the zero
    /// of the field is its own root, and `NonQuadraticResidue` (the only
    /// error kind) comes exactly on the elements with no root.
    fn sqrt(&self, rng: &mut Lcg) -> (r: Result<Box<Self>, ErrorKind>)
        requires
            Self::v_wf(self@),
        ensures
            (r matches Ok(b) ==> Self::v_wf(b@) && Self::v_desc(b@) == Self::v_desc(self@)
                && Self::v_mul(b@, b@) == self@),
            (r matches Err(e) ==> e == ErrorKind::NonQuadraticResidue),
            self@ == Self::v_zero(self@) ==> (r matches Ok(b) && b@ == self@),
            (r is Ok) <==> (exists|y: Self::V|
                Self::v_wf(y) && Self::v_desc(y) == Self::v_desc(self@) && #[trigger] Self::v_mul(
                    y,
                    y,
                ) == self@),
    ;

    /// Euler's criterion.
    fn is_square(&self) -> (b: bool)
        requires
            Self::v_wf(self@),
        ensures
            b == Self::v_is_square(self@),
    ;

    /// Multiplicative inverse; fails with `NoInverse` exactly on the
    /// non-invertible elements.
    fn invert(&self) -> (r: Result<Box<Self>, ErrorKind>)
        requires
            Self::v_wf(self@),
        ensures
            (r matches Ok(b) ==> Self::v_invertible(self@) && b@ == Self::v_inv(self@)
                && Self::v_wf(b@) && Self::v_desc(b@) == Self::v_desc(self@)),
            (r matches Err(e) ==> !Self::v_invertible(self@) && e == ErrorKind::NoInverse),
    ;

    /// Division; fails with `NoInverse` exactly when the divisor has no
    /// inverse.
    fn div(&self, y: &Self) -> (r: Result<Box<Self>, ErrorKind>)
        requires
            Self::v_wf(self@),
            Self::v_wf(y@),
            Self::v_desc(self@) == Self::v_desc(y@),
        ensures
            (r matches Ok(b) ==> Self::v_invertible(y@) && b@ == Self::v_mul(
                self@,
                Self::v_inv(y@),
            ) && Self::v_wf(b@) && Self::v_desc(b@) == Self::v_desc(self@)),
            (r matches Err(e) ==> !Self::v_invertible(y@) && e == ErrorKind::NoInverse),
    ;

    /// Degree of the field over its base prime field.
    fn degree() -> (d: usize)
        ensures
            d as nat == Self::v_degree(),
    ;

    /// Field order (number of elements).
    fn order(&self) -> (r: BigInt)
        requires
            Self::v_wf(self@),
        ensures
            r.wf(),
            r@ == Self::v_order(self@) as int,
    ;

    /// Base field order.
    fn base_order() -> (r: BigInt)
        ensures
            r.wf(),
            r@ == Self::v_base_order() as int,
    ;

    /// Uniform-looking draw from the field of `self`, from the given
    /// generator.
    fn random_element(&self, rng: &mut Lcg) -> (r: Self)
        requires
            Self::v_wf(self@),
        ensures
            Self::v_wf(r@),
            Self::v_desc(r@) == Self::v_desc(self@),
    ;
}

/// A scalar drawn from the prime field or from its extension.
pub enum Scalar<const P: u32, const N: usize> {
    PFScalar(crate::prime_field::PrimeField<P>),
    FFScalar(crate::finite_field::FiniteField<P, N>),
}

} // verus!
