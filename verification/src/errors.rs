use vstd::prelude::*;

verus! {

/// Failure taxonomy of the library.
///
/// `InvalidInput` reports a violated operation precondition (for example a
/// point at infinity where an affine point is required), `NoInverse` a
/// division by zero or an inversion of the field zero, and
/// `NonQuadraticResidue` a square root of an element that has none.
#[derive(Clone, Copy, Debug, PartialEq, Eq)]
pub enum ErrorKind {
    InvalidInput(&'static str),
    NonQuadraticResidue,
    NoInverse,
}

} // verus!
