//! Bilinear pairings on elliptic curves over finite fields.
//!
//! The crate is organised in layers: an arbitrary-precision signed integer
//! (`bigint`), modular arithmetic lemmas (`arith`), a prime field and a
//! polynomial extension field (`field`, `prime_field`, `finite_field`), the
//! affine group law on a long-Weierstrass curve (`elliptic_curve`), and
//! Miller's algorithm with the Weil, reduced Tate and Ate pairings built on
//! top of it (`pairings`).

pub mod arith;
pub mod bigint;
pub mod elliptic_curve;
pub mod errors;
pub mod field;
pub mod finite_field;
pub mod pairings;
pub mod prime_field;
pub mod rng;
