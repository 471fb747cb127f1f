//! Ruffini: algebraic structures over arbitrary-precision integers.
//!
//! Traits for the algebraic hierarchy (`Domain` up to `EuclideanDomain` and `Field`),
//! with the integers, quotient rings, polynomial rings, matrices, multivariate
//! polynomials and elliptic curves as instances.

pub mod constructive_laws;
pub mod constructive_reals;
pub mod elimination;
pub mod elliptic;
pub mod elliptic_laws;
pub mod euclidean;
pub mod evaluation;
pub mod fft;
pub mod fixed_point;
pub mod fourier;
pub mod integers;
pub mod interpolation;
pub mod laws;
pub mod matrices;
pub mod matrix_laws;
pub mod multivariate;
pub mod multivariate_laws;
pub mod polynomial_laws;
pub mod polynomials;
pub mod pow;
pub mod quotient;
pub mod structures;
pub mod sums;
pub mod text;

use vstd::prelude::*;

verus! {

} // verus!
