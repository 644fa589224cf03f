//! Polynomial evaluation domains over an FFT-friendly prime field.
//!
//! An evaluation domain is a multiplicative subgroup of the field's unit
//! group (optionally shifted by a coset offset) used as the set of points at
//! which polynomials are evaluated and interpolated.  The crate provides the
//! shared domain algorithms (transforms between coefficient and evaluation
//! form, Lagrange-coefficient evaluation, vanishing-polynomial evaluation,
//! power redistribution, subgroup re-indexing and pointwise multiplication),
//! two concrete domain strategies (pure power-of-two sizes and sizes with one
//! extra small prime factor) and a dispatcher that picks between them, all
//! with proved contracts.  A small flag-packing utility used when domain
//! parameters are serialized rounds the crate out.

pub mod field;
pub mod domain;
pub mod flags;

pub use field::Fp;
pub use domain::DomainCore;
pub use domain::Radix2EvaluationDomain;
pub use domain::MixedRadixEvaluationDomain;
pub use domain::GeneralEvaluationDomain;
pub use domain::Elements;
pub use flags::Flags;
pub use flags::EmptyFlags;
