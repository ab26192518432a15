//! Additive number-theoretic transforms over binary fields.
//!
//! A transform takes the coefficients of polynomials in the novel basis of Lin, Chung and Han
//! (<https://arxiv.org/abs/1404.3458>) to their values on a coset of a linear subspace, and back.

pub mod additive_ntt;
pub mod binary_field;
pub mod bits;
pub mod blocks;
pub mod error;
pub mod extension;
pub mod field;
pub mod laws;
pub mod meaning;
pub mod novel;
pub mod on_the_fly;
pub mod packed;
pub mod params;
pub mod precomputed;
pub mod stages;
pub mod subspace;
pub mod tower;
pub mod transform;

pub use crate::additive_ntt::AdditiveNTT;
pub use crate::error::Error;
pub use crate::on_the_fly::AdditiveNTTWithOTFCompute;
pub use crate::precomputed::AdditiveNTTWithPrecompute;
