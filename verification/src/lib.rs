//! Verified algorithm templates.
//!
//! The core is a randomized-number toolkit: a seedable 64-bit pseudorandom
//! generator, an unbiased integer sampler built on it, and primality testing
//! and factorization that consume both. Beside it stand disjoint sets,
//! exact string matching, and linear equations over the field with two
//! elements.
pub mod datastructure;
pub mod element;
pub mod math;
pub mod random;
pub mod string;
