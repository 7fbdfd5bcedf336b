//! Pseudorandom generation and unbiased integer sampling.
pub mod generator;
pub mod integer;
pub mod mersenne;
pub mod model;
pub mod partition;
