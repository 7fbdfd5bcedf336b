//! Modular arithmetic, primality testing, integer factorization, and linear
//! equations over the field with two elements.
pub mod basic;
pub mod fermat;
pub mod linearequation;
pub mod primality;
pub mod prime;
pub mod span;
pub mod word;
