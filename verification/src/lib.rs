//! Numbers for linear algebra: floating-point values in which "not a number"
//! is an explicit state with a place in a total order.
//!
//! Floating-point numbers enter and leave this library as their bit patterns
//! (`to_bits` and `from_bits` of the standard library); all reasoning about
//! them is done on integers.
//!
//! - [`linear_algebra_number`] holds the number type, its conversions, its
//!   equality and its order.
//! - [`binary64`] and [`binary32`] read the two formats from their patterns.
//! - [`dyadic`] holds the arithmetic of rounding that both formats share.
pub mod binary32;
pub mod binary64;
pub mod dyadic;
pub mod linear_algebra_number;
