//! Arbitrary-precision decimal integers with exact arithmetic.
//!
//! `BigInt` holds a sign and canonical decimal digits.  It is parsed from and
//! rendered to decimal text, compared, negated, added, subtracted, multiplied
//! and divided with rounding toward zero.  Every operation states its result
//! as the mathematical integer that the value holds.
pub mod bigint;
pub mod digits;
pub mod integer;
pub mod laws;
pub mod magnitude;
pub mod text;

pub use bigint::{BigInt, BigIntError};
