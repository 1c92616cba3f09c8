//! Overflow-safe 256-bit unsigned integer and fixed-point decimal arithmetic.
//!
//! `BigInteger` is a 256-bit unsigned magnitude with checked and saturating
//! arithmetic, base-10 parsing and formatting, and 32-byte codecs.
//! `BigDecimal` is a fixed-point value stored as a `BigInteger` numerator over
//! the fixed denominator 10^18.

pub mod bigdecimal;
pub mod biginteger;
pub mod denom;
pub mod errors;
pub mod text;
