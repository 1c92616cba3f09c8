use vstd::prelude::*;

verus! {

/// Failure modes of the checked numeric operations.
///
/// Every error is produced at the point of detection and propagated to the
/// immediate caller; no operation returns a partial result beside an error.
#[derive(Clone, Copy, Debug, PartialEq, Eq, Structural)]
pub enum NumericError {
    /// The true result exceeds the maximum representable magnitude.
    Overflow,
    /// A checked subtraction whose subtrahend exceeds the minuend.
    Underflow,
    /// A division or ratio construction with a zero denominator.
    DivideByZero,
    /// A malformed digit string: a non-digit character, an empty required
    /// segment, or a magnitude beyond the integer range.
    ParseError,
    /// More than one decimal-point separator in a decimal string.
    UnexpectedFormat,
    /// A fractional segment longer than the fixed decimal-place count.
    TooManyFractionalDigits,
    /// A narrowing conversion into a width that cannot hold the magnitude.
    ConversionOverflow,
}

} // verus!
