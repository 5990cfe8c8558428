//! Error values of the conversions and of the operator surface.
use vstd::prelude::*;

verus! {

/// Reading a value from a byte slice failed.
#[derive(Clone, Copy, Debug, PartialEq, Eq)]
pub enum FromSliceError {
    /// The slice is longer than the value's byte size.
    InvalidLength(usize),
}

/// Writing a value into a byte slice failed.
#[derive(Clone, Copy, Debug, PartialEq, Eq)]
pub enum IntoSliceError {
    /// The slice length differs from the value's byte size.
    InvalidLength(usize),
}

/// Parsing a value from a radix string failed.
#[derive(Clone, Copy, Debug, PartialEq, Eq)]
pub enum FromStrError {
    /// The byte at `idx` is not a digit of the radix, or is a leading zero.
    InvalidCharacter { chr: u8, idx: usize },
    /// The string is empty or has more digits than the width allows.
    InvalidLength(usize),
    /// The digits denote a number beyond the width; carries the string length.
    Overflow(usize),
}

/// Why a plain operator has no result.
#[derive(Clone, Copy, Debug, PartialEq, Eq)]
pub enum OpError {
    /// The exact result does not fit in the width.
    Overflow,
    /// The divisor is zero.
    DivisionByZero,
}

} // verus!
