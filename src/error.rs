use vstd::prelude::*;

verus! {

/// Every way an operation of this library can fail.
#[derive(Debug, Clone, Copy, PartialEq, Eq, Structural)]
pub enum UlidError {
    /// The timestamp handed in was not a number.
    NotANumber,
    /// The timestamp handed in was below zero.
    NegativeTime,
    /// The timestamp handed in had a fractional part.
    NonIntegerTime,
    /// The timestamp does not fit in 48 bits.
    TimeTooLarge,
    /// An identifier to decode was not 26 characters long.
    MalformedInput,
    /// A character outside the base32 alphabet was met.
    InvalidCharacter(char),
    /// Every digit was already the largest symbol, so no increment is possible.
    Overflow,
}

} // verus!
