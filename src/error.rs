//! The ways a conversion can fail.
use vstd::prelude::*;

verus! {

/// Why an identifier or a token was rejected.
#[derive(Debug, Clone, Copy, PartialEq, Eq, Structural)]
pub enum Error {
    /// The numeric identifier is below the smallest valid one.
    AvTooSmall(u64),
    /// The numeric identifier is at or above the bound of valid ones.
    AvTooBig(u64),
    /// The token is empty.
    BvEmpty,
    /// The token is too short, or denotes too small a number.
    BvTooSmall,
    /// The token is too long, or denotes too large a number.
    BvTooBig,
    /// The token does not begin with the marker `BV1` (in any letter case).
    BvInvalidPrefix,
    /// A payload character is not a symbol of the alphabet.
    BvInvalidChar(char),
    /// The token holds a character outside ASCII.
    BvWithUnicode,
}

} // verus!
