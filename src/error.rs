use vstd::prelude::*;

verus! {

/// The ways in which an operation of the store can fail.
#[derive(Clone, Debug, PartialEq, Eq)]
pub enum Error {
    /// Bytes at a screen-name boundary are not valid UTF-8.
    InvalidString(Vec<u8>),
    /// A key is too short to hold an account id.
    InvalidKey(Vec<u8>),
    /// A value's length is not a multiple of its element width.
    InvalidValue(Vec<u8>),
    /// A date's offset from the epoch does not fit in a day id.
    InvalidDay(i64),
    /// A screen name holds a character other than an ASCII letter, digit or `_`.
    InvalidScreenName(String),
}

} // verus!
