//! Errors of the text format.

use vstd::prelude::*;

verus! {

/// Errors of serializing and deserializing.
#[derive(Clone, Debug, PartialEq, Eq)]
pub enum Error {
    /// A token that does not read as the expected value, with a description.
    Message(String),
    /// Reading a value without knowing its type is not supported.
    AnyNotSupported,
    /// The input ended where a value was expected.
    EndOfInput,
    /// A line held no token.
    EmptyLine,
    /// A byte sequence had an odd number of hex digits.
    InvalidHexLength,
    /// A unit value '-' was expected.
    ExpectedUnit,
}

impl Error {
    /// The description of the error.
    pub fn describe(&self) -> String {
        match self {
            Error::Message(message) => message.clone(),
            Error::AnyNotSupported => String::from_str("deserialization any type is not supported"),
            Error::EndOfInput => String::from_str("encountered an unexpected end of input"),
            Error::EmptyLine => String::from_str("encountered an unexpected empty line"),
            Error::InvalidHexLength => String::from_str("invalid hex length (must be multiple of 2)"),
            Error::ExpectedUnit => String::from_str("expected a unit value '-'"),
        }
    }
}

/// Result of serializing and deserializing.
pub type Result<T> = std::result::Result<T, Error>;

/// Relies on `str::chars`: the characters of the string, in order.
#[verifier::external_body]
pub(crate) fn chars_of(s: &str) -> (r: Vec<char>)
    ensures
        r@ == s@,
{
    s.chars().collect()
}

/// Relies on `String`'s `FromIterator<char>`: the string of the characters, in order.
#[verifier::external_body]
pub(crate) fn string_of(chars: &[char]) -> (r: String)
    ensures
        r@ == chars@,
{
    chars.iter().collect()
}

} // verus!
