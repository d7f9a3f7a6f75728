//! The crate's only error type.

use vstd::prelude::*;

verus! {

/// The std error returned when a byte vector is not valid UTF-8.
#[verifier::external_type_specification]
#[verifier::external_body]
pub struct ExFromUtf8Error(std::string::FromUtf8Error);

/// `FromUtf8Error::clone`, used by the derived `Clone` of `KeyError`;
/// nothing is claimed of the copy.
pub assume_specification[ <std::string::FromUtf8Error as Clone>::clone ](
    e: &std::string::FromUtf8Error,
) -> std::string::FromUtf8Error;

/// Everything that can go wrong while decoding a structured key.
#[derive(Debug, Clone, PartialEq, Eq)]
#[allow(inconsistent_fields)]
pub enum KeyError {
    /// The unescaped bytes of a segment are not valid UTF-8.
    FromUtf8Error(std::string::FromUtf8Error),
    /// The `i`-th segment was expected to be `expect`, but is `got`.
    InvalidSegment { i: usize, expect: String, got: String },
    /// The `i`-th segment is empty.
    EmptySegment { i: usize },
    /// `expect` segments were expected in the key `got`.
    WrongNumberOfSegments { expect: usize, got: String },
    /// At least `expect` segments were expected, `actual` were found.
    AtleastSegments { expect: usize, actual: usize },
    /// `s` is not a decimal id; `reason` says why.
    InvalidId { s: String, reason: String },
    /// The key starts with an unknown prefix.
    UnknownPrefix { prefix: String },
    /// A `%` at byte `pos` of `input` does not start a valid escape.
    InvalidEscape { pos: usize, input: String },
    /// The type named `name` can be encoded but never decoded.
    NotDecodable { name: &'static str },
}

/// The name the rest of the crate and its users know the error by.
pub type Error = KeyError;

} // verus!
