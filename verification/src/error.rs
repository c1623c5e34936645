//! The ways in which a text or a sequence of codes can be refused.

use vstd::prelude::*;

verus! {

/// Why a text could not be turned into codes, or codes into a text.
#[derive(Clone, Copy, Debug, PartialEq, Eq, Structural)]
pub enum CipherError {
    /// The key holds no character that could serve as a letter of the alphabet.
    EmptyAlphabet,
    /// A letter of the text has no place in the alphabet.
    UnmappedCharacter,
    /// A piece of the text to decode is not a whole number.
    MalformedCode,
    /// A place lies outside the alphabet.
    CodeOutOfRange,
}

} // verus!
