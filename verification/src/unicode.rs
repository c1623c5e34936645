//! Characters as the standard library classifies them, and conversions between
//! strings and vectors of characters.

use vstd::prelude::*;
use vstd::std_specs::iter::IteratorSpec;
use vstd::string::{axiom_spec_iter, next_postcondition};

verus! {

/// The lower-case form of a text: what `str::to_lowercase` returns for it.
pub uninterp spec fn lowercase_of(text: Seq<char>) -> Seq<char>;

/// Whether a character is whitespace: what `char::is_whitespace` returns for
/// it.
pub uninterp spec fn is_whitespace_char(c: char) -> bool;

/// Whether a character is a letter: what `char::is_alphabetic` returns for it.
pub uninterp spec fn is_alphabetic_char(c: char) -> bool;

/// Calls `str::to_lowercase`. Taken on trust: the string that comes back
/// depends on the text alone, so that it can go by the name `lowercase_of`.
#[verifier::external_body]
pub(crate) fn to_lowercase(text: &str) -> (lower: String)
    ensures
        lower@ == lowercase_of(text@),
{
    text.to_lowercase()
}

/// Calls `char::is_whitespace`. Taken on trust: the answer depends on the
/// character alone, so that it can go by the name `is_whitespace_char`.
#[verifier::external_body]
pub(crate) fn is_whitespace(c: char) -> (answer: bool)
    ensures
        answer == is_whitespace_char(c),
{
    c.is_whitespace()
}

/// Calls `char::is_alphabetic`. Taken on trust: the answer depends on the
/// character alone, so that it can go by the name `is_alphabetic_char`.
#[verifier::external_body]
pub(crate) fn is_alphabetic(c: char) -> (answer: bool)
    ensures
        answer == is_alphabetic_char(c),
{
    c.is_alphabetic()
}

/// Calls `String::from_iter` on the characters of a vector. Taken on trust:
/// the string holds the same characters in the same order.
#[verifier::external_body]
pub(crate) fn string_of(chars: Vec<char>) -> (text: String)
    ensures
        text@ == chars@,
{
    String::from_iter(chars)
}

/// The characters of a text, in order.
pub fn chars_of(text: &str) -> (chars: Vec<char>)
    ensures
        chars@ == text@,
{
    let mut chars: Vec<char> = Vec::new();
    let mut rest = text.chars();
    proof {
        axiom_spec_iter(text);
    }
    loop
        invariant_except_break
            chars@ + rest.remaining() == text@,
        ensures
            chars@ == text@,
        decreases text@.len() - chars@.len(),
    {
        let ghost before = rest;
        let next = rest.next();
        proof {
            next_postcondition(&before, &rest, next);
        }
        match next {
            Some(c) => {
                chars.push(c);
            },
            None => {
                break ;
            },
        }
    }
    chars
}

} // verus!
