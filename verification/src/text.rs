//! The cipher on texts: a text and a key in, the codes of its letters out as
//! text, and back.

use crate::alphabet::{alphabet_letters, alphabet_of, first_position, lemma_alphabet_of};
use crate::cipher::{
    codes_of, decode_codes, decoded, encode_letters, encoded, lemma_code_at,
    lemma_decoding_inverts_encoding, numbers,
};
use crate::codes::{join_codes, lemma_parsing_inverts_writing, parse_codes, parsed, written};
use crate::error::CipherError;
use crate::numeral::is_digit;
use crate::unicode::{
    chars_of, is_alphabetic, is_alphabetic_char, lowercase_of, string_of, to_lowercase,
};
use vstd::prelude::*;

verus! {

/// The key to use where none is chosen: the Latin letters in their usual
/// order.
pub const DEFAULT_KEY: &'static str = "abcdefghijklmnopqrstuvwxyz";

/// The separator to use where none is chosen.
pub const DEFAULT_SEPARATOR: &'static str = ".";

/// The start number to use where none is chosen: with it the letters of an
/// alphabet are numbered from 1.
pub const DEFAULT_START_NUMBER: isize = 1;

/// The test that keeps the characters of a text that get a code: the letters.
pub open spec fn is_letter() -> spec_fn(char) -> bool {
    |c: char| is_alphabetic_char(c)
}

/// The letters of a text: its lower-case form without what is no letter.
pub open spec fn letters_of(text: Seq<char>) -> Seq<char> {
    lowercase_of(text).filter(is_letter())
}

/// What encoding a text gives: the codes of its letters under the alphabet of
/// `key`, written with `separator` between them.
pub open spec fn cypher_of(input: Seq<char>, key: Seq<char>, separator: Seq<char>, start: int) -> Result<
    Seq<char>,
    CipherError,
> {
    match encoded(letters_of(input), alphabet_of(key), start) {
        Ok(codes) => Ok(written(codes, separator)),
        Err(error) => Err(error),
    }
}

/// What decoding a text of codes gives: the letters that the codes read from
/// it stand for under the alphabet of `key`. A malformed text is refused
/// before the key is looked at.
pub open spec fn plain_of(input: Seq<char>, key: Seq<char>, separator: Seq<char>, start: int) -> Result<
    Seq<char>,
    CipherError,
> {
    match parsed(input, separator) {
        Ok(codes) => decoded(numbers(codes), alphabet_of(key), start),
        Err(error) => Err(error),
    }
}

/// Decoding the codes of a text gives back its letters, whatever the start
/// number, for every key whose alphabet holds each of them.
pub proof fn lemma_round_trip(input: Seq<char>, key: Seq<char>, start: int)
    ensures
        encoded(letters_of(input), alphabet_of(key), start) matches Ok(codes) ==> decoded(
            codes,
            alphabet_of(key),
            start,
        ) == Ok::<Seq<char>, CipherError>(letters_of(input)),
{
    if encoded(letters_of(input), alphabet_of(key), start) is Ok {
        lemma_decoding_inverts_encoding(letters_of(input), alphabet_of(key), start);
    }
}

/// Decoding the text that encoding gave gives back the letters of the input,
/// where the input has a letter and the separator begins with a character
/// that is no digit: the codes are then read as they were written.
pub proof fn lemma_text_round_trip(
    input: Seq<char>,
    key: Seq<char>,
    separator: Seq<char>,
    start: int,
)
    requires
        letters_of(input).len() > 0,
        separator.len() > 0,
        !is_digit(separator[0]),
    ensures
        cypher_of(input, key, separator, start) matches Ok(text) ==> plain_of(
            text,
            key,
            separator,
            start,
        ) == Ok::<Seq<char>, CipherError>(letters_of(input)),
{
    let letters = letters_of(input);
    let alphabet = alphabet_of(key);
    if encoded(letters, alphabet, start) is Ok {
        let codes = codes_of(letters, alphabet, start);
        lemma_alphabet_of(key);
        let short = codes.map_values(|code: int| code as i32);
        assert forall|i: int| 0 <= i < codes.len() implies 1 <= #[trigger] codes[i]
            <= alphabet.len() by {
            lemma_code_at(first_position(alphabet, letters[i]), start, alphabet.len() as int);
        }
        assert(numbers(short) =~= codes);
        lemma_parsing_inverts_writing(short, separator);
        lemma_decoding_inverts_encoding(letters, alphabet, start);
    }
}

/// The case of the key does not matter: keys that agree once written in lower
/// case encode and decode alike.
pub proof fn lemma_key_case_is_ignored(
    key: Seq<char>,
    other: Seq<char>,
    input: Seq<char>,
    separator: Seq<char>,
    start: int,
)
    requires
        lowercase_of(key) == lowercase_of(other),
    ensures
        alphabet_of(key) == alphabet_of(other),
        cypher_of(input, key, separator, start) == cypher_of(input, other, separator, start),
        plain_of(input, key, separator, start) == plain_of(input, other, separator, start),
{
}

/// The separator only joins: with another one the same input is refused for
/// the same reason, or gives the same codes written with that other one.
pub proof fn lemma_separator_only_joins(
    input: Seq<char>,
    key: Seq<char>,
    separator: Seq<char>,
    other: Seq<char>,
    start: int,
)
    ensures
        match encoded(letters_of(input), alphabet_of(key), start) {
            Ok(codes) => cypher_of(input, key, separator, start) == Ok::<Seq<char>, CipherError>(
                written(codes, separator),
            ) && cypher_of(input, key, other, start) == Ok::<Seq<char>, CipherError>(
                written(codes, other),
            ),
            Err(error) => cypher_of(input, key, separator, start) == Err::<
                Seq<char>,
                CipherError,
            >(error) && cypher_of(input, key, other, start) == Err::<Seq<char>, CipherError>(
                error,
            ),
        },
{
}

/// What is no letter does not count: texts with the same letters encode alike.
pub proof fn lemma_only_letters_count(
    input: Seq<char>,
    other: Seq<char>,
    key: Seq<char>,
    separator: Seq<char>,
    start: int,
)
    requires
        letters_of(input) == letters_of(other),
    ensures
        cypher_of(input, key, separator, start) == cypher_of(other, key, separator, start),
{
}

/// The letters of a text, in lower case and in order.
pub fn letters_in(input: &str) -> (letters: Vec<char>)
    ensures
        letters@ == letters_of(input@),
{
    let lower = to_lowercase(input);
    let chars = chars_of(lower.as_str());
    let mut letters: Vec<char> = Vec::new();
    let mut i: usize = 0;
    assert(chars@.take(0).filter(is_letter()) == Seq::<char>::empty()) by {
        reveal(Seq::filter);
    }
    while i < chars.len()
        invariant
            i <= chars.len(),
            letters@ == chars@.take(i as int).filter(is_letter()),
        decreases chars.len() - i,
    {
        let c = chars[i];
        proof {
            chars@.lemma_take_succ_push(i as int);
            chars@.take(i as int).lemma_filter_push(c, is_letter());
        }
        if is_alphabetic(c) {
            letters.push(c);
        }
        i += 1;
    }
    proof {
        chars@.lemma_take_len();
    }
    letters
}

/// Encodes a text: every letter becomes the code of its position in the
/// alphabet of `pangram`, moved on by `start_number` and wrapped into the
/// alphabet's size; the codes are written with `separator` between them. What
/// is no letter is left out. A key without a usable character is refused, and
/// so is a letter that the alphabet lacks.
pub fn to_cypher(input: &str, pangram: &str, separator: &str, start_number: isize) -> (outcome:
    Result<String, CipherError>)
    ensures
        match outcome {
            Ok(text) => cypher_of(input@, pangram@, separator@, start_number as int) == Ok::<
                Seq<char>,
                CipherError,
            >(text@),
            Err(error) => cypher_of(input@, pangram@, separator@, start_number as int) == Err::<
                Seq<char>,
                CipherError,
            >(error),
        },
{
    let alphabet = alphabet_letters(pangram);
    let letters = letters_in(input);
    match encode_letters(letters.as_slice(), alphabet.as_slice(), start_number) {
        Ok(codes) => Ok(join_codes(codes.as_slice(), separator)),
        Err(error) => Err(error),
    }
}

/// Decodes codes: each becomes the letter of the alphabet of `pangram` whose
/// code it is under `start_number`. A key without a usable character is
/// refused; nothing else is.
pub fn decrypt_cypher(input: Vec<i32>, pangram: &str, start_number: isize) -> (outcome: Result<
    String,
    CipherError,
>)
    ensures
        match outcome {
            Ok(text) => decoded(numbers(input@), alphabet_of(pangram@), start_number as int)
                == Ok::<Seq<char>, CipherError>(text@),
            Err(error) => decoded(numbers(input@), alphabet_of(pangram@), start_number as int)
                == Err::<Seq<char>, CipherError>(error),
        },
{
    let alphabet = alphabet_letters(pangram);
    match decode_codes(input.as_slice(), alphabet.as_slice(), start_number) {
        Ok(letters) => Ok(string_of(letters)),
        Err(error) => Err(error),
    }
}

/// Decodes a text of codes: reads the codes that `separator` parts in it, then
/// decodes them as `decrypt_cypher` does.
pub fn decrypt_text(input: &str, pangram: &str, separator: &str, start_number: isize) -> (outcome:
    Result<String, CipherError>)
    ensures
        match outcome {
            Ok(text) => plain_of(input@, pangram@, separator@, start_number as int) == Ok::<
                Seq<char>,
                CipherError,
            >(text@),
            Err(error) => plain_of(input@, pangram@, separator@, start_number as int) == Err::<
                Seq<char>,
                CipherError,
            >(error),
        },
{
    match parse_codes(input, separator) {
        Ok(codes) => decrypt_cypher(codes, pangram, start_number),
        Err(error) => Err(error),
    }
}

} // verus!
