//! The cipher on sequences: letters to codes and codes to letters, over an
//! alphabet and a start number.

use crate::alphabet::{
    first_position, lemma_distinct_chars_are_bounded, lemma_first_position,
    lemma_first_position_is, lemma_first_position_without_repetitions, CHAR_BOUND,
};
use crate::error::CipherError;
use crate::wrap::{
    lemma_wrapped_fixes_range, lemma_wrapped_in_range, lemma_wrapped_is_congruent,
    lemma_wrapped_is_unique, lemma_wrapped_of_congruent, lemma_wrapped_terms, wrap_on_limit,
    wrapped,
};
use vstd::arithmetic::div_mod::{
    lemma_mod_bound, lemma_mod_self_0, lemma_mod_twice, lemma_small_mod, lemma_sub_mod_noop,
};
use vstd::prelude::*;

verus! {

/// The code of the letter at the zero-based `position` of an alphabet of
/// `size` letters, where the first letter gets the code that `start` wraps to.
pub open spec fn code_at(position: int, start: int, size: int) -> int {
    wrapped(position + start, size)
}

/// The place, counted from 1, of the letter that `code` stands for: the place
/// of the letter whose code it is.
pub open spec fn place_of(code: int, start: int, size: int) -> int {
    wrapped(code - start + 1, size)
}

/// Whether every one of `letters` is in `alphabet`.
pub open spec fn all_mapped(letters: Seq<char>, alphabet: Seq<char>) -> bool {
    forall|i: int| 0 <= i < letters.len() ==> alphabet.contains(#[trigger] letters[i])
}

/// The codes of `letters`, one for each, in order.
pub open spec fn codes_of(letters: Seq<char>, alphabet: Seq<char>, start: int) -> Seq<int> {
    Seq::new(
        letters.len(),
        |i: int| code_at(first_position(alphabet, letters[i]), start, alphabet.len() as int),
    )
}

/// The letters that `codes` stand for, one for each, in order.
pub open spec fn letters_for(codes: Seq<int>, alphabet: Seq<char>, start: int) -> Seq<char> {
    Seq::new(codes.len(), |i: int| alphabet[place_of(codes[i], start, alphabet.len() as int) - 1])
}

/// What encoding gives: the codes, unless the alphabet is empty or misses a
/// letter.
pub open spec fn encoded(letters: Seq<char>, alphabet: Seq<char>, start: int) -> Result<
    Seq<int>,
    CipherError,
> {
    if alphabet.len() == 0 {
        Err(CipherError::EmptyAlphabet)
    } else if !all_mapped(letters, alphabet) {
        Err(CipherError::UnmappedCharacter)
    } else {
        Ok(codes_of(letters, alphabet, start))
    }
}

/// What decoding gives: the letters, unless the alphabet is empty.
pub open spec fn decoded(codes: Seq<int>, alphabet: Seq<char>, start: int) -> Result<
    Seq<char>,
    CipherError,
> {
    if alphabet.len() == 0 {
        Err(CipherError::EmptyAlphabet)
    } else {
        Ok(letters_for(codes, alphabet, start))
    }
}

/// The codes of a vector as mathematical integers.
pub open spec fn numbers(codes: Seq<i32>) -> Seq<int> {
    codes.map_values(|code: i32| code as int)
}

/// A code lies in `1..=size`, and is the start number moved on by the
/// letter's position, up to a multiple of `size`.
pub proof fn lemma_code_at(position: int, start: int, size: int)
    requires
        size > 0,
    ensures
        1 <= code_at(position, start, size) <= size,
        (code_at(position, start, size) - (position + start)) % size == 0,
{
    lemma_wrapped_in_range(position + start, size);
    lemma_wrapped_is_congruent(position + start, size);
}

/// Codes count up from the start number for as long as they stay within
/// `1..=size`, and go on from 1 after `size`.
pub proof fn lemma_code_at_counts_up(position: int, start: int, size: int)
    requires
        size > 0,
    ensures
        1 <= position + start <= size ==> code_at(position, start, size) == position + start,
        size < position + start <= 2 * size ==> code_at(position, start, size) == position + start
            - size,
{
    if 1 <= position + start <= size {
        lemma_wrapped_fixes_range(position + start, size);
    }
    if size < position + start <= 2 * size {
        lemma_wrapped_fixes_range(position + start - size, size);
        assert(((position + start) - (position + start - size)) % size == 0) by {
            lemma_mod_self_0(size);
        }
        lemma_wrapped_of_congruent(position + start, position + start - size, size);
    }
}

/// A place lies in `1..=size`, and is one more than the remainder of
/// `code - start` on division by `size`.
pub proof fn lemma_place_of(code: int, start: int, size: int)
    requires
        size > 0,
    ensures
        1 <= place_of(code, start, size) <= size,
        place_of(code, start, size) - 1 == (code - start) % size,
{
    let r = (code - start) % size;
    lemma_mod_bound(code - start, size);
    assert((r + 1 - (code - start + 1)) % size == 0) by {
        lemma_sub_mod_noop(code - start, code - start, size);
        lemma_small_mod(0, size as nat);
        lemma_mod_twice(code - start, size);
        lemma_sub_mod_noop(r, code - start, size);
    }
    lemma_wrapped_is_unique(code - start + 1, size, r + 1);
}

/// The code of a letter leads back to the place of that letter.
pub proof fn lemma_place_of_code(position: int, start: int, size: int)
    requires
        0 <= position < size,
    ensures
        place_of(code_at(position, start, size), start, size) == position + 1,
{
    let code = code_at(position, start, size);
    lemma_code_at(position, start, size);
    assert(((position + 1) - (code - start + 1)) % size == 0) by {
        lemma_sub_mod_noop(0, code - (position + start), size);
        lemma_small_mod(0, size as nat);
        assert(0 - (code - (position + start)) == (position + 1) - (code - start + 1));
    }
    lemma_wrapped_is_unique(code - start + 1, size, position + 1);
}

/// The place of a code leads back to that code, wrapped into `1..=size`.
pub proof fn lemma_code_of_place(code: int, start: int, size: int)
    requires
        size > 0,
    ensures
        code_at(place_of(code, start, size) - 1, start, size) == wrapped(code, size),
{
    let place = place_of(code, start, size);
    lemma_wrapped_is_congruent(code - start + 1, size);
    assert((place - 1 + start) - code == place - (code - start + 1));
    lemma_wrapped_of_congruent(place - 1 + start, code, size);
}

/// Decoding gives back the letters that were encoded, whatever the start
/// number, for every alphabet that holds each of them.
pub proof fn lemma_decoding_inverts_encoding(letters: Seq<char>, alphabet: Seq<char>, start: int)
    requires
        all_mapped(letters, alphabet),
    ensures
        letters_for(codes_of(letters, alphabet, start), alphabet, start) == letters,
        encoded(letters, alphabet, start) matches Ok(codes) ==> decoded(codes, alphabet, start)
            == Ok::<Seq<char>, CipherError>(letters),
{
    let codes = codes_of(letters, alphabet, start);
    let back = letters_for(codes, alphabet, start);
    assert forall|i: int| 0 <= i < letters.len() implies back[i] == letters[i] by {
        assert(alphabet.contains(letters[i]));
        lemma_first_position(alphabet, letters[i]);
        lemma_place_of_code(first_position(alphabet, letters[i]), start, alphabet.len() as int);
    }
    assert(back =~= letters);
}

/// Encoding gives back the codes that were decoded, each wrapped into
/// `1..=n`, for every alphabet of `n > 0` letters without repetitions.
pub proof fn lemma_encoding_inverts_decoding(codes: Seq<int>, alphabet: Seq<char>, start: int)
    requires
        alphabet.no_duplicates(),
        alphabet.len() > 0,
    ensures
        all_mapped(letters_for(codes, alphabet, start), alphabet),
        codes_of(letters_for(codes, alphabet, start), alphabet, start) == codes.map_values(
            |code: int| wrapped(code, alphabet.len() as int),
        ),
{
    let size = alphabet.len() as int;
    let letters = letters_for(codes, alphabet, start);
    let again = codes_of(letters, alphabet, start);
    let wrapped_codes = codes.map_values(|code: int| wrapped(code, size));
    assert forall|i: int| 0 <= i < letters.len() implies alphabet.contains(
        #[trigger] letters[i],
    ) by {
        lemma_place_of(codes[i], start, size);
        assert(alphabet[place_of(codes[i], start, size) - 1] == letters[i]);
    }
    assert forall|i: int| 0 <= i < codes.len() implies again[i] == wrapped_codes[i] by {
        lemma_place_of(codes[i], start, size);
        let position = place_of(codes[i], start, size) - 1;
        lemma_first_position_without_repetitions(alphabet, position);
        lemma_code_of_place(codes[i], start, size);
    }
    assert(again =~= wrapped_codes);
}

/// The position at which `letter` stands in `alphabet`, if it is there.
pub fn position_of(alphabet: &[char], letter: char) -> (found: Option<usize>)
    ensures
        match found {
            Some(position) => position < alphabet@.len() && position == first_position(
                alphabet@,
                letter,
            ),
            None => first_position(alphabet@, letter) == alphabet@.len(),
        },
        found is Some <==> alphabet@.contains(letter),
{
    let mut i: usize = 0;
    while i < alphabet.len()
        invariant
            i <= alphabet@.len(),
            forall|j: int| 0 <= j < i ==> alphabet@[j] != letter,
        decreases alphabet@.len() - i,
    {
        if alphabet[i] == letter {
            proof {
                lemma_first_position_is(alphabet@, letter, i as int);
            }
            return Some(i);
        }
        i += 1;
    }
    proof {
        lemma_first_position(alphabet@, letter);
    }
    None
}

/// The letter at `place`, where places are counted from 1.
pub fn letter_at(alphabet: &[char], place: isize) -> (outcome: Result<char, CipherError>)
    ensures
        1 <= place <= alphabet@.len() ==> outcome == Ok::<char, CipherError>(alphabet@[place - 1]),
        !(1 <= place <= alphabet@.len()) ==> outcome == Err::<char, CipherError>(
            CipherError::CodeOutOfRange,
        ),
{
    if place < 1 {
        return Err(CipherError::CodeOutOfRange);
    }
    let index: usize = (place - 1) as usize;
    if index < alphabet.len() {
        Ok(alphabet[index])
    } else {
        Err(CipherError::CodeOutOfRange)
    }
}

/// Encodes `letters`: each becomes the code of its position in `alphabet`,
/// which holds no letter twice. An empty alphabet is refused, and so is a
/// letter that the alphabet lacks.
pub fn encode_letters(letters: &[char], alphabet: &[char], start_number: isize) -> (outcome: Result<
    Vec<i32>,
    CipherError,
>)
    requires
        alphabet@.no_duplicates(),
    ensures
        match outcome {
            Ok(codes) => encoded(letters@, alphabet@, start_number as int) == Ok::<
                Seq<int>,
                CipherError,
            >(numbers(codes@)),
            Err(error) => encoded(letters@, alphabet@, start_number as int) == Err::<
                Seq<int>,
                CipherError,
            >(error),
        },
{
    if alphabet.len() == 0 {
        return Err(CipherError::EmptyAlphabet);
    }
    proof {
        lemma_distinct_chars_are_bounded(alphabet@);
    }
    let limit: isize = alphabet.len() as isize;
    let shift: isize = wrap_on_limit(start_number, limit);
    let mut codes: Vec<i32> = Vec::new();
    let mut i: usize = 0;
    while i < letters.len()
        invariant
            i <= letters@.len(),
            limit == alphabet@.len(),
            0 < limit <= CHAR_BOUND,
            shift == wrapped(start_number as int, limit as int),
            1 <= shift <= limit,
            codes@.len() == i,
            forall|j: int| 0 <= j < i ==> alphabet@.contains(#[trigger] letters@[j]),
            forall|j: int|
                0 <= j < i ==> #[trigger] codes@[j] as int == code_at(
                    first_position(alphabet@, letters@[j]),
                    start_number as int,
                    limit as int,
                ),
        decreases letters@.len() - i,
    {
        match position_of(alphabet, letters[i]) {
            None => {
                return Err(CipherError::UnmappedCharacter);
            },
            Some(position) => {
                let code: isize = wrap_on_limit(position as isize + shift, limit);
                proof {
                    lemma_wrapped_terms(position as int, start_number as int, limit as int);
                }
                codes.push(code as i32);
            },
        }
        i += 1;
    }
    assert(numbers(codes@) =~= codes_of(letters@, alphabet@, start_number as int));
    Ok(codes)
}

/// Decodes `codes`: each becomes the letter of `alphabet` whose code it is;
/// the alphabet holds no letter twice. An empty alphabet is refused; every
/// code stands for a letter, as codes wrap around, so that no place is ever
/// outside the alphabet.
pub fn decode_codes(codes: &[i32], alphabet: &[char], start_number: isize) -> (outcome: Result<
    Vec<char>,
    CipherError,
>)
    requires
        alphabet@.no_duplicates(),
    ensures
        match outcome {
            Ok(letters) => decoded(numbers(codes@), alphabet@, start_number as int) == Ok::<
                Seq<char>,
                CipherError,
            >(letters@),
            Err(error) => decoded(numbers(codes@), alphabet@, start_number as int) == Err::<
                Seq<char>,
                CipherError,
            >(error),
        },
{
    if alphabet.len() == 0 {
        return Err(CipherError::EmptyAlphabet);
    }
    proof {
        lemma_distinct_chars_are_bounded(alphabet@);
    }
    let limit: isize = alphabet.len() as isize;
    let shift: isize = wrap_on_limit(start_number, limit);
    let mut letters: Vec<char> = Vec::new();
    let mut i: usize = 0;
    while i < codes.len()
        invariant
            i <= codes@.len(),
            limit == alphabet@.len(),
            0 < limit <= CHAR_BOUND,
            shift == wrapped(start_number as int, limit as int),
            1 <= shift <= limit,
            letters@.len() == i,
            forall|j: int|
                0 <= j < i ==> #[trigger] letters@[j] == alphabet@[place_of(
                    codes@[j] as int,
                    start_number as int,
                    limit as int,
                ) - 1],
        decreases codes@.len() - i,
    {
        let code: isize = wrap_on_limit(codes[i] as isize, limit);
        let place: isize = wrap_on_limit(code - shift + 1, limit);
        proof {
            let size = limit as int;
            let c = codes@[i as int] as int;
            let s = start_number as int;
            lemma_wrapped_terms(c, s, size);
            lemma_wrapped_terms(code - shift, 1, size);
            lemma_wrapped_terms(c - s, 1, size);
            assert(place == place_of(c, s, size));
        }
        match letter_at(alphabet, place) {
            Ok(letter) => {
                letters.push(letter);
            },
            Err(error) => {
                return Err(error);
            },
        }
        i += 1;
    }
    assert(letters@ =~= letters_for(numbers(codes@), alphabet@, start_number as int));
    Ok(letters)
}

} // verus!
