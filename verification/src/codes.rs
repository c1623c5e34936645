//! Sequences of codes as text: numerals with a separator between neighbours.

use crate::cipher::numbers;
use crate::error::CipherError;
use crate::numeral::{
    code_of, digits_of, is_digit, lemma_digits_of, lemma_number_of_numeral, numeral_of,
    parse_numeral, push_numeral,
};
use crate::unicode::{chars_of, string_of};
use vstd::prelude::*;
use vstd::slice::slice_subrange;

verus! {

/// `parts` one after another, with `separator` between neighbours and none
/// before the first or after the last.
pub open spec fn joined(parts: Seq<Seq<char>>, separator: Seq<char>) -> Seq<char>
    decreases parts.len(),
{
    if parts.len() == 0 {
        Seq::empty()
    } else if parts.len() == 1 {
        parts[0]
    } else {
        joined(parts.drop_last(), separator) + separator + parts.last()
    }
}

/// The numerals of `codes`, one for each, in order.
pub open spec fn numerals_of(codes: Seq<int>) -> Seq<Seq<char>> {
    codes.map_values(|code: int| numeral_of(code))
}

/// The text that writes `codes`: their numerals, joined by `separator`.
pub open spec fn written(codes: Seq<int>, separator: Seq<char>) -> Seq<char> {
    joined(numerals_of(codes), separator)
}

/// Whether `separator` stands in `text` at the index `at`. An empty separator
/// stands nowhere.
pub open spec fn stands_at(text: Seq<char>, separator: Seq<char>, at: int) -> bool {
    &&& separator.len() > 0
    &&& 0 <= at
    &&& at + separator.len() <= text.len()
    &&& text.subrange(at, at + separator.len()) == separator
}

/// The first index from `from` on at which `separator` stands in `text`.
pub open spec fn next_separator(text: Seq<char>, separator: Seq<char>, from: int) -> Option<int>
    decreases text.len() - from,
{
    if from < 0 || separator.len() == 0 || from + separator.len() > text.len() {
        None
    } else if stands_at(text, separator, from) {
        Some(from)
    } else {
        next_separator(text, separator, from + 1)
    }
}

/// The pieces into which the separators cut `text` from `from` on: what
/// stands before the next separator, then the pieces after it. A separator
/// at the very end leaves an empty last piece.
pub open spec fn pieces_from(text: Seq<char>, separator: Seq<char>, from: int) -> Seq<Seq<char>>
    decreases text.len() - from,
{
    match next_separator(text, separator, from) {
        Some(at) => {
            proof {
                if 0 <= from {
                    lemma_next_separator(text, separator, from);
                }
            }
            seq![text.subrange(from, at)] + pieces_from(text, separator, at + separator.len())
        },
        None => seq![text.subrange(from, text.len() as int)],
    }
}

/// The pieces of the whole of `text`.
pub open spec fn pieces_of(text: Seq<char>, separator: Seq<char>) -> Seq<Seq<char>> {
    pieces_from(text, separator, 0)
}

/// What reading `text` gives: the codes that its pieces write, unless the
/// separator is empty or a piece writes no code.
pub open spec fn parsed(text: Seq<char>, separator: Seq<char>) -> Result<Seq<i32>, CipherError> {
    let pieces = pieces_of(text, separator);
    if separator.len() == 0 || exists|i: int|
        0 <= i < pieces.len() && code_of(#[trigger] pieces[i]) is None {
        Err(CipherError::MalformedCode)
    } else {
        Ok(pieces.map_values(|piece: Seq<char>| code_of(piece)->0))
    }
}

/// Whether `piece` holds no `c`.
pub open spec fn free_of(piece: Seq<char>, c: char) -> bool {
    forall|i: int| 0 <= i < piece.len() ==> #[trigger] piece[i] != c
}

/// Where the next separator stands: at or after `from`, with none between.
pub proof fn lemma_next_separator(text: Seq<char>, separator: Seq<char>, from: int)
    requires
        0 <= from,
    ensures
        match next_separator(text, separator, from) {
            Some(at) => from <= at && stands_at(text, separator, at) && forall|k: int|
                from <= k < at ==> !stands_at(text, separator, k),
            None => forall|k: int| from <= k ==> !stands_at(text, separator, k),
        },
    decreases text.len() - from,
{
    if separator.len() == 0 || from + separator.len() > text.len() {
    } else if stands_at(text, separator, from) {
    } else {
        lemma_next_separator(text, separator, from + 1);
    }
}

/// An index at which the separator stands, with none between `from` and it, is
/// where the next separator stands.
pub proof fn lemma_next_separator_is(text: Seq<char>, separator: Seq<char>, from: int, at: int)
    requires
        0 <= from <= at,
        stands_at(text, separator, at),
        forall|k: int| from <= k < at ==> !stands_at(text, separator, k),
    ensures
        next_separator(text, separator, from) == Some(at),
    decreases at - from,
{
    if from < at {
        lemma_next_separator_is(text, separator, from + 1, at);
    }
}

/// Where no separator stands from `from` on, there is no next one.
pub proof fn lemma_no_next_separator(text: Seq<char>, separator: Seq<char>, from: int)
    requires
        0 <= from,
        forall|k: int| from <= k ==> !stands_at(text, separator, k),
    ensures
        next_separator(text, separator, from) is None,
{
    lemma_next_separator(text, separator, from);
}

/// A numeral holds digits, and before them a minus sign where the number is
/// negative: no character that is neither is in it.
pub proof fn lemma_numeral_is_free_of(n: int, c: char)
    requires
        !is_digit(c),
        c == '-' ==> n >= 0,
    ensures
        free_of(numeral_of(n), c),
{
    if n < 0 {
        lemma_digits_of((-n) as nat);
        let digits = digits_of((-n) as nat);
        assert forall|i: int| 0 <= i < numeral_of(n).len() implies #[trigger] numeral_of(n)[i]
            != c by {
            if i > 0 {
                assert(numeral_of(n)[i] == digits[i - 1]);
                assert(is_digit(digits[i - 1]));
            }
        }
    } else {
        lemma_digits_of(n as nat);
        let digits = digits_of(n as nat);
        assert forall|i: int| 0 <= i < digits.len() implies #[trigger] digits[i] != c by {
            assert(is_digit(digits[i]));
        }
    }
}

/// Joining takes the first part, then the separator, then the other parts
/// joined.
pub proof fn lemma_joined_from_front(parts: Seq<Seq<char>>, separator: Seq<char>)
    requires
        parts.len() >= 2,
    ensures
        joined(parts, separator) == parts[0] + separator + joined(parts.skip(1), separator),
    decreases parts.len(),
{
    let front = parts.drop_last();
    let others = parts.skip(1);
    if parts.len() == 2 {
        assert(joined(front, separator) == parts[0]);
        assert(joined(others, separator) == parts[1]);
    } else {
        lemma_joined_from_front(front, separator);
        assert(front.skip(1) =~= others.drop_last());
        assert(joined(parts, separator) =~= parts[0] + separator + (joined(
            others.drop_last(),
            separator,
        ) + separator + others.last()));
    }
}

/// Cutting what was joined gives the parts back, where the first character
/// of the separator is in none of them: every separator found is one that
/// joined two parts.
pub proof fn lemma_pieces_of_joined(
    text: Seq<char>,
    separator: Seq<char>,
    from: int,
    parts: Seq<Seq<char>>,
)
    requires
        0 <= from <= text.len(),
        separator.len() > 0,
        parts.len() > 0,
        forall|i: int| 0 <= i < parts.len() ==> free_of(#[trigger] parts[i], separator[0]),
        text.subrange(from, text.len() as int) == joined(parts, separator),
    ensures
        pieces_from(text, separator, from) == parts,
    decreases parts.len(),
{
    let first = parts[0];
    let tail = text.subrange(from, text.len() as int);
    assert(free_of(first, separator[0]));
    if parts.len() == 1 {
        assert(tail == first);
        assert forall|k: int| from <= k implies !stands_at(text, separator, k) by {
            if k + separator.len() <= text.len() {
                assert(text.subrange(k, k + separator.len())[0] == text[k]);
                assert(text[k] == tail[k - from]);
            }
        }
        lemma_no_next_separator(text, separator, from);
        assert(pieces_from(text, separator, from) =~= parts);
    } else {
        let others = parts.skip(1);
        lemma_joined_from_front(parts, separator);
        let at = from + first.len();
        assert(tail == first + separator + joined(others, separator));
        assert(text.subrange(at, at + separator.len()) =~= separator) by {
            assert forall|j: int| 0 <= j < separator.len() implies text.subrange(
                at,
                at + separator.len(),
            )[j] == separator[j] by {
                assert(text[at + j] == tail[first.len() + j]);
            }
        }
        assert forall|k: int| from <= k < at implies !stands_at(text, separator, k) by {
            if k + separator.len() <= text.len() {
                assert(text.subrange(k, k + separator.len())[0] == text[k]);
                assert(text[k] == tail[k - from]);
                assert(tail[k - from] == first[k - from]);
            }
        }
        lemma_next_separator_is(text, separator, from, at);
        let after = at + separator.len();
        assert(text.subrange(from, at) =~= first) by {
            assert forall|j: int| 0 <= j < first.len() implies text.subrange(from, at)[j]
                == first[j] by {
                assert(text[from + j] == tail[j]);
            }
        }
        assert(text.subrange(after, text.len() as int) =~= joined(others, separator)) by {
            let rest = joined(others, separator);
            assert(tail.len() == first.len() + separator.len() + rest.len());
            assert forall|j: int| 0 <= j < rest.len() implies text.subrange(
                after,
                text.len() as int,
            )[j] == rest[j] by {
                assert(text[after + j] == tail[first.len() + separator.len() + j]);
            }
        }
        assert forall|i: int| 0 <= i < others.len() implies free_of(
            #[trigger] others[i],
            separator[0],
        ) by {
            assert(others[i] == parts[i + 1]);
        }
        lemma_pieces_of_joined(text, separator, after, others);
        assert(seq![first] + others =~= parts);
    }
}

/// Reading what was written gives the codes back, where there is at least
/// one code and the separator begins with a character that no numeral of
/// them holds: no digit, and no minus sign if a code is negative.
pub proof fn lemma_parsing_inverts_writing(codes: Seq<i32>, separator: Seq<char>)
    requires
        codes.len() > 0,
        separator.len() > 0,
        !is_digit(separator[0]),
        separator[0] == '-' ==> forall|i: int| 0 <= i < codes.len() ==> codes[i] >= 0,
    ensures
        parsed(written(numbers(codes), separator), separator) == Ok::<Seq<i32>, CipherError>(
            codes,
        ),
{
    let numerals = numerals_of(numbers(codes));
    let text = written(numbers(codes), separator);
    assert forall|i: int| 0 <= i < numerals.len() implies free_of(
        #[trigger] numerals[i],
        separator[0],
    ) by {
        lemma_numeral_is_free_of(codes[i] as int, separator[0]);
    }
    assert(text.subrange(0, text.len() as int) =~= text);
    lemma_pieces_of_joined(text, separator, 0, numerals);
    let pieces = pieces_of(text, separator);
    assert forall|i: int| 0 <= i < pieces.len() implies code_of(#[trigger] pieces[i]) == Some(
        codes[i],
    ) by {
        lemma_number_of_numeral(codes[i] as int);
    }
    assert(pieces.map_values(|piece: Seq<char>| code_of(piece)->0) =~= codes);
}

/// Whether `separator` stands in `text` at `at`.
fn separator_at(text: &[char], separator: &[char], at: usize) -> (found: bool)
    requires
        separator.len() > 0,
        at + separator.len() <= text.len(),
    ensures
        found == stands_at(text@, separator@, at as int),
{
    let mut k: usize = 0;
    while k < separator.len()
        invariant
            k <= separator.len(),
            separator.len() > 0,
            at + separator.len() <= text.len(),
            forall|j: int| 0 <= j < k ==> text@[at + j] == separator@[j],
        decreases separator@.len() - k,
    {
        if text[at + k] != separator[k] {
            proof {
                let stretch = text@.subrange(at as int, at + separator@.len());
                assert(stretch[k as int] == text@[at + k]);
            }
            return false;
        }
        k += 1;
    }
    assert(text@.subrange(at as int, at + separator@.len()) =~= separator@);
    true
}

/// Finds the first index from `from` on at which `separator` stands in `text`.
pub fn find_separator(text: &[char], separator: &[char], from: usize) -> (found: Option<usize>)
    ensures
        match found {
            Some(at) => next_separator(text@, separator@, from as int) == Some(at as int),
            None => next_separator(text@, separator@, from as int) is None,
        },
{
    if separator.len() == 0 || separator.len() > text.len() {
        return None;
    }
    let last: usize = text.len() - separator.len();
    let mut at: usize = from;
    while at <= last
        invariant
            from <= at,
            separator.len() > 0,
            last == text.len() - separator.len(),
            forall|k: int| from <= k < at ==> !stands_at(text@, separator@, k),
        decreases last + 1 - at,
    {
        if separator_at(text, separator, at) {
            proof {
                lemma_next_separator_is(text@, separator@, from as int, at as int);
            }
            return Some(at);
        }
        at += 1;
    }
    proof {
        lemma_no_next_separator(text@, separator@, from as int);
    }
    None
}

/// Writes `codes` as text: the numeral of each, with `separator` between
/// neighbours.
pub fn join_codes(codes: &[i32], separator: &str) -> (text: String)
    ensures
        text@ == written(numbers(codes@), separator@),
{
    let between = chars_of(separator);
    let mut text: Vec<char> = Vec::new();
    let ghost numerals = numerals_of(numbers(codes@));
    let mut i: usize = 0;
    while i < codes.len()
        invariant
            i <= codes@.len(),
            between@ == separator@,
            numerals == numerals_of(numbers(codes@)),
            numerals.len() == codes@.len(),
            text@ == joined(numerals.take(i as int), separator@),
        decreases codes@.len() - i,
    {
        proof {
            let sooner = numerals.take(i as int);
            let later = numerals.take(i + 1);
            assert(later.drop_last() =~= sooner);
            assert(later.last() == numeral_of(codes@[i as int] as int));
            if i > 0 {
                assert(joined(later, separator@) == joined(sooner, separator@) + separator@
                    + later.last());
            } else {
                assert(joined(later, separator@) == later.last());
                assert(text@ =~= Seq::<char>::empty());
            }
        }
        if i > 0 {
            text.extend_from_slice(between.as_slice());
        }
        push_numeral(&mut text, codes[i]);
        i += 1;
    }
    proof {
        assert(numerals.take(codes@.len() as int) =~= numerals);
    }
    string_of(text)
}

/// Reads codes from `text`: cuts it at every `separator` and reads each piece
/// as a numeral. A piece that is no numeral, or writes a number beyond
/// `i32`, makes the text malformed; so does an empty separator, and an empty
/// text, whose one piece is empty.
pub fn parse_codes(input: &str, separator: &str) -> (outcome: Result<Vec<i32>, CipherError>)
    ensures
        match outcome {
            Ok(codes) => parsed(input@, separator@) == Ok::<Seq<i32>, CipherError>(codes@),
            Err(error) => parsed(input@, separator@) == Err::<Seq<i32>, CipherError>(error),
        },
{
    let text = chars_of(input);
    let between = chars_of(separator);
    if between.len() == 0 {
        return Err(CipherError::MalformedCode);
    }
    let mut codes: Vec<i32> = Vec::new();
    let mut from: usize = 0;
    let ghost mut done: Seq<Seq<char>> = Seq::empty();
    assert(done + pieces_from(text@, between@, 0) =~= pieces_of(text@, between@));
    loop
        invariant_except_break
            from <= text@.len(),
            text@ == input@,
            between@ == separator@,
            between@.len() > 0,
            pieces_of(text@, between@) == done + pieces_from(text@, between@, from as int),
            done.len() == codes@.len(),
            forall|j: int| 0 <= j < done.len() ==> code_of(#[trigger] done[j]) == Some(codes@[j]),
        ensures
            text@ == input@,
            between@ == separator@,
            between@.len() > 0,
            pieces_of(text@, between@) == done,
            done.len() == codes@.len(),
            forall|j: int| 0 <= j < done.len() ==> code_of(#[trigger] done[j]) == Some(codes@[j]),
        decreases text@.len() - from,
    {
        let found = find_separator(text.as_slice(), between.as_slice(), from);
        proof {
            lemma_next_separator(text@, between@, from as int);
        }
        let end: usize = match found {
            Some(at) => at,
            None => text.len(),
        };
        let piece = slice_subrange(text.as_slice(), from, end);
        let ghost rest = pieces_from(text@, between@, from as int);
        assert(rest[0] == piece@);
        match parse_numeral(piece) {
            None => {
                proof {
                    let pieces = pieces_of(text@, between@);
                    assert(pieces[done.len() as int] == piece@);
                }
                return Err(CipherError::MalformedCode);
            },
            Some(code) => {
                codes.push(code);
            },
        }
        proof {
            let sooner = done;
            done = done.push(piece@);
            match found {
                Some(at) => {
                    assert(sooner + rest =~= done + pieces_from(
                        text@,
                        between@,
                        at + between@.len(),
                    ));
                },
                None => {
                    assert(sooner + rest =~= done);
                },
            }
        }
        match found {
            Some(at) => {
                from = at + between.len();
            },
            None => {
                break ;
            },
        }
    }
    proof {
        let pieces = pieces_of(text@, between@);
        assert(codes@ =~= pieces.map_values(|piece: Seq<char>| code_of(piece)->0));
    }
    Ok(codes)
}

} // verus!
