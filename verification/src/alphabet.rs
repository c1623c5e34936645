//! Alphabets: the distinct characters of a key, in lower case and without
//! whitespace, in the order in which the key first shows them.

use crate::unicode::{
    chars_of, is_whitespace, is_whitespace_char, lowercase_of, string_of, to_lowercase,
};
use itertools::Itertools;
use vstd::prelude::*;
use vstd::relations::injective;
use vstd::set_lib::{lemma_int_range, lemma_len_subset, set_int_range};

verus! {

/// The number of values that a `char` can take is below this bound.
pub const CHAR_BOUND: usize = 0x11_0000;

/// The index at which `c` first stands in `s`, or the length of `s` where `c`
/// is not in it.
pub open spec fn first_position(s: Seq<char>, c: char) -> int
    decreases s.len(),
{
    if s.len() == 0 {
        0
    } else if s[0] == c {
        0
    } else {
        1 + first_position(s.skip(1), c)
    }
}

/// The elements of `s` without repetitions: each one stands where it first
/// came, and later copies are left out.
pub open spec fn first_occurrences(s: Seq<char>) -> Seq<char>
    decreases s.len(),
{
    if s.len() == 0 {
        s
    } else {
        let earlier = first_occurrences(s.drop_last());
        if earlier.contains(s.last()) {
            earlier
        } else {
            earlier.push(s.last())
        }
    }
}

/// The test that keeps the characters of an alphabet: everything but whitespace.
pub open spec fn not_whitespace() -> spec_fn(char) -> bool {
    |c: char| !is_whitespace_char(c)
}

/// The alphabet that a key stands for.
pub open spec fn alphabet_of(key: Seq<char>) -> Seq<char> {
    first_occurrences(lowercase_of(key)).filter(not_whitespace())
}

/// Whether the elements of `out` come in the order in which `s` first shows them.
pub open spec fn in_order_of_appearance(out: Seq<char>, s: Seq<char>) -> bool {
    forall|i: int, j: int|
        0 <= i < j < out.len() ==> first_position(s, #[trigger] out[i]) < first_position(
            s,
            #[trigger] out[j],
        )
}

/// `first_position` is the least index that holds `c`, and the length of `s`
/// exactly when no index does.
pub proof fn lemma_first_position(s: Seq<char>, c: char)
    ensures
        0 <= first_position(s, c) <= s.len(),
        first_position(s, c) < s.len() <==> s.contains(c),
        first_position(s, c) < s.len() ==> s[first_position(s, c)] == c,
        forall|j: int| 0 <= j < first_position(s, c) ==> s[j] != c,
    decreases s.len(),
{
    if s.len() == 0 {
    } else if s[0] == c {
    } else {
        let rest = s.skip(1);
        lemma_first_position(rest, c);
        let p = first_position(rest, c);
        if p < rest.len() {
            assert(s[p + 1] == rest[p]);
        }
        if s.contains(c) {
            let k = choose|k: int| 0 <= k < s.len() && s[k] == c;
            assert(rest[k - 1] == c);
        }
        assert forall|j: int| 0 <= j < p + 1 implies s[j] != c by {
            if j > 0 {
                assert(s[j] == rest[j - 1]);
            }
        }
    }
}

/// An index that holds `c` with no earlier one that does is the first position.
pub proof fn lemma_first_position_is(s: Seq<char>, c: char, i: int)
    requires
        0 <= i < s.len(),
        s[i] == c,
        forall|j: int| 0 <= j < i ==> s[j] != c,
    ensures
        first_position(s, c) == i,
{
    lemma_first_position(s, c);
}

/// In a sequence without repetitions every element is found where it stands.
pub proof fn lemma_first_position_without_repetitions(s: Seq<char>, i: int)
    requires
        s.no_duplicates(),
        0 <= i < s.len(),
    ensures
        first_position(s, s[i]) == i,
{
    lemma_first_position(s, s[i]);
}

/// Appending to a sequence does not move the first position of what it holds.
proof fn lemma_first_position_after_push(s: Seq<char>, last: char, c: char)
    ensures
        s.contains(c) ==> first_position(s.push(last), c) == first_position(s, c),
        !s.contains(c) && last == c ==> first_position(s.push(last), c) == s.len(),
{
    lemma_first_position(s, c);
    let longer = s.push(last);
    if s.contains(c) {
        let p = first_position(s, c);
        assert(longer[p] == c);
        assert forall|j: int| 0 <= j < p implies longer[j] != c by {
            assert(longer[j] == s[j]);
        }
        lemma_first_position_is(longer, c, p);
    } else if last == c {
        assert(longer[s.len() as int] == c);
        assert forall|j: int| 0 <= j < s.len() implies longer[j] != c by {
            assert(longer[j] == s[j]);
        }
        lemma_first_position_is(longer, c, s.len() as int);
    }
}

/// Elements that come in order of appearance are pairwise different.
pub proof fn lemma_order_excludes_repetitions(out: Seq<char>, s: Seq<char>)
    requires
        in_order_of_appearance(out, s),
    ensures
        out.no_duplicates(),
{
    assert forall|i: int, j: int| 0 <= i < out.len() && 0 <= j < out.len() && i != j implies out[i]
        != out[j] by {
        if i < j {
            assert(first_position(s, out[i]) < first_position(s, out[j]));
        } else {
            assert(first_position(s, out[j]) < first_position(s, out[i]));
        }
    }
}

/// `first_occurrences` holds an element exactly when `s` does.
pub proof fn lemma_first_occurrences_holds(s: Seq<char>, c: char)
    ensures
        first_occurrences(s).contains(c) <==> s.contains(c),
    decreases s.len(),
{
    let out = first_occurrences(s);
    if s.len() > 0 {
        let front = s.drop_last();
        let earlier = first_occurrences(front);
        lemma_first_occurrences_holds(front, c);
        if out.contains(c) {
            let k = choose|k: int| 0 <= k < out.len() && out[k] == c;
            if k < earlier.len() {
                assert(earlier[k] == c);
                assert(front.contains(c));
                let m = choose|m: int| 0 <= m < front.len() && front[m] == c;
                assert(s[m] == c);
            } else {
                assert(s[s.len() - 1] == c);
            }
        }
        if s.contains(c) {
            let m = choose|m: int| 0 <= m < s.len() && s[m] == c;
            if m < front.len() {
                assert(front[m] == c);
            }
            if earlier.contains(c) {
                let k = choose|k: int| 0 <= k < earlier.len() && earlier[k] == c;
                assert(out[k] == c);
            } else {
                assert(out[earlier.len() as int] == c);
            }
        }
    }
}

/// What `first_occurrences` keeps: every element of `s` once, in the order in
/// which `s` first shows it.
pub proof fn lemma_first_occurrences(s: Seq<char>)
    ensures
        first_occurrences(s).no_duplicates(),
        forall|c: char| first_occurrences(s).contains(c) <==> s.contains(c),
        in_order_of_appearance(first_occurrences(s), s),
        first_occurrences(s).len() <= s.len(),
    decreases s.len(),
{
    let out = first_occurrences(s);
    assert forall|c: char| out.contains(c) <==> s.contains(c) by {
        lemma_first_occurrences_holds(s, c);
    }
    if s.len() > 0 {
        let front = s.drop_last();
        let earlier = first_occurrences(front);
        lemma_first_occurrences(front);
        assert(s == front.push(s.last()));
        assert forall|i: int, j: int| 0 <= i < j < out.len() implies first_position(
            s,
            #[trigger] out[i],
        ) < first_position(s, #[trigger] out[j]) by {
            assert(earlier[i] == out[i]);
            lemma_first_occurrences_holds(front, out[i]);
            lemma_first_position_after_push(front, s.last(), out[i]);
            lemma_first_position(front, out[i]);
            lemma_first_occurrences_holds(front, out[j]);
            if j < earlier.len() {
                assert(earlier[j] == out[j]);
            }
            lemma_first_position_after_push(front, s.last(), out[j]);
        }
    }
    lemma_order_excludes_repetitions(out, s);
}

/// Leaving elements out keeps the others in order of appearance.
proof fn lemma_filter_keeps_order(out: Seq<char>, s: Seq<char>, keep: spec_fn(char) -> bool)
    requires
        in_order_of_appearance(out, s),
    ensures
        in_order_of_appearance(out.filter(keep), s),
    decreases out.len(),
{
    reveal(Seq::filter);
    let kept = out.filter(keep);
    if out.len() > 0 {
        let front = out.drop_last();
        let kept_front = front.filter(keep);
        assert forall|i: int, j: int| 0 <= i < j < front.len() implies first_position(
            s,
            #[trigger] front[i],
        ) < first_position(s, #[trigger] front[j]) by {
            assert(front[i] == out[i] && front[j] == out[j]);
        }
        lemma_filter_keeps_order(front, s, keep);
        assert forall|i: int, j: int| 0 <= i < j < kept.len() implies first_position(
            s,
            #[trigger] kept[i],
        ) < first_position(s, #[trigger] kept[j]) by {
            assert(kept_front[i] == kept[i]);
            if j < kept_front.len() {
                assert(kept_front[j] == kept[j]);
            } else {
                assert(kept[j] == out.last());
                assert(kept_front.contains(kept[i]));
                front.lemma_filter_contains_rev(keep, kept[i]);
                let m = choose|m: int| 0 <= m < front.len() && front[m] == kept[i];
                assert(out[m] == kept[i]);
                assert(first_position(s, out[m]) < first_position(s, out[out.len() - 1]));
            }
        }
    }
}

/// The number of a character is below `CHAR_BOUND`.
pub proof fn lemma_char_is_bounded(c: char)
    ensures
        0 <= (c as int) < CHAR_BOUND,
{
}

/// A sequence of pairwise different characters is no longer than there are
/// characters.
pub proof fn lemma_distinct_chars_are_bounded(s: Seq<char>)
    requires
        s.no_duplicates(),
    ensures
        s.len() <= CHAR_BOUND,
{
    let number = |c: char| c as int;
    assert(injective(number));
    s.lemma_no_duplicates_injective(number);
    let numbers = s.map_values(number);
    numbers.unique_seq_to_set();
    lemma_int_range(0, CHAR_BOUND as int);
    assert(numbers.to_set().subset_of(set_int_range(0, CHAR_BOUND as int))) by {
        assert forall|n: int| numbers.to_set().contains(n) implies set_int_range(
            0,
            CHAR_BOUND as int,
        ).contains(n) by {
            assert(numbers.contains(n));
            let k = choose|k: int| 0 <= k < numbers.len() && numbers[k] == n;
            assert(n == number(s[k]));
            lemma_char_is_bounded(s[k]);
        }
    }
    lemma_len_subset(numbers.to_set(), set_int_range(0, CHAR_BOUND as int));
}

/// The alphabet of a key holds exactly the characters of the key's lower-case
/// form that are not whitespace, each once, in the order in which that form
/// first shows them.
pub proof fn lemma_alphabet_of(key: Seq<char>)
    ensures
        alphabet_of(key).no_duplicates(),
        forall|c: char|
            alphabet_of(key).contains(c) <==> lowercase_of(key).contains(c) && !is_whitespace_char(
                c,
            ),
        in_order_of_appearance(alphabet_of(key), lowercase_of(key)),
        alphabet_of(key).len() <= lowercase_of(key).len(),
        alphabet_of(key).len() <= CHAR_BOUND,
{
    let lower = lowercase_of(key);
    let distinct = first_occurrences(lower);
    let alphabet = alphabet_of(key);
    lemma_first_occurrences(lower);
    lemma_filter_keeps_order(distinct, lower, not_whitespace());
    lemma_order_excludes_repetitions(alphabet, lower);
    lemma_distinct_chars_are_bounded(alphabet);
    distinct.lemma_filter_len(not_whitespace());
    assert forall|c: char|
        alphabet.contains(c) <==> lower.contains(c) && !is_whitespace_char(c) by {
        if alphabet.contains(c) {
            distinct.lemma_filter_contains_rev(not_whitespace(), c);
            let k = choose|k: int| 0 <= k < alphabet.len() && alphabet[k] == c;
            distinct.lemma_filter_pred(not_whitespace(), k);
        }
        if lower.contains(c) && !is_whitespace_char(c) {
            let m = choose|m: int| 0 <= m < distinct.len() && distinct[m] == c;
            distinct.lemma_filter_contains(not_whitespace(), m);
        }
    }
}

/// Calls `Itertools::unique` on the characters of a vector and collects what
/// it yields. Taken on trust: it yields every character once, at its first
/// occurrence, and so in the order in which the characters first came.
#[verifier::external_body]
pub(crate) fn unique(chars: Vec<char>) -> (distinct: Vec<char>)
    ensures
        distinct@ == first_occurrences(chars@),
{
    chars.into_iter().unique().collect()
}

/// The alphabet of a key as a vector of its letters.
pub fn alphabet_letters(pangram: &str) -> (alphabet: Vec<char>)
    ensures
        alphabet@ == alphabet_of(pangram@),
        alphabet@.no_duplicates(),
        alphabet@.len() <= CHAR_BOUND,
{
    let lower = to_lowercase(pangram);
    let distinct = unique(chars_of(lower.as_str()));
    let mut alphabet: Vec<char> = Vec::new();
    let mut i: usize = 0;
    assert(distinct@.take(0).filter(not_whitespace()) == Seq::<char>::empty()) by {
        reveal(Seq::filter);
    }
    while i < distinct.len()
        invariant
            i <= distinct.len(),
            alphabet@ == distinct@.take(i as int).filter(not_whitespace()),
        decreases distinct.len() - i,
    {
        let c = distinct[i];
        proof {
            distinct@.lemma_take_succ_push(i as int);
            distinct@.take(i as int).lemma_filter_push(c, not_whitespace());
        }
        if !is_whitespace(c) {
            alphabet.push(c);
        }
        i += 1;
    }
    proof {
        distinct@.lemma_take_len();
        lemma_alphabet_of(pangram@);
    }
    alphabet
}

/// The alphabet of a key: its distinct characters in lower case, whitespace
/// left out, in the order in which they first appear.
pub fn unique_chars(pangram: &str) -> (alphabet: String)
    ensures
        alphabet@ == alphabet_of(pangram@),
{
    string_of(alphabet_letters(pangram))
}

} // verus!
