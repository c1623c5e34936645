//! Decimal numerals: how a code is written as text and read back from it.

use vstd::prelude::*;

verus! {

/// Whether `c` is one of the digits `0` to `9`.
pub open spec fn is_digit(c: char) -> bool {
    '0' <= c <= '9'
}

/// The digit that writes `value`, for a value from 0 to 9.
pub open spec fn digit_of(value: int) -> char {
    ('0' as int + value) as char
}

/// The value that the digit `c` writes.
pub open spec fn digit_value(c: char) -> int {
    c as int - '0' as int
}

/// Whether `text` holds digits only.
pub open spec fn all_digits(text: Seq<char>) -> bool {
    forall|i: int| 0 <= i < text.len() ==> is_digit(#[trigger] text[i])
}

/// The digits of `n`, the most significant first, without leading zeros.
pub open spec fn digits_of(n: nat) -> Seq<char>
    decreases n,
{
    if n < 10 {
        seq![digit_of(n as int)]
    } else {
        digits_of(n / 10).push(digit_of((n % 10) as int))
    }
}

/// The numeral of `n`: its digits, after a minus sign where `n` is negative.
pub open spec fn numeral_of(n: int) -> Seq<char> {
    if n < 0 {
        seq!['-'] + digits_of((-n) as nat)
    } else {
        digits_of(n as nat)
    }
}

/// The number that a sequence of digits writes; leading zeros do not count.
pub open spec fn value_of_digits(digits: Seq<char>) -> nat
    decreases digits.len(),
{
    if digits.len() == 0 {
        0
    } else {
        (value_of_digits(digits.drop_last()) * 10 + digit_value(digits.last())) as nat
    }
}

/// Whether `text` begins with a sign.
pub open spec fn has_sign(text: Seq<char>) -> bool {
    text.len() > 0 && (text[0] == '-' || text[0] == '+')
}

/// The number that `text` writes, if it is a numeral: at least one digit,
/// with or without a sign before the first.
pub open spec fn number_of(text: Seq<char>) -> Option<int> {
    let digits = if has_sign(text) {
        text.skip(1)
    } else {
        text
    };
    if digits.len() == 0 || !all_digits(digits) {
        None
    } else if text[0] == '-' {
        Some(-(value_of_digits(digits) as int))
    } else {
        Some(value_of_digits(digits) as int)
    }
}

/// The code that `text` writes: its number, where that fits a code.
pub open spec fn code_of(text: Seq<char>) -> Option<i32> {
    match number_of(text) {
        Some(n) => if i32::MIN <= n <= i32::MAX {
            Some(n as i32)
        } else {
            None
        },
        None => None,
    }
}

/// A digit and its value stand for each other.
pub proof fn lemma_digits(value: int, c: char)
    ensures
        0 <= value <= 9 ==> is_digit(digit_of(value)) && digit_value(digit_of(value)) == value,
        is_digit(c) ==> 0 <= digit_value(c) <= 9 && digit_of(digit_value(c)) == c,
{
}

/// The digits of a number are digits, at least one of them, and write that
/// number.
pub proof fn lemma_digits_of(n: nat)
    ensures
        digits_of(n).len() > 0,
        all_digits(digits_of(n)),
        value_of_digits(digits_of(n)) == n,
    decreases n,
{
    if n < 10 {
        lemma_digits(n as int, '0');
        assert(digits_of(n).drop_last() =~= Seq::<char>::empty());
        assert(value_of_digits(Seq::<char>::empty()) == 0);
    } else {
        lemma_digits_of(n / 10);
        lemma_digits((n % 10) as int, '0');
        assert(digits_of(n).drop_last() =~= digits_of(n / 10));
    }
}

/// Reading the numeral of a number gives that number.
pub proof fn lemma_number_of_numeral(n: int)
    ensures
        number_of(numeral_of(n)) == Some(n),
{
    if n < 0 {
        let digits = digits_of((-n) as nat);
        lemma_digits_of((-n) as nat);
        assert(numeral_of(n).skip(1) =~= digits);
    } else {
        lemma_digits_of(n as nat);
        let digits = digits_of(n as nat);
        assert(is_digit(digits[0]));
    }
}

/// Digits that follow do not make the number that the first digits write
/// smaller.
pub proof fn lemma_value_grows(digits: Seq<char>, k: int)
    requires
        all_digits(digits),
        0 <= k <= digits.len(),
    ensures
        value_of_digits(digits.take(k)) <= value_of_digits(digits),
    decreases digits.len() - k,
{
    if k < digits.len() {
        lemma_value_grows(digits, k + 1);
        assert(digits.take(k + 1).drop_last() =~= digits.take(k));
        assert(is_digit(digits[k]));
        assert(digits.take(k + 1).last() == digits[k]);
    } else {
        assert(digits.take(k) =~= digits);
    }
}

/// The digit that writes `value`.
pub fn digit(value: u8) -> (c: char)
    requires
        value <= 9,
    ensures
        c == digit_of(value as int),
{
    (48u8 + value) as char
}

/// Writes the numeral of `n` at the end of `text`.
pub fn push_numeral(text: &mut Vec<char>, n: i32)
    ensures
        final(text)@ == old(text)@ + numeral_of(n as int),
{
    let mut rest: u32 = if n < 0 {
        text.push('-');
        (0 - (n as i64)) as u32
    } else {
        n as u32
    };
    let ghost magnitude: nat = rest as nat;
    let ghost before = text@;
    assert(old(text)@ + numeral_of(n as int) =~= before + digits_of(magnitude));
    let mut low: Vec<char> = Vec::new();
    while rest >= 10
        invariant
            digits_of(magnitude) == digits_of(rest as nat) + low@.reverse(),
        decreases rest,
    {
        let ghost shorter = low@;
        low.push(digit((rest % 10) as u8));
        proof {
            assert(digits_of(rest as nat) == digits_of((rest / 10) as nat).push(
                digit_of((rest % 10) as int),
            ));
            assert(digits_of((rest / 10) as nat).push(digit_of((rest % 10) as int))
                + shorter.reverse() =~= digits_of((rest / 10) as nat) + low@.reverse());
        }
        rest = rest / 10;
    }
    text.push(digit(rest as u8));
    let mut k: usize = low.len();
    while k > 0
        invariant
            k <= low@.len(),
            rest < 10,
            text@ == before + digits_of(rest as nat) + low@.reverse().take(low@.len() - k),
        decreases k,
    {
        k -= 1;
        text.push(low[k]);
        proof {
            let turned = low@.reverse();
            assert(turned.take(low@.len() - k) =~= turned.take(low@.len() - k - 1).push(low@[k as int]));
        }
    }
    assert(low@.reverse().take(low@.len() as int) =~= low@.reverse());
    assert(before + digits_of(rest as nat) + low@.reverse() =~= before + (digits_of(rest as nat)
        + low@.reverse()));
}

/// Reads the numeral that `text` holds: digits, with or without a sign before
/// them, that write a number from `i32::MIN` to `i32::MAX`.
pub fn parse_numeral(text: &[char]) -> (code: Option<i32>)
    ensures
        code == code_of(text@),
{
    let signed: bool = text.len() > 0 && (text[0] == '-' || text[0] == '+');
    let first: usize = if signed {
        1
    } else {
        0
    };
    if first == text.len() {
        return None;
    }
    let ghost digits = if signed {
        text@.skip(1)
    } else {
        text@
    };
    assert(digits.take(0) =~= Seq::<char>::empty());
    let mut value: i64 = 0;
    let mut i: usize = first;
    while i < text.len()
        invariant
            first <= i <= text@.len(),
            signed == has_sign(text@),
            first == if signed { 1int } else { 0int },
            digits == if signed { text@.skip(1) } else { text@ },
            digits.len() == text@.len() - first,
            digits.len() > 0,
            all_digits(digits.take(i - first)),
            value == value_of_digits(digits.take(i - first)),
            0 <= value <= 0x8000_0000,
        decreases text@.len() - i,
    {
        let c = text[i];
        if !('0' <= c && c <= '9') {
            proof {
                assert(digits[i - first] == c);
            }
            return None;
        }
        let ghost seen = digits.take(i - first);
        let ghost more = digits.take(i - first + 1);
        proof {
            assert(more.drop_last() =~= seen);
            assert(more.last() == c);
            assert forall|j: int| 0 <= j < more.len() implies is_digit(#[trigger] more[j]) by {
                if j < seen.len() {
                    assert(more[j] == seen[j]);
                }
            }
        }
        value = value * 10 + (c as u32 - '0' as u32) as i64;
        if value > 0x8000_0000 {
            proof {
                if all_digits(digits) {
                    lemma_value_grows(digits, i - first + 1);
                }
            }
            return None;
        }
        i += 1;
    }
    proof {
        assert(digits.take(i - first) =~= digits);
    }
    if signed && text[0] == '-' {
        Some((0 - value) as i32)
    } else if value <= 0x7fff_ffff {
        Some(value as i32)
    } else {
        None
    }
}

} // verus!
