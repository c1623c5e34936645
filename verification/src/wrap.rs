//! Wrapping of integers into the range `1..=limit`.

use vstd::arithmetic::div_mod::*;
use vstd::prelude::*;

verus! {

/// The number in `1..=limit` that differs from `value` by a multiple of `limit`:
/// the remainder of `value` on division by `limit`, with `limit` in place of 0.
pub open spec fn wrapped(value: int, limit: int) -> int {
    if value % limit == 0 {
        limit
    } else {
        value % limit
    }
}

/// A wrapped value lies in `1..=limit`.
pub proof fn lemma_wrapped_in_range(value: int, limit: int)
    requires
        limit > 0,
    ensures
        1 <= wrapped(value, limit) <= limit,
{
    lemma_mod_bound(value, limit);
}

/// A wrapped value differs from the value it came from by a multiple of `limit`.
pub proof fn lemma_wrapped_is_congruent(value: int, limit: int)
    requires
        limit > 0,
    ensures
        (wrapped(value, limit) - value) % limit == 0,
        wrapped(value, limit) % limit == value % limit,
{
    lemma_mod_bound(value, limit);
    lemma_mod_twice(value, limit);
    lemma_mod_self_0(limit);
    lemma_mod_equivalence(wrapped(value, limit), value, limit);
}

/// Wrapping picks the only number in `1..=limit` that is congruent to the value.
pub proof fn lemma_wrapped_is_unique(value: int, limit: int, r: int)
    requires
        limit > 0,
        1 <= r <= limit,
        (r - value) % limit == 0,
    ensures
        r == wrapped(value, limit),
{
    lemma_mod_equivalence(r, value, limit);
    lemma_mod_bound(value, limit);
    if r == limit {
        lemma_mod_self_0(limit);
    } else {
        lemma_small_mod(r as nat, limit as nat);
    }
}

/// Values that are congruent modulo `limit` wrap to the same number.
pub proof fn lemma_wrapped_of_congruent(a: int, b: int, limit: int)
    requires
        limit > 0,
        (a - b) % limit == 0,
    ensures
        wrapped(a, limit) == wrapped(b, limit),
{
    lemma_mod_equivalence(a, b, limit);
}

/// Wrapping leaves the numbers of `1..=limit` as they are, so wrapping twice is
/// wrapping once.
pub proof fn lemma_wrapped_fixes_range(value: int, limit: int)
    requires
        limit > 0,
    ensures
        1 <= value <= limit ==> wrapped(value, limit) == value,
        wrapped(wrapped(value, limit), limit) == wrapped(value, limit),
{
    if 1 <= value <= limit {
        assert((value - value) % limit == 0) by {
            lemma_small_mod(0, limit as nat);
        }
        lemma_wrapped_is_unique(value, limit, value);
    }
    lemma_wrapped_in_range(value, limit);
    let w = wrapped(value, limit);
    assert((w - w) % limit == 0) by {
        lemma_small_mod(0, limit as nat);
    }
    lemma_wrapped_is_unique(w, limit, w);
}

/// The sum and the difference of two multiples of `limit` are multiples of it.
pub proof fn lemma_multiples_combine(a: int, b: int, limit: int)
    requires
        limit > 0,
        a % limit == 0,
        b % limit == 0,
    ensures
        (a + b) % limit == 0,
        (a - b) % limit == 0,
{
    lemma_add_mod_noop(a, b, limit);
    lemma_sub_mod_noop(a, b, limit);
    lemma_small_mod(0, limit as nat);
}

/// Wrapping the terms of a sum or a difference first does not change what the
/// whole wraps to.
pub proof fn lemma_wrapped_terms(a: int, b: int, limit: int)
    requires
        limit > 0,
    ensures
        wrapped(wrapped(a, limit) + wrapped(b, limit), limit) == wrapped(a + b, limit),
        wrapped(a + wrapped(b, limit), limit) == wrapped(a + b, limit),
        wrapped(wrapped(a, limit) - wrapped(b, limit), limit) == wrapped(a - b, limit),
{
    let wa = wrapped(a, limit);
    let wb = wrapped(b, limit);
    lemma_wrapped_is_congruent(a, limit);
    lemma_wrapped_is_congruent(b, limit);
    lemma_multiples_combine(wa - a, wb - b, limit);
    assert((wa + wb) - (a + b) == (wa - a) + (wb - b));
    assert((wa - wb) - (a - b) == (wa - a) - (wb - b));
    assert((a + wb) - (a + b) == wb - b);
    lemma_wrapped_of_congruent(wa + wb, a + b, limit);
    lemma_wrapped_of_congruent(a + wb, a + b, limit);
    lemma_wrapped_of_congruent(wa - wb, a - b, limit);
}

/// The remainder of a negative `index` on division by `limit`, counted from
/// the remainder of the non-negative `-(index + 1)`.
proof fn lemma_remainder_of_negative(index: int, limit: int)
    requires
        index < 0,
        limit > 0,
    ensures
        index % limit == limit - 1 - (-(index + 1)) % limit,
{
    let mirrored = -(index + 1);
    let quotient = mirrored / limit;
    let below = mirrored % limit;
    lemma_fundamental_div_mod(mirrored, limit);
    lemma_mod_bound(mirrored, limit);
    assert(index == (-quotient - 1) * limit + (limit - 1 - below)) by (nonlinear_arith)
        requires
            mirrored == limit * quotient + below,
            index == -mirrored - 1,
    ;
    lemma_fundamental_div_mod_converse_mod(index, limit, -quotient - 1, limit - 1 - below);
}

/// Maps `index` into `1..=limit`, keeping its remainder on division by `limit`;
/// a multiple of `limit` becomes `limit` itself, never 0.
pub fn wrap_on_limit(index: isize, limit: isize) -> (wrapped_index: isize)
    requires
        limit > 0,
    ensures
        wrapped_index == wrapped(index as int, limit as int),
        1 <= wrapped_index <= limit,
        (wrapped_index - index) % (limit as int) == 0,
{
    proof {
        lemma_wrapped_in_range(index as int, limit as int);
        lemma_wrapped_is_congruent(index as int, limit as int);
    }
    let remainder: isize = if index >= 0 {
        index % limit
    } else {
        proof {
            lemma_remainder_of_negative(index as int, limit as int);
            lemma_mod_bound(-(index + 1), limit as int);
        }
        limit - 1 - (-(index + 1)) % limit
    };
    if remainder == 0 {
        limit
    } else {
        remainder
    }
}

} // verus!
