//! Numeric classification of trimmed cell tokens and the digit-width
//! measurements behind column alignment: a token is numeric when it is all
//! digits apart from an optional single leading minus sign or a bracket
//! pair wrapping the whole token (accounting negative notation), with at
//! most one decimal point that is neither the first nor the last character.

use crate::scan::count_byte;
use vstd::prelude::*;

verus! {

pub open spec fn is_digit(b: u8) -> bool {
    48 <= b <= 57
}

pub open spec fn is_digit_or_dot(b: u8) -> bool {
    is_digit(b) || b == 46
}

/// The numeric-token grammar applied to a trimmed cell.
pub open spec fn is_numeric_token(t: Seq<u8>) -> bool {
    let has_paren = t.len() >= 2 && t[0] == 40 && t[t.len() - 1] == 41;
    let lo: int = if has_paren || (t.len() >= 1 && t[0] == 45) {
        1
    } else {
        0
    };
    let hi: int = if has_paren {
        t.len() - 1
    } else {
        t.len() as int
    };
    &&& forall|i: int| lo <= i < hi ==> is_digit_or_dot(#[trigger] t[i])
    &&& count_byte(t, 46) <= 1
    &&& (t.len() > 0 ==> t[0] != 46 && t[t.len() - 1] != 46)
}

/// Number of digit bytes in `t`.
pub open spec fn digit_count(t: Seq<u8>) -> nat
    decreases t.len(),
{
    if t.len() == 0 {
        0
    } else {
        digit_count(t.drop_last()) + (if is_digit(t.last()) {
            1nat
        } else {
            0nat
        })
    }
}

/// Index of the first decimal-point byte at or after `i`, or `t.len()`
/// when there is none.
pub open spec fn first_dot(t: Seq<u8>, i: int) -> int
    decreases t.len() - i,
{
    if i < 0 || i >= t.len() {
        t.len() as int
    } else if t[i] == 46 {
        i
    } else {
        first_dot(t, i + 1)
    }
}

/// Digit count of the integer part of a token: the digits before its first
/// decimal point (all of its digits when it has none).
pub open spec fn int_digits(t: Seq<u8>) -> nat {
    digit_count(t.take(first_dot(t, 0)))
}

/// Digit count of the fractional part of a token: the digits after its
/// first decimal point.
pub open spec fn dec_digits(t: Seq<u8>) -> nat {
    if first_dot(t, 0) < t.len() {
        digit_count(t.subrange(first_dot(t, 0) + 1, t.len() as int))
    } else {
        0
    }
}

pub proof fn lemma_digit_count_le_len(t: Seq<u8>)
    ensures
        digit_count(t) <= t.len(),
    decreases t.len(),
{
    if t.len() > 0 {
        lemma_digit_count_le_len(t.drop_last());
    }
}

proof fn lemma_first_dot_bounds(t: Seq<u8>, i: int)
    requires
        0 <= i <= t.len(),
    ensures
        i <= first_dot(t, i) <= t.len(),
    decreases t.len() - i,
{
    if i < t.len() && t[i] != 46 {
        lemma_first_dot_bounds(t, i + 1);
    }
}

proof fn lemma_digit_count_take_step(t: Seq<u8>, j: int)
    requires
        0 <= j < t.len(),
    ensures
        digit_count(t.take(j + 1)) == digit_count(t.take(j)) + (if is_digit(t[j]) {
            1nat
        } else {
            0nat
        }),
{
    assert(t.take(j + 1).drop_last() =~= t.take(j));
    assert(t.take(j + 1).last() == t[j]);
}

proof fn lemma_digit_count_subrange_step(t: Seq<u8>, lo: int, j: int)
    requires
        0 <= lo <= j < t.len(),
    ensures
        digit_count(t.subrange(lo, j + 1)) == digit_count(t.subrange(lo, j)) + (if is_digit(
            t[j],
        ) {
            1nat
        } else {
            0nat
        }),
{
    assert(t.subrange(lo, j + 1).drop_last() =~= t.subrange(lo, j));
    assert(t.subrange(lo, j + 1).last() == t[j]);
}

proof fn lemma_count_byte_take_step(t: Seq<u8>, j: int, b: u8)
    requires
        0 <= j < t.len(),
    ensures
        count_byte(t.take(j + 1), b) == count_byte(t.take(j), b) + (if t[j] == b {
            1nat
        } else {
            0nat
        }),
{
    assert(t.take(j + 1).drop_last() =~= t.take(j));
    assert(t.take(j + 1).last() == t[j]);
}

/// Classifies the trimmed cell `byte_array[start..end)` and measures it:
/// whether it is a numeric token, its integer-part digit count and its
/// fractional-part digit count.
pub fn classify_cell(byte_array: &Vec<u8>, start: usize, end: usize) -> (r: (bool, usize, usize))
    requires
        start <= end <= byte_array@.len(),
    ensures
        ({
            let t = byte_array@.subrange(start as int, end as int);
            &&& r.0 == is_numeric_token(t)
            &&& r.1 == int_digits(t)
            &&& r.2 == dec_digits(t)
        }),
{
    let ghost t = byte_array@.subrange(start as int, end as int);
    let n: usize = end - start;
    let mut j: usize = 0;
    // all bytes of t[1..j) are digits or dots
    let mut f1: bool = true;
    // all bytes of t[1..j-1) are digits or dots (the flag one step behind)
    let mut f1p: bool = true;
    let mut dots: usize = 0;
    let mut found: bool = false;
    let mut fd: usize = 0;
    let mut ints: usize = 0;
    let mut decs: usize = 0;
    proof {
        lemma_first_dot_bounds(t, 0);
    }
    while j < n
        invariant
            j <= n,
            n == t.len(),
            start + n == end <= byte_array@.len(),
            t == byte_array@.subrange(start as int, end as int),
            f1 == (forall|i: int| 1 <= i < j ==> is_digit_or_dot(#[trigger] t[i])),
            f1p == (forall|i: int| 1 <= i < j - 1 ==> is_digit_or_dot(#[trigger] t[i])),
            dots == count_byte(t.take(j as int), 46),
            found == (first_dot(t, 0) < j),
            found ==> fd == first_dot(t, 0) && fd < j,
            !found ==> first_dot(t, 0) == first_dot(t, j as int),
            ints == digit_count(t.take(if found { fd as int } else { j as int })),
            found ==> decs == digit_count(t.subrange(fd as int + 1, j as int)),
            !found ==> decs == 0,
        decreases n - j,
    {
        let b = byte_array[start + j];
        let ghost found0 = found;
        proof {
            assert(t[j as int] == byte_array@[start as int + j]);
            lemma_count_byte_take_step(t, j as int, 46);
            lemma_count_byte_le_len_local(t.take(j as int));
            if b == 46 {
                if !found {
                    assert(first_dot(t, j as int) == j as int);
                }
            } else {
                if !found {
                    assert(first_dot(t, j as int) == first_dot(t, j as int + 1));
                    lemma_first_dot_bounds(t, j as int + 1);
                }
            }
        }
        f1p = f1;
        if j >= 1 {
            f1 = f1 && (48 <= b && b <= 57 || b == 46);
        }
        if b == 46 {
            if !found {
                found = true;
                fd = j;
            } else {
                proof {
                    lemma_digit_count_subrange_step(t, fd as int + 1, j as int);
                }
            }
            dots = dots + 1;
        } else {
            if !found {
                proof {
                    lemma_digit_count_take_step(t, j as int);
                    lemma_digit_count_le_len(t.take(j as int));
                }
                if 48 <= b && b <= 57 {
                    ints = ints + 1;
                }
            } else {
                proof {
                    lemma_digit_count_subrange_step(t, fd as int + 1, j as int);
                    lemma_digit_count_le_len(t.subrange(fd as int + 1, j as int));
                }
                if 48 <= b && b <= 57 {
                    decs = decs + 1;
                }
            }
        }
        proof {
            if found && fd as int == j as int {
                assert(t.subrange(fd as int + 1, j as int + 1) =~= t.subrange(
                    fd as int + 1,
                    fd as int + 1,
                ));
            }
        }
        j = j + 1;
    }
    proof {
        assert(t.take(n as int) =~= t);
        if !found {
            lemma_first_dot_bounds(t, n as int);
            assert(first_dot(t, n as int) == t.len());
        }
        if found {
            assert(t.subrange(fd as int + 1, n as int) =~= t.subrange(
                first_dot(t, 0) + 1,
                t.len() as int,
            ));
        }
    }
    // assemble the grammar verdict from the scanned flags
    let has_paren: bool = n >= 2 && byte_array[start] == 40 && byte_array[start + n - 1] == 41;
    let has_minus: bool = n >= 1 && byte_array[start] == 45;
    let d0: bool = n >= 1 && {
        let b0 = byte_array[start];
        48 <= b0 && b0 <= 57 || b0 == 46
    };
    let mid_ok: bool = if has_paren {
        f1p
    } else if has_minus {
        f1
    } else if n == 0 {
        true
    } else {
        f1 && d0
    };
    let ends_ok: bool = n == 0 || (byte_array[start] != 46 && byte_array[start + n - 1] != 46);
    let is_num = mid_ok && dots <= 1 && ends_ok;
    proof {
        assert(t.len() >= 1 ==> t[0] == byte_array@[start as int]);
        assert(t.len() >= 1 ==> t[t.len() - 1] == byte_array@[start as int + n - 1]);
        if has_paren {
            assert(mid_ok == (forall|i: int| 1 <= i < n - 1 ==> is_digit_or_dot(#[trigger] t[i])));
        }
        assert(is_num == is_numeric_token(t));
    }
    (is_num, ints, decs)
}

proof fn lemma_count_byte_le_len_local(s: Seq<u8>)
    ensures
        count_byte(s, 46) <= s.len(),
{
    crate::scan::lemma_count_byte_le_len(s, 46);
}

} // verus!
