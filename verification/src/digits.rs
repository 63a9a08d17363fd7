//! Decimal numbers written as runs of ASCII digits.

use crate::ascii::{byte_is_digit, is_digit, DIGIT_0};
use vstd::prelude::*;

verus! {

/// The number that a run of ASCII digits denotes in base ten; the empty run
/// denotes zero.
pub open spec fn decimal_value(digits: Seq<u8>) -> nat
    decreases digits.len(),
{
    if digits.len() == 0 {
        0
    } else {
        10 * decimal_value(digits.drop_last()) + (digits.last() - DIGIT_0) as nat
    }
}

/// The end of the longest run of digits of `bytes` that starts at `from`:
/// the index of the first byte at or after `from` that is no digit, or the
/// length of `bytes` if there is none.
pub open spec fn digit_run_end(bytes: Seq<u8>, from: int) -> int
    decreases bytes.len() - from,
{
    if 0 <= from < bytes.len() && is_digit(bytes[from]) {
        digit_run_end(bytes, from + 1)
    } else {
        from
    }
}

/// The value of a run of digits as an unsigned integer. An empty run has no
/// value, and neither has a run whose number does not fit in `usize`.
pub open spec fn parse_value(digits: Seq<u8>) -> Option<usize> {
    if digits.len() > 0 && decimal_value(digits) <= usize::MAX {
        Some(decimal_value(digits) as usize)
    } else {
        None
    }
}

/// `digit_run_end` is characterized by three facts: it lies at or after
/// `from`, every byte before it is a digit, and the byte at it is not.
pub proof fn lemma_digit_run_end(bytes: Seq<u8>, from: int)
    requires
        0 <= from <= bytes.len(),
    ensures
        from <= digit_run_end(bytes, from) <= bytes.len(),
        forall|k: int| from <= k < digit_run_end(bytes, from) ==> is_digit(#[trigger] bytes[k]),
        digit_run_end(bytes, from) < bytes.len() ==> !is_digit(bytes[digit_run_end(bytes, from)]),
    decreases bytes.len() - from,
{
    if from < bytes.len() && is_digit(bytes[from]) {
        lemma_digit_run_end(bytes, from + 1);
    }
}

/// Any index with the three facts of `lemma_digit_run_end` is the end of the
/// run.
pub proof fn lemma_digit_run_end_unique(bytes: Seq<u8>, from: int, end: int)
    requires
        0 <= from <= end <= bytes.len(),
        forall|k: int| from <= k < end ==> is_digit(#[trigger] bytes[k]),
        end < bytes.len() ==> !is_digit(bytes[end]),
    ensures
        digit_run_end(bytes, from) == end,
    decreases end - from,
{
    if from < end {
        assert(is_digit(bytes[from]));
        lemma_digit_run_end_unique(bytes, from + 1, end);
    }
}

/// Appending a digit multiplies the value by ten and adds the digit.
pub proof fn lemma_decimal_value_push(digits: Seq<u8>, digit: u8)
    ensures
        decimal_value(digits.push(digit)) == 10 * decimal_value(digits) + (digit
            - DIGIT_0) as nat,
{
    assert(digits.push(digit).drop_last() =~= digits);
}

/// Reads the run of digits of `input[..len]` that starts at `from`. Returns
/// the index at which the run ends and the value of the run, if it has one.
pub(crate) fn read_value(input: &[u8], len: usize, from: usize) -> (res: (usize, Option<usize>))
    requires
        from <= len <= input@.len(),
    ensures
        from <= res.0 <= len,
        res.0 == digit_run_end(input@.subrange(0, len as int), from as int),
        res.1 == parse_value(input@.subrange(from as int, res.0 as int)),
{
    let ghost bytes = input@.subrange(0, len as int);
    let mut end: usize = from;
    let mut value: usize = 0;
    let mut fits: bool = true;
    while end < len && byte_is_digit(input[end])
        invariant
            from <= end <= len <= input@.len(),
            bytes == input@.subrange(0, len as int),
            forall|k: int| from <= k < end ==> is_digit(#[trigger] bytes[k]),
            fits ==> value == decimal_value(input@.subrange(from as int, end as int)),
            !fits ==> decimal_value(input@.subrange(from as int, end as int)) > usize::MAX,
        decreases len - end,
    {
        let digit: usize = (input[end] - DIGIT_0) as usize;
        proof {
            let run = input@.subrange(from as int, end as int);
            assert(input@.subrange(from as int, end + 1) =~= run.push(input@[end as int]));
            lemma_decimal_value_push(run, input@[end as int]);
        }
        if fits {
            match value.checked_mul(10) {
                Some(tens) => match tens.checked_add(digit) {
                    Some(next) => {
                        value = next;
                    },
                    None => {
                        fits = false;
                    },
                },
                None => {
                    fits = false;
                },
            }
        }
        end += 1;
    }
    proof {
        lemma_digit_run_end_unique(bytes, from as int, end as int);
    }
    if fits && end > from {
        (end, Some(value))
    } else {
        (end, None)
    }
}

} // verus!
