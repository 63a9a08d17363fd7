//! The recognizer for a single control sequence.
//!
//! The grammar, over the bytes that follow the escape marker:
//!
//! ```text
//! sequence := '[' ( 'H' | 'f' | 's' | 'u' | 'K' | '2' 'J'
//!                 | value ( 'A' | 'B' | 'C' | 'D' | 'm' )
//!                 | value ';' rest )
//! rest     := digits ';' rest | digits 'm' | digits ( 'H' | 'f' )
//! ```
//!
//! where `value` is a non-empty run of digits that fits in `usize`. Inside
//! `rest` every run that is closed by `;` or `m` must be such a value too. A
//! cursor position takes its row and column from the first two values of the
//! list and does not look at what follows them.

use crate::ascii::{
    byte_is_digit, is_digit, is_final_byte, is_sequence_byte, DIGIT_2, LOWER_F, LOWER_M, LOWER_S,
    LOWER_U, OPEN_BRACKET, SEMICOLON, UPPER_A, UPPER_B, UPPER_C, UPPER_D, UPPER_H, UPPER_J,
    UPPER_K,
};
use crate::control::{Command, ControlSeq};
use crate::digits::{
    digit_run_end, lemma_digit_run_end, lemma_digit_run_end_unique, parse_value, read_value,
};
use vstd::prelude::*;

verus! {

/// What the bytes after an escape marker are recognized as: the index of the
/// final byte of the sequence and the command, or `None` where the bytes do
/// not start with a sequence of the grammar.
pub open spec fn recognize(bytes: Seq<u8>) -> Option<(int, Command)> {
    if bytes.len() < 2 || bytes[0] != OPEN_BRACKET {
        None
    } else if bytes[1] == UPPER_H || bytes[1] == LOWER_F {
        Some((1, Command::CursorPositionTopLeft))
    } else if bytes[1] == LOWER_S {
        Some((1, Command::SaveCursorPosition))
    } else if bytes[1] == LOWER_U {
        Some((1, Command::RestoreCursorPosition))
    } else if bytes[1] == UPPER_K {
        Some((1, Command::EraseLine))
    } else if bytes[1] == DIGIT_2 && bytes.len() > 2 && bytes[2] == UPPER_J {
        Some((2, Command::EraseDisplay))
    } else if is_digit(bytes[1]) {
        recognize_first_value(bytes)
    } else {
        None
    }
}

/// The sequences that begin with a numeric value: the run of digits that
/// starts at index 1 and the byte that closes it decide.
pub open spec fn recognize_first_value(bytes: Seq<u8>) -> Option<(int, Command)> {
    let end = digit_run_end(bytes, 1);
    if end >= bytes.len() {
        None
    } else {
        match parse_value(bytes.subrange(1, end)) {
            None => None,
            Some(value) => {
                if bytes[end] == UPPER_A {
                    Some((end, Command::CursorUp(value)))
                } else if bytes[end] == UPPER_B {
                    Some((end, Command::CursorDown(value)))
                } else if bytes[end] == UPPER_C {
                    Some((end, Command::CursorForward(value)))
                } else if bytes[end] == UPPER_D {
                    Some((end, Command::CursorBackward(value)))
                } else if bytes[end] == LOWER_M {
                    Some((end, Command::SetGraphicMode(seq![value])))
                } else if bytes[end] == SEMICOLON {
                    recognize_more_values(bytes, end + 1, seq![value])
                } else {
                    None
                }
            },
        }
    }
}

/// The sequences with a list of values, once `values` have been read and
/// closed by `;`: the run of digits that starts at `from` and the byte that
/// closes it decide.
///
/// At `H` or `f` the list needs two values. The run before the final byte
/// counts as one if it is a value; where the list has two values without it,
/// it is not looked at.
pub open spec fn recognize_more_values(bytes: Seq<u8>, from: int, values: Seq<usize>) -> Option<
    (int, Command),
>
    decreases bytes.len() - from,
{
    let end = digit_run_end(bytes, from);
    let value = parse_value(bytes.subrange(from, end));
    if !(0 <= from <= end < bytes.len()) {
        None
    } else if bytes[end] == SEMICOLON {
        match value {
            Some(v) => recognize_more_values(bytes, end + 1, values.push(v)),
            None => None,
        }
    } else if bytes[end] == LOWER_M {
        match value {
            Some(v) => Some((end, Command::SetGraphicMode(values.push(v)))),
            None => None,
        }
    } else if bytes[end] == UPPER_H || bytes[end] == LOWER_F {
        let given = match value {
            Some(v) => values.push(v),
            None => values,
        };
        if given.len() >= 2 {
            Some((end, Command::CursorPositionYX(given[0], given[1])))
        } else {
            None
        }
    } else {
        None
    }
}

/// What holds of every recognized list sequence: its final byte lies at or
/// after `from` and inside the buffer, it is one of the final letters, the
/// bytes from `from` up to it are bytes of the grammar, and a graphic-mode
/// command has at least one value.
pub proof fn lemma_more_values_shape(bytes: Seq<u8>, from: int, values: Seq<usize>)
    requires
        0 <= from <= bytes.len(),
        recognize_more_values(bytes, from, values) is Some,
    ensures
        ({
            let (last, command) = recognize_more_values(bytes, from, values)->0;
            &&& from <= last < bytes.len()
            &&& is_final_byte(bytes[last])
            &&& forall|k: int| from <= k <= last ==> is_sequence_byte(#[trigger] bytes[k])
            &&& command.well_formed()
        }),
    decreases bytes.len() - from,
{
    let end = digit_run_end(bytes, from);
    lemma_digit_run_end(bytes, from);
    if bytes[end] == SEMICOLON {
        let v = parse_value(bytes.subrange(from, end))->0;
        lemma_more_values_shape(bytes, end + 1, values.push(v));
    }
}

/// What holds of every recognized sequence: its final byte lies after the
/// opening bracket and inside the buffer, it is one of the final letters,
/// every byte up to it is a byte of the grammar, and a graphic-mode command
/// has at least one value.
pub proof fn lemma_recognize_shape(bytes: Seq<u8>)
    requires
        recognize(bytes) is Some,
    ensures
        ({
            let (last, command) = recognize(bytes)->0;
            &&& 1 <= last < bytes.len()
            &&& is_final_byte(bytes[last])
            &&& forall|k: int| 0 <= k <= last ==> is_sequence_byte(#[trigger] bytes[k])
            &&& command.well_formed()
        }),
{
    if is_digit(bytes[1]) && !(bytes[1] == DIGIT_2 && bytes.len() > 2 && bytes[2] == UPPER_J) {
        let end = digit_run_end(bytes, 1);
        lemma_digit_run_end(bytes, 1);
        if bytes[end] == SEMICOLON {
            let v = parse_value(bytes.subrange(1, end))->0;
            lemma_more_values_shape(bytes, end + 1, seq![v]);
        }
    }
}

/// A run of digits that ends inside a common prefix of two buffers ends at
/// the same index in both.
proof fn lemma_digit_run_end_prefix(bytes: Seq<u8>, other: Seq<u8>, from: int, common: int)
    requires
        0 <= from <= common,
        common <= bytes.len(),
        common <= other.len(),
        bytes.subrange(0, common) == other.subrange(0, common),
        digit_run_end(bytes, from) < common,
    ensures
        digit_run_end(other, from) == digit_run_end(bytes, from),
        other.subrange(from, digit_run_end(bytes, from)) == bytes.subrange(
            from,
            digit_run_end(bytes, from),
        ),
{
    let end = digit_run_end(bytes, from);
    lemma_digit_run_end(bytes, from);
    assert forall|k: int| 0 <= k < common implies other[k] == bytes[k] by {
        assert(bytes.subrange(0, common)[k] == bytes[k]);
        assert(other.subrange(0, common)[k] == other[k]);
    }
    lemma_digit_run_end_unique(other, from, end);
    assert(other.subrange(from, end) =~= bytes.subrange(from, end));
}

/// Recognition of a list sequence reads no byte after the final one.
proof fn lemma_more_values_prefix(bytes: Seq<u8>, other: Seq<u8>, from: int, values: Seq<usize>)
    requires
        0 <= from <= bytes.len(),
        recognize_more_values(bytes, from, values) is Some,
        ({
            let last = recognize_more_values(bytes, from, values).unwrap().0;
            &&& last < other.len()
            &&& other.subrange(0, last + 1) == bytes.subrange(0, last + 1)
        }),
    ensures
        recognize_more_values(other, from, values) == recognize_more_values(bytes, from, values),
    decreases bytes.len() - from,
{
    let last = recognize_more_values(bytes, from, values).unwrap().0;
    let end = digit_run_end(bytes, from);
    lemma_digit_run_end(bytes, from);
    lemma_more_values_shape(bytes, from, values);
    if bytes[end] == SEMICOLON {
        let v = parse_value(bytes.subrange(from, end))->0;
        lemma_more_values_shape(bytes, end + 1, values.push(v));
        lemma_more_values_prefix(bytes, other, end + 1, values.push(v));
    }
    lemma_digit_run_end_prefix(bytes, other, from, last + 1);
    assert(other[end] == bytes[end]) by {
        assert(other.subrange(0, last + 1)[end] == bytes.subrange(0, last + 1)[end]);
    }
}

/// Recognition reads no byte after the final one: a buffer that agrees with
/// `bytes` up to the final byte of its sequence is recognized as the same.
pub proof fn lemma_recognize_prefix(bytes: Seq<u8>, other: Seq<u8>)
    requires
        recognize(bytes) is Some,
        ({
            let last = recognize(bytes).unwrap().0;
            &&& last < other.len()
            &&& other.subrange(0, last + 1) == bytes.subrange(0, last + 1)
        }),
    ensures
        recognize(other) == recognize(bytes),
{
    let last = recognize(bytes).unwrap().0;
    lemma_recognize_shape(bytes);
    assert forall|k: int| 0 <= k <= last implies other[k] == bytes[k] by {
        assert(other.subrange(0, last + 1)[k] == bytes.subrange(0, last + 1)[k]);
    }
    if is_digit(bytes[1]) && !(bytes[1] == DIGIT_2 && bytes.len() > 2 && bytes[2] == UPPER_J) {
        let end = digit_run_end(bytes, 1);
        lemma_digit_run_end(bytes, 1);
        if bytes[end] == SEMICOLON {
            let v = parse_value(bytes.subrange(1, end))->0;
            lemma_more_values_shape(bytes, end + 1, seq![v]);
            lemma_more_values_prefix(bytes, other, end + 1, seq![v]);
        }
        lemma_digit_run_end_prefix(bytes, other, 1, last + 1);
        if bytes[1] == DIGIT_2 {
            assert(other.len() > 2 ==> other[2] != UPPER_J);
        }
    }
}

/// Recognizes one control sequence in `input[..len]`, the bytes that follow
/// an escape marker. Returns the index of the sequence's final byte and its
/// command, or `None` if the bytes do not start with a sequence.
pub fn parse_seq(input: &[u8], len: usize) -> (res: Option<(usize, ControlSeq)>)
    requires
        len <= input@.len(),
    ensures
        match res {
            Some((last, command)) => recognize(input@.subrange(0, len as int)) == Some(
                (last as int, command@),
            ),
            None => recognize(input@.subrange(0, len as int)) is None,
        },
        res matches Some((last, command)) ==> {
            &&& 1 <= last < len
            &&& is_final_byte(input@[last as int])
            &&& command@.well_formed()
        },
{
    let ghost bytes = input@.subrange(0, len as int);
    proof {
        if recognize(bytes) is Some {
            lemma_recognize_shape(bytes);
        }
    }
    if len < 2 || input[0] != OPEN_BRACKET {
        return None;
    }
    let first = input[1];
    if first == UPPER_H || first == LOWER_F {
        return Some((1, ControlSeq::CursorPositionTopLeft));
    }
    if first == LOWER_S {
        return Some((1, ControlSeq::SaveCursorPosition));
    }
    if first == LOWER_U {
        return Some((1, ControlSeq::RestoreCursorPosition));
    }
    if first == UPPER_K {
        return Some((1, ControlSeq::EraseLine));
    }
    if first == DIGIT_2 && len > 2 && input[2] == UPPER_J {
        return Some((2, ControlSeq::EraseDisplay));
    }
    if !byte_is_digit(first) {
        return None;
    }
    let (end, value) = read_value(input, len, 1);
    if end >= len {
        return None;
    }
    assert(input@.subrange(1, end as int) =~= bytes.subrange(1, end as int));
    let value = match value {
        Some(value) => value,
        None => {
            return None;
        },
    };
    let closing = input[end];
    if closing == UPPER_A {
        return Some((end, ControlSeq::CursorUp(value)));
    }
    if closing == UPPER_B {
        return Some((end, ControlSeq::CursorDown(value)));
    }
    if closing == UPPER_C {
        return Some((end, ControlSeq::CursorForward(value)));
    }
    if closing == UPPER_D {
        return Some((end, ControlSeq::CursorBackward(value)));
    }
    let mut values: Vec<usize> = Vec::new();
    values.push(value);
    if closing == LOWER_M {
        return Some((end, ControlSeq::SetGraphicMode(values)));
    }
    if closing != SEMICOLON {
        return None;
    }
    let mut from: usize = end + 1;
    loop
        invariant
            1 <= from <= len <= input@.len(),
            bytes == input@.subrange(0, len as int),
            recognize(bytes) == recognize_more_values(bytes, from as int, values@),
            recognize(bytes) matches Some((last, command)) ==> {
                &&& 1 <= last < len
                &&& is_final_byte(bytes[last])
                &&& command.well_formed()
            },
        decreases len - from,
    {
        let (end, value) = read_value(input, len, from);
        assert(input@.subrange(from as int, end as int) =~= bytes.subrange(
            from as int,
            end as int,
        ));
        if end >= len {
            return None;
        }
        let closing = input[end];
        if closing == SEMICOLON {
            match value {
                Some(value) => {
                    values.push(value);
                },
                None => {
                    return None;
                },
            }
            from = end + 1;
        } else if closing == LOWER_M {
            match value {
                Some(value) => {
                    values.push(value);
                    return Some((end, ControlSeq::SetGraphicMode(values)));
                },
                None => {
                    return None;
                },
            }
        } else if closing == UPPER_H || closing == LOWER_F {
            match value {
                Some(value) => {
                    values.push(value);
                },
                None => {},
            }
            if values.len() >= 2 {
                return Some((end, ControlSeq::CursorPositionYX(values[0], values[1])));
            } else {
                return None;
            }
        } else {
            return None;
        }
    }
}

} // verus!
