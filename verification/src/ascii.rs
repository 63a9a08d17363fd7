//! The ASCII bytes that the control-sequence grammar is made of.

use vstd::prelude::*;

verus! {

/// The escape marker that introduces a control sequence.
pub const ESCAPE: u8 = 0x1b;

/// `[`, the byte that must follow the escape marker.
pub const OPEN_BRACKET: u8 = 0x5b;

/// `;`, the separator between numeric values.
pub const SEMICOLON: u8 = 0x3b;

/// `0`
pub const DIGIT_0: u8 = 0x30;

/// `2`
pub const DIGIT_2: u8 = 0x32;

/// `9`
pub const DIGIT_9: u8 = 0x39;

/// `A`, which ends a cursor-up sequence.
pub const UPPER_A: u8 = 0x41;

/// `B`, which ends a cursor-down sequence.
pub const UPPER_B: u8 = 0x42;

/// `C`, which ends a cursor-forward sequence.
pub const UPPER_C: u8 = 0x43;

/// `D`, which ends a cursor-backward sequence.
pub const UPPER_D: u8 = 0x44;

/// `H`, which ends a cursor-position sequence.
pub const UPPER_H: u8 = 0x48;

/// `J`, which ends the erase-display sequence.
pub const UPPER_J: u8 = 0x4a;

/// `K`, which ends the erase-line sequence.
pub const UPPER_K: u8 = 0x4b;

/// `f`, which ends a cursor-position sequence like `H`.
pub const LOWER_F: u8 = 0x66;

/// `m`, which ends a graphic-mode sequence.
pub const LOWER_M: u8 = 0x6d;

/// `s`, which ends the save-cursor sequence.
pub const LOWER_S: u8 = 0x73;

/// `u`, which ends the restore-cursor sequence.
pub const LOWER_U: u8 = 0x75;

/// True for the ASCII digits `0` to `9`.
pub open spec fn is_digit(byte: u8) -> bool {
    DIGIT_0 <= byte <= DIGIT_9
}

/// True for the bytes that may occur in a recognized control sequence after
/// the escape marker: `[`, digits, `;` and the final letters.
pub open spec fn is_sequence_byte(byte: u8) -> bool {
    ||| byte == OPEN_BRACKET
    ||| byte == SEMICOLON
    ||| is_digit(byte)
    ||| is_final_byte(byte)
}

/// True for the letters that end a control sequence.
pub open spec fn is_final_byte(byte: u8) -> bool {
    ||| byte == UPPER_A
    ||| byte == UPPER_B
    ||| byte == UPPER_C
    ||| byte == UPPER_D
    ||| byte == UPPER_H
    ||| byte == UPPER_J
    ||| byte == UPPER_K
    ||| byte == LOWER_F
    ||| byte == LOWER_M
    ||| byte == LOWER_S
    ||| byte == LOWER_U
}

/// Tells whether a byte is an ASCII digit.
pub(crate) fn byte_is_digit(byte: u8) -> (res: bool)
    ensures
        res == is_digit(byte),
{
    DIGIT_0 <= byte && byte <= DIGIT_9
}

} // verus!
