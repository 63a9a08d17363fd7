//! Cutting a string at byte offsets.
//!
//! A `str` can only be cut where a character begins. The scanner cuts at
//! escape markers and behind the final letters of control sequences, all of
//! which are ASCII; this module proves that such places are character
//! boundaries of the UTF-8 encoding and cuts there.

use vstd::prelude::*;
use vstd::string::StringSliceAdditionalSpecFns;
use vstd::utf8::*;

verus! {

/// True for the bytes that encode an ASCII character by themselves.
pub open spec fn is_ascii_byte(byte: u8) -> bool {
    byte <= 0x7f
}

/// In valid UTF-8 a character begins at every ASCII byte.
pub proof fn lemma_boundary_at_ascii(bytes: Seq<u8>, index: int)
    requires
        valid_utf8(bytes),
        0 <= index < bytes.len(),
        is_ascii_byte(bytes[index]),
    ensures
        is_char_boundary(bytes, index),
{
    is_char_boundary_iff_not_is_continuation_byte(bytes, index);
}

/// In valid UTF-8 a character ends with every ASCII byte: the index behind
/// it is a character boundary.
pub proof fn lemma_boundary_after_ascii(bytes: Seq<u8>, index: int)
    requires
        valid_utf8(bytes),
        0 < index <= bytes.len(),
        is_ascii_byte(bytes[index - 1]),
    ensures
        is_char_boundary(bytes, index),
{
    if index == bytes.len() {
        is_char_boundary_start_end_of_seq(bytes);
    } else {
        lemma_boundary_at_ascii(bytes, index - 1);
        valid_utf8_split(bytes, index - 1);
        let tail = bytes.subrange(index - 1, bytes.len() as int);
        assert(is_leading_byte_width_1(tail[0]));
        let rest = pop_first_scalar(tail);
        assert(valid_utf8(rest));
        assert(rest =~= bytes.subrange(index, bytes.len() as int));
        assert(valid_first_scalar(rest));
        assert(rest[0] == bytes[index]);
        is_char_boundary_iff_not_is_continuation_byte(bytes, index);
    }
}

/// A character boundary of a buffer is one of each prefix that ends at a
/// character boundary behind it, and such a prefix is valid UTF-8.
pub proof fn lemma_boundary_in_prefix(bytes: Seq<u8>, start: int, end: int)
    requires
        valid_utf8(bytes),
        0 <= start <= end <= bytes.len(),
        is_char_boundary(bytes, start),
        is_char_boundary(bytes, end),
    ensures
        valid_utf8(bytes.subrange(0, end)),
        is_char_boundary(bytes.subrange(0, end), start),
{
    let prefix = bytes.subrange(0, end);
    valid_utf8_split(bytes, end);
    if start == end {
        is_char_boundary_start_end_of_seq(prefix);
    } else {
        is_char_boundary_iff_not_is_continuation_byte(bytes, start);
        is_char_boundary_iff_not_is_continuation_byte(prefix, start);
    }
}

/// The part of `input` between the byte offsets `start` and `end`, borrowed
/// from `input`.
pub(crate) fn text_between<'a>(input: &'a str, start: usize, end: usize) -> (text: &'a str)
    requires
        start <= end <= input.spec_bytes().len(),
        is_char_boundary(input.spec_bytes(), start as int),
        is_char_boundary(input.spec_bytes(), end as int),
    ensures
        text.spec_bytes() == input.spec_bytes().subrange(start as int, end as int),
{
    proof {
        encode_utf8_valid_utf8(input@);
        lemma_boundary_in_prefix(input.spec_bytes(), start as int, end as int);
    }
    let (head, _) = input.split_at(end);
    let (_, text) = head.split_at(start);
    assert(text.spec_bytes() =~= input.spec_bytes().subrange(start as int, end as int));
    text
}

} // verus!
