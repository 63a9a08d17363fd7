//! The scanner that splits a buffer into text and control tokens.
//!
//! A token starts at the beginning of the buffer, behind each control
//! sequence and at each escape marker. Where an escape marker starts a
//! sequence of the grammar, the token is that sequence. Anywhere else the
//! token is the text up to the next escape marker, so a marker that starts no
//! sequence is the first byte of a text token.

use crate::ascii::{is_sequence_byte, ESCAPE};
use crate::boundary::{lemma_boundary_after_ascii, lemma_boundary_at_ascii, text_between};
use crate::control::Command;
use crate::sequence::{lemma_recognize_shape, parse_seq, recognize};
use crate::token::{views, OutputStream, Token};
use vstd::prelude::*;
use vstd::string::StringSliceAdditionalSpecFns;
use vstd::utf8::*;

verus! {

/// A token together with the place in the buffer that it was read from: the
/// bytes from `start` up to, not including, `end`.
pub struct Piece {
    pub start: int,
    pub end: int,
    pub token: Token,
}

impl Piece {
    /// The bytes of the buffer that the piece was read from.
    pub open spec fn source(self, bytes: Seq<u8>) -> Seq<u8> {
        bytes.subrange(self.start, self.end)
    }
}

/// The index of the first escape marker at or after `from`, or the length of
/// `bytes` if there is none.
pub open spec fn next_escape(bytes: Seq<u8>, from: int) -> int
    decreases bytes.len() - from,
{
    if 0 <= from < bytes.len() && bytes[from] != ESCAPE {
        next_escape(bytes, from + 1)
    } else {
        from
    }
}

/// The control sequence that starts at index `at`: what the bytes behind
/// an escape marker at `at` are recognized as. `None` where `at` holds no
/// escape marker or no sequence follows it.
pub open spec fn control_at(bytes: Seq<u8>, at: int) -> Option<(int, Command)> {
    if 0 <= at < bytes.len() && bytes[at] == ESCAPE {
        recognize(bytes.subrange(at + 1, bytes.len() as int))
    } else {
        None
    }
}

/// The piece that starts at index `at`: the control sequence there, or else
/// the text from `at` up to the next escape marker behind `at`.
#[verifier::opaque]
pub open spec fn piece_at(bytes: Seq<u8>, at: int) -> Piece {
    match control_at(bytes, at) {
        Some((last, command)) => Piece {
            start: at,
            end: at + last + 2,
            token: Token::Control(command),
        },
        None => {
            let end = next_escape(bytes, at + 1);
            Piece { start: at, end, token: Token::Text(bytes.subrange(at, end)) }
        },
    }
}

/// The pieces of `bytes` from index `from` on, in order.
pub open spec fn pieces_from(bytes: Seq<u8>, from: int) -> Seq<Piece>
    decreases bytes.len() - from,
{
    if 0 <= from < bytes.len() {
        proof {
            lemma_piece_at_bounds(bytes, from);
        }
        seq![piece_at(bytes, from)] + pieces_from(bytes, piece_at(bytes, from).end)
    } else {
        Seq::empty()
    }
}

/// The pieces that the scanner splits `bytes` into.
pub open spec fn pieces(bytes: Seq<u8>) -> Seq<Piece> {
    pieces_from(bytes, 0)
}

/// The tokens of a sequence of pieces.
pub open spec fn tokens_of(pieces: Seq<Piece>) -> Seq<Token> {
    pieces.map_values(|piece: Piece| piece.token)
}

/// The tokens that the scanner splits `bytes` into.
pub open spec fn tokens(bytes: Seq<u8>) -> Seq<Token> {
    tokens_of(pieces(bytes))
}

/// `next_escape` lies at or after `from` and inside the buffer, no byte
/// before it is an escape marker, and the byte at it is one.
pub proof fn lemma_next_escape(bytes: Seq<u8>, from: int)
    requires
        0 <= from <= bytes.len(),
    ensures
        from <= next_escape(bytes, from) <= bytes.len(),
        forall|k: int| from <= k < next_escape(bytes, from) ==> #[trigger] bytes[k] != ESCAPE,
        next_escape(bytes, from) < bytes.len() ==> bytes[next_escape(bytes, from)] == ESCAPE,
    decreases bytes.len() - from,
{
    if from < bytes.len() && bytes[from] != ESCAPE {
        lemma_next_escape(bytes, from + 1);
    }
}

/// Any index with the three facts of `lemma_next_escape` is the next escape
/// marker.
pub proof fn lemma_next_escape_unique(bytes: Seq<u8>, from: int, end: int)
    requires
        0 <= from <= end <= bytes.len(),
        forall|k: int| from <= k < end ==> #[trigger] bytes[k] != ESCAPE,
        end < bytes.len() ==> bytes[end] == ESCAPE,
    ensures
        next_escape(bytes, from) == end,
    decreases end - from,
{
    if from < end {
        assert(bytes[from] != ESCAPE);
        lemma_next_escape_unique(bytes, from + 1, end);
    }
}

/// A piece is not empty and lies inside the buffer. A control piece holds
/// the escape marker and bytes of the grammar, the last of them a final
/// letter; a text piece holds no escape marker behind its first byte and
/// ends at one or at the end of the buffer.
pub proof fn lemma_piece_at_bounds(bytes: Seq<u8>, at: int)
    requires
        0 <= at < bytes.len(),
    ensures
        piece_at(bytes, at).start == at,
        at < piece_at(bytes, at).end <= bytes.len(),
        forall|k: int| at < k < piece_at(bytes, at).end ==> #[trigger] bytes[k] != ESCAPE,
        piece_at(bytes, at).token is Control ==> bytes[at] == ESCAPE && forall|k: int|
            at < k < piece_at(bytes, at).end ==> is_sequence_byte(#[trigger] bytes[k]),
        piece_at(bytes, at).token is Text ==> piece_at(bytes, at).end == bytes.len()
            || bytes[piece_at(bytes, at).end] == ESCAPE,
{
    reveal(piece_at);
    match control_at(bytes, at) {
        Some((last, command)) => {
            let rest = bytes.subrange(at + 1, bytes.len() as int);
            lemma_recognize_shape(rest);
            assert forall|k: int| at < k < at + last + 2 implies is_sequence_byte(
                #[trigger] bytes[k],
            ) by {
                assert(is_sequence_byte(rest[k - at - 1]));
            }
        },
        None => {
            lemma_next_escape(bytes, at + 1);
        },
    }
}

/// The piece at `at` is text that ends at `end` if no control sequence
/// starts at `at`, no escape marker lies between the two, and `end` is an
/// escape marker or the end of the buffer.
pub proof fn lemma_text_piece(bytes: Seq<u8>, at: int, end: int)
    requires
        0 <= at < end <= bytes.len(),
        control_at(bytes, at) is None,
        forall|k: int| at < k < end ==> #[trigger] bytes[k] != ESCAPE,
        end < bytes.len() ==> bytes[end] == ESCAPE,
    ensures
        piece_at(bytes, at) == (Piece {
            start: at,
            end,
            token: Token::Text(bytes.subrange(at, end)),
        }),
{
    reveal(piece_at);
    lemma_next_escape_unique(bytes, at + 1, end);
}

/// The piece at `at` is the control sequence that starts there, if one
/// does. It ends behind the final byte of the sequence.
pub proof fn lemma_control_piece(bytes: Seq<u8>, at: int)
    requires
        control_at(bytes, at) is Some,
    ensures
        ({
            let (last, command) = control_at(bytes, at)->0;
            piece_at(bytes, at) == (Piece {
                start: at,
                end: at + last + 2,
                token: Token::Control(command),
            })
        }),
{
    reveal(piece_at);
}

/// The pieces from `from` on are the piece at `from` and the pieces from its
/// end on.
pub proof fn lemma_pieces_from_step(bytes: Seq<u8>, from: int)
    requires
        0 <= from < bytes.len(),
    ensures
        pieces_from(bytes, from) == seq![piece_at(bytes, from)] + pieces_from(
            bytes,
            piece_at(bytes, from).end,
        ),
        tokens_of(pieces_from(bytes, from)) == seq![piece_at(bytes, from).token] + tokens_of(
            pieces_from(bytes, piece_at(bytes, from).end),
        ),
{
    let piece = piece_at(bytes, from);
    let rest = pieces_from(bytes, piece.end);
    assert(tokens_of(seq![piece] + rest) =~= seq![piece.token] + tokens_of(rest));
}

/// Splits `input` into text and control tokens, in the order of the input.
/// A text token borrows its text from `input`.
pub fn parse_str<'a>(input: &'a str) -> (res: Vec<OutputStream<'a>>)
    ensures
        views(res@) == tokens(input.spec_bytes()),
{
    let bytes = input.as_bytes();
    let len = bytes.len();
    let mut res: Vec<OutputStream<'a>> = Vec::new();
    let mut idx: usize = 0;
    let mut watch: usize = 0;
    proof {
        encode_utf8_valid_utf8(input@);
        is_char_boundary_start_end_of_seq(bytes@);
        assert(views(res@) + tokens(bytes@) =~= tokens(bytes@));
    }
    while idx < len
        invariant
            bytes@ == input.spec_bytes(),
            len == bytes@.len(),
            valid_utf8(bytes@),
            watch <= idx <= len,
            is_char_boundary(bytes@, watch as int),
            forall|k: int| watch < k < idx ==> #[trigger] bytes@[k] != ESCAPE,
            watch < idx ==> control_at(bytes@, watch as int) is None,
            views(res@) + tokens_of(pieces_from(bytes@, watch as int)) == tokens(bytes@),
        decreases len - idx,
    {
        if bytes[idx] != ESCAPE {
            idx += 1;
        } else {
            proof {
                lemma_boundary_at_ascii(bytes@, idx as int);
            }
            if idx != watch {
                let text = text_between(input, watch, idx);
                proof {
                    lemma_text_piece(bytes@, watch as int, idx as int);
                    lemma_emit(bytes@, watch as int, res@, OutputStream::Text(text));
                }
                res.push(OutputStream::Text(text));
                watch = idx;
            }
            let rest = &bytes[idx + 1..len];
            assert(rest@.subrange(0, rest@.len() as int) =~= bytes@.subrange(idx + 1, len as int));
            match parse_seq(rest, rest.len()) {
                None => {
                    idx += 1;
                },
                Some((last, command)) => {
                    proof {
                        lemma_control_piece(bytes@, idx as int);
                        lemma_emit(bytes@, idx as int, res@, OutputStream::Control(command));
                        assert(bytes@[idx + last + 1] == rest@[last as int]);
                        lemma_boundary_after_ascii(bytes@, idx + last + 2);
                    }
                    res.push(OutputStream::Control(command));
                    idx += last + 2;
                    watch = idx;
                },
            }
        }
    }
    if watch != len {
        let text = text_between(input, watch, len);
        proof {
            lemma_text_piece(bytes@, watch as int, len as int);
            lemma_emit(bytes@, watch as int, res@, OutputStream::Text(text));
        }
        res.push(OutputStream::Text(text));
    }
    assert(views(res@) + tokens_of(pieces_from(bytes@, len as int)) =~= views(res@));
    res
}

/// Emitting the token of the piece at `at` leaves the tokens of the pieces
/// from its end on to be emitted.
proof fn lemma_emit<'a>(
    bytes: Seq<u8>,
    at: int,
    emitted: Seq<OutputStream<'a>>,
    token: OutputStream<'a>,
)
    requires
        0 <= at < bytes.len(),
        token@ == piece_at(bytes, at).token,
    ensures
        views(emitted.push(token)) + tokens_of(pieces_from(bytes, piece_at(bytes, at).end))
            == views(emitted) + tokens_of(pieces_from(bytes, at)),
{
    let rest = tokens_of(pieces_from(bytes, piece_at(bytes, at).end));
    lemma_pieces_from_step(bytes, at);
    assert(views(emitted.push(token)) =~= views(emitted).push(token@));
    assert(views(emitted).push(token@) + rest =~= views(emitted) + (seq![token@] + rest));
}

} // verus!
