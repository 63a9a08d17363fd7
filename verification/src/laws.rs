//! Laws of the scanner: what holds of the pieces of every buffer.

use crate::ascii::ESCAPE;
use crate::control::Command;
use crate::sequence::{lemma_recognize_prefix, lemma_recognize_shape, recognize};
use crate::stream::{
    control_at, lemma_control_piece, lemma_next_escape, lemma_piece_at_bounds,
    lemma_pieces_from_step, lemma_text_piece, next_escape, piece_at, pieces, pieces_from, tokens,
    tokens_of, Piece,
};
use crate::token::Token;
use vstd::prelude::*;
use vstd::seq_lib::lemma_flatten_concat;

verus! {

/// The source bytes of each of a sequence of pieces.
pub open spec fn sources_of(bytes: Seq<u8>, pieces: Seq<Piece>) -> Seq<Seq<u8>> {
    pieces.map_values(|piece: Piece| piece.source(bytes))
}

/// True if `token` is what the scanner reads from the bytes `source`: a
/// text token holds just these bytes, and a control token holds the command
/// of the control sequence that they spell, escape marker first.
pub open spec fn token_reads(token: Token, source: Seq<u8>) -> bool {
    match token {
        Token::Text(text) => text == source,
        Token::Control(command) => {
            &&& source.len() >= 3
            &&& source[0] == ESCAPE
            &&& recognize(source.drop_first()) == Some((source.len() - 2, command))
        },
    }
}

/// The token of the piece at `at` is what the scanner reads from the
/// piece's source bytes alone.
pub proof fn lemma_piece_at_reads(bytes: Seq<u8>, at: int)
    requires
        0 <= at < bytes.len(),
    ensures
        token_reads(piece_at(bytes, at).token, piece_at(bytes, at).source(bytes)),
{
    let piece = piece_at(bytes, at);
    reveal(piece_at);
    lemma_piece_at_bounds(bytes, at);
    match control_at(bytes, at) {
        Some((last, command)) => {
            let rest = bytes.subrange(at + 1, bytes.len() as int);
            let body = piece.source(bytes).drop_first();
            lemma_recognize_shape(rest);
            assert(body =~= rest.subrange(0, last + 1));
            assert(body.subrange(0, last + 1) =~= rest.subrange(0, last + 1));
            lemma_recognize_prefix(rest, body);
        },
        None => {},
    }
}

/// The pieces from `from` on lie in order, one behind the other, from `from`
/// to the end of the buffer, and each is the piece at its start.
pub proof fn lemma_pieces_from_tile(bytes: Seq<u8>, from: int)
    requires
        0 <= from <= bytes.len(),
    ensures
        from == bytes.len() <==> pieces_from(bytes, from).len() == 0,
        from < bytes.len() ==> pieces_from(bytes, from).first().start == from
            && pieces_from(bytes, from).last().end == bytes.len(),
        forall|i: int|
            0 <= i < pieces_from(bytes, from).len() ==> {
                let piece = #[trigger] pieces_from(bytes, from)[i];
                &&& from <= piece.start < piece.end <= bytes.len()
                &&& piece == piece_at(bytes, piece.start)
            },
        forall|i: int|
            0 <= i < pieces_from(bytes, from).len() - 1 ==> (#[trigger] pieces_from(
                bytes,
                from,
            )[i]).end == pieces_from(bytes, from)[i + 1].start,
    decreases bytes.len() - from,
{
    if from < bytes.len() {
        let piece = piece_at(bytes, from);
        let rest = pieces_from(bytes, piece.end);
        let all = pieces_from(bytes, from);
        lemma_piece_at_bounds(bytes, from);
        lemma_pieces_from_tile(bytes, piece.end);
        assert(all == seq![piece] + rest);
        assert forall|i: int| 0 <= i < all.len() implies {
            let p = #[trigger] all[i];
            &&& from <= p.start < p.end <= bytes.len()
            &&& p == piece_at(bytes, p.start)
        } by {
            if i > 0 {
                assert(all[i] == rest[i - 1]);
            }
        }
        assert forall|i: int| 0 <= i < all.len() - 1 implies (#[trigger] all[i]).end == all[i
            + 1].start by {
            assert(all[i + 1] == rest[i]);
            if i > 0 {
                assert(all[i] == rest[i - 1]);
            }
        }
        if rest.len() > 0 {
            assert(all.last() == rest.last());
        }
    }
}

/// The sources of the pieces from `from` on, one behind the other, are the
/// buffer from `from` on.
pub proof fn lemma_pieces_from_reassemble(bytes: Seq<u8>, from: int)
    requires
        0 <= from <= bytes.len(),
    ensures
        sources_of(bytes, pieces_from(bytes, from)).flatten() == bytes.subrange(
            from,
            bytes.len() as int,
        ),
    decreases bytes.len() - from,
{
    if from < bytes.len() {
        let piece = piece_at(bytes, from);
        let rest = pieces_from(bytes, piece.end);
        lemma_piece_at_bounds(bytes, from);
        lemma_pieces_from_reassemble(bytes, piece.end);
        assert(sources_of(bytes, seq![piece] + rest) =~= seq![piece.source(bytes)] + sources_of(
            bytes,
            rest,
        ));
        lemma_flatten_concat(seq![piece.source(bytes)], sources_of(bytes, rest));
        seq![piece.source(bytes)].lemma_flatten_one_element();
        assert(piece.source(bytes) + bytes.subrange(piece.end, bytes.len() as int)
            =~= bytes.subrange(from, bytes.len() as int));
    } else {
        assert(bytes.subrange(from, bytes.len() as int) =~= Seq::<u8>::empty());
    }
}

/// Scanning loses and repeats nothing: the source bytes of the pieces of a
/// buffer, one behind the other in the order of the pieces, are the buffer;
/// each piece is not empty and starts where the one before it ends; and each
/// token is what the scanner reads from its piece's source bytes alone.
pub proof fn round_trip(bytes: Seq<u8>)
    ensures
        sources_of(bytes, pieces(bytes)).flatten() == bytes,
        forall|i: int|
            0 <= i < pieces(bytes).len() ==> {
                let piece = #[trigger] pieces(bytes)[i];
                &&& 0 <= piece.start < piece.end <= bytes.len()
                &&& piece.start == if i == 0 {
                    0
                } else {
                    pieces(bytes)[i - 1].end
                }
                &&& token_reads(piece.token, piece.source(bytes))
            },
        pieces(bytes).len() > 0 ==> pieces(bytes).last().end == bytes.len(),
        pieces(bytes).len() == 0 <==> bytes.len() == 0,
{
    lemma_pieces_from_reassemble(bytes, 0);
    lemma_pieces_from_tile(bytes, 0);
    assert(bytes.subrange(0, bytes.len() as int) =~= bytes);
    assert forall|i: int| 0 <= i < pieces(bytes).len() implies {
        let piece = #[trigger] pieces(bytes)[i];
        &&& piece.start == if i == 0 {
            0
        } else {
            pieces(bytes)[i - 1].end
        }
        &&& token_reads(piece.token, piece.source(bytes))
    } by {
        let piece = pieces(bytes)[i];
        lemma_piece_at_reads(bytes, piece.start);
        if i > 0 {
            assert(pieces(bytes)[i - 1].end == pieces(bytes)[i - 1 + 1].start);
        }
    }
}

/// Every escape marker at or after `from` starts a piece of its own.
pub proof fn lemma_marker_starts_piece(bytes: Seq<u8>, from: int, at: int) -> (i: int)
    requires
        0 <= from <= at < bytes.len(),
        bytes[at] == ESCAPE,
    ensures
        0 <= i < pieces_from(bytes, from).len(),
        pieces_from(bytes, from)[i] == piece_at(bytes, at),
    decreases bytes.len() - from,
{
    let piece = piece_at(bytes, from);
    let rest = pieces_from(bytes, piece.end);
    lemma_piece_at_bounds(bytes, from);
    assert(pieces_from(bytes, from) == seq![piece] + rest);
    if at == from {
        0
    } else {
        let j = lemma_marker_starts_piece(bytes, piece.end, at);
        assert(pieces_from(bytes, from)[j + 1] == rest[j]);
        j + 1
    }
}

/// An escape marker that starts no control sequence is folded into text: it
/// is the first byte of a text piece, which runs up to the next escape
/// marker, and no control piece holds it.
pub proof fn unrecognized_escape_is_text(bytes: Seq<u8>, at: int)
    requires
        0 <= at < bytes.len(),
        bytes[at] == ESCAPE,
        recognize(bytes.subrange(at + 1, bytes.len() as int)) is None,
    ensures
        exists|i: int|
            0 <= i < pieces(bytes).len() && #[trigger] pieces(bytes)[i] == (Piece {
                start: at,
                end: next_escape(bytes, at + 1),
                token: Token::Text(bytes.subrange(at, next_escape(bytes, at + 1))),
            }),
        forall|i: int|
            0 <= i < pieces(bytes).len() && (#[trigger] pieces(bytes)[i]).start <= at < pieces(
                bytes,
            )[i].end ==> pieces(bytes)[i].token is Text,
{
    let i = lemma_marker_starts_piece(bytes, 0, at);
    assert(pieces(bytes)[i] == piece_at(bytes, at));
    lemma_next_escape(bytes, at + 1);
    lemma_text_piece(bytes, at, next_escape(bytes, at + 1));
    lemma_pieces_from_tile(bytes, 0);
    assert forall|j: int|
        0 <= j < pieces(bytes).len() && (#[trigger] pieces(bytes)[j]).start <= at < pieces(
            bytes,
        )[j].end implies pieces(bytes)[j].token is Text by {
        let piece = pieces(bytes)[j];
        if piece.start < at {
            lemma_piece_at_bounds(bytes, piece.start);
        }
    }
}

/// A buffer of plain text, with no escape marker in it, is one text token.
pub proof fn plain_text(bytes: Seq<u8>)
    requires
        bytes.len() > 0,
        forall|k: int| 0 <= k < bytes.len() ==> #[trigger] bytes[k] != ESCAPE,
    ensures
        tokens(bytes) == seq![Token::Text(bytes)],
{
    let end = bytes.len() as int;
    lemma_text_piece(bytes, 0, end);
    lemma_pieces_from_step(bytes, 0);
    assert(bytes.subrange(0, end) =~= bytes);
    assert(tokens_of(pieces_from(bytes, end)) =~= Seq::empty());
    assert(tokens(bytes) =~= seq![Token::Text(bytes)]);
}

/// Where text up to `marker`, a control sequence from `marker` up to
/// `behind` and text from `behind` on make up a buffer, its tokens are these
/// three.
proof fn lemma_text_control_text(bytes: Seq<u8>, marker: int, behind: int, command: Command)
    requires
        0 < marker < behind < bytes.len(),
        forall|k: int| 0 <= k < marker ==> #[trigger] bytes[k] != ESCAPE,
        bytes[marker] == ESCAPE,
        control_at(bytes, marker) == Some((behind - marker - 2, command)),
        forall|k: int| behind <= k < bytes.len() ==> #[trigger] bytes[k] != ESCAPE,
    ensures
        tokens(bytes) == seq![
            Token::Text(bytes.subrange(0, marker)),
            Token::Control(command),
            Token::Text(bytes.subrange(behind, bytes.len() as int)),
        ],
{
    let end = bytes.len() as int;
    lemma_text_piece(bytes, 0, marker);
    lemma_control_piece(bytes, marker);
    lemma_text_piece(bytes, behind, end);
    lemma_pieces_from_step(bytes, 0);
    lemma_pieces_from_step(bytes, marker);
    lemma_pieces_from_step(bytes, behind);
    assert(tokens_of(pieces_from(bytes, end)) =~= Seq::empty());
    assert(tokens(bytes) =~= seq![
        piece_at(bytes, 0).token,
        piece_at(bytes, marker).token,
        piece_at(bytes, behind).token,
    ]);
}

/// Text, then a control sequence, then more text gives exactly three
/// tokens: the text, the command of the sequence, and the other text.
pub proof fn mixed_stream(before: Seq<u8>, body: Seq<u8>, after: Seq<u8>, command: Command)
    requires
        before.len() > 0,
        after.len() > 0,
        forall|k: int| 0 <= k < before.len() ==> #[trigger] before[k] != ESCAPE,
        forall|k: int| 0 <= k < after.len() ==> #[trigger] after[k] != ESCAPE,
        recognize(body) == Some((body.len() - 1, command)),
    ensures
        tokens(before + seq![ESCAPE] + body + after) == seq![
            Token::Text(before),
            Token::Control(command),
            Token::Text(after),
        ],
{
    let bytes = before + seq![ESCAPE] + body + after;
    let marker = before.len() as int;
    let behind = marker + 1 + body.len();
    let end = bytes.len() as int;
    lemma_recognize_shape(body);
    assert(bytes.subrange(0, marker) =~= before);
    assert(bytes.subrange(behind, end) =~= after);
    assert(control_at(bytes, marker) == Some((body.len() - 1, command))) by {
        let rest = bytes.subrange(marker + 1, end);
        assert(rest.subrange(0, body.len() as int) =~= body.subrange(0, body.len() as int));
        lemma_recognize_prefix(body, rest);
    }
    assert forall|k: int| 0 <= k < marker implies #[trigger] bytes[k] != ESCAPE by {
        assert(bytes[k] == before[k]);
    }
    assert forall|k: int| behind <= k < end implies #[trigger] bytes[k] != ESCAPE by {
        assert(bytes[k] == after[k - behind]);
    }
    lemma_text_control_text(bytes, marker, behind, command);
}

} // verus!
