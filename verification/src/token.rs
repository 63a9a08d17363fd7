//! The tokens that the scanner gives out.

use crate::control::{Command, ControlSeq};
use vstd::prelude::*;
use vstd::std_specs::cmp::PartialEqSpec;
use vstd::string::StringSliceAdditionalSpecFns;
use vstd::utf8::*;

verus! {

/// One token of the scanner's output.
#[derive(Debug)]
pub enum OutputStream<'a> {
    /// A run of plain text, borrowed from the scanned buffer.
    Text(&'a str),
    /// A recognized control sequence.
    Control(ControlSeq),
}

/// The mathematical value of an [`OutputStream`] token. A text token is
/// taken as the bytes of its UTF-8 encoding, the form in which the scanner
/// reads the buffer.
pub enum Token {
    Text(Seq<u8>),
    Control(Command),
}

impl<'a> View for OutputStream<'a> {
    type V = Token;

    open spec fn view(&self) -> Token {
        match self {
            OutputStream::Text(text) => Token::Text(text.spec_bytes()),
            OutputStream::Control(command) => Token::Control(command@),
        }
    }
}

/// Tells whether two slices hold the same bytes in the same order.
pub(crate) fn same_bytes(left: &[u8], right: &[u8]) -> (res: bool)
    ensures
        res == (left@ == right@),
{
    if left.len() != right.len() {
        return false;
    }
    let mut i: usize = 0;
    while i < left.len()
        invariant
            i <= left@.len(),
            left@.len() == right@.len(),
            forall|k: int| 0 <= k < i ==> left@[k] == right@[k],
        decreases left@.len() - i,
    {
        if left[i] != right[i] {
            return false;
        }
        i += 1;
    }
    assert(left@ =~= right@);
    true
}

impl<'a> PartialEq for OutputStream<'a> {
    /// Two tokens are equal if both are text with the same bytes, or both
    /// are control tokens with equal commands.
    fn eq(&self, other: &OutputStream<'a>) -> (res: bool) {
        match (self, other) {
            (OutputStream::Text(text), OutputStream::Text(other_text)) => same_bytes(
                text.as_bytes(),
                other_text.as_bytes(),
            ),
            (OutputStream::Control(command), OutputStream::Control(other_command)) => command
                == other_command,
            _ => false,
        }
    }
}

impl<'a> Eq for OutputStream<'a> {

}

impl<'a> vstd::std_specs::cmp::PartialEqSpecImpl for OutputStream<'a> {
    open spec fn obeys_eq_spec() -> bool {
        true
    }

    open spec fn eq_spec(&self, other: &OutputStream<'a>) -> bool {
        self@ == other@
    }
}

/// The views of a sequence of tokens.
pub open spec fn views<'a>(stream: Seq<OutputStream<'a>>) -> Seq<Token> {
    stream.map_values(|token: OutputStream<'a>| token@)
}

/// Two text tokens are equal exactly if their texts are the same sequence of
/// characters: the UTF-8 encoding, by which the tokens are compared, stands
/// for one text only.
pub proof fn text_equality(left: &str, right: &str)
    ensures
        OutputStream::Text(left).eq_spec(&OutputStream::Text(right)) <==> left@ == right@,
{
    encode_utf8_decode_utf8(left@);
    encode_utf8_decode_utf8(right@);
}

} // verus!
