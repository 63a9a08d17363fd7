//! The commands that a recognized control sequence can stand for.

use vstd::prelude::*;

verus! {

/// A terminal command encoded by one control sequence.
///
/// Mode setting (`h`, `l`) and keyboard-string redefinition (`p`) are
/// deliberately not part of the set.
#[derive(Debug)]
pub enum ControlSeq {
    /// `ESC [ H` or `ESC [ f`
    CursorPositionTopLeft,
    /// `ESC [ row ; column H` or `ESC [ row ; column f`
    CursorPositionYX(usize, usize),
    /// `ESC [ amount A`
    CursorUp(usize),
    /// `ESC [ amount B`
    CursorDown(usize),
    /// `ESC [ amount C`
    CursorForward(usize),
    /// `ESC [ amount D`
    CursorBackward(usize),
    /// `ESC [ s`
    SaveCursorPosition,
    /// `ESC [ u`
    RestoreCursorPosition,
    /// `ESC [ 2 J`
    EraseDisplay,
    /// `ESC [ K`
    EraseLine,
    /// `ESC [ value ; ... ; value m`, with at least one value
    SetGraphicMode(Vec<usize>),
}

/// The mathematical value of a [`ControlSeq`]: the same variants, with the
/// list of graphic-mode values as a sequence.
pub enum Command {
    CursorPositionTopLeft,
    CursorPositionYX(usize, usize),
    CursorUp(usize),
    CursorDown(usize),
    CursorForward(usize),
    CursorBackward(usize),
    SaveCursorPosition,
    RestoreCursorPosition,
    EraseDisplay,
    EraseLine,
    SetGraphicMode(Seq<usize>),
}

impl View for ControlSeq {
    type V = Command;

    open spec fn view(&self) -> Command {
        match self {
            ControlSeq::CursorPositionTopLeft => Command::CursorPositionTopLeft,
            ControlSeq::CursorPositionYX(row, column) => Command::CursorPositionYX(*row, *column),
            ControlSeq::CursorUp(amount) => Command::CursorUp(*amount),
            ControlSeq::CursorDown(amount) => Command::CursorDown(*amount),
            ControlSeq::CursorForward(amount) => Command::CursorForward(*amount),
            ControlSeq::CursorBackward(amount) => Command::CursorBackward(*amount),
            ControlSeq::SaveCursorPosition => Command::SaveCursorPosition,
            ControlSeq::RestoreCursorPosition => Command::RestoreCursorPosition,
            ControlSeq::EraseDisplay => Command::EraseDisplay,
            ControlSeq::EraseLine => Command::EraseLine,
            ControlSeq::SetGraphicMode(values) => Command::SetGraphicMode(values@),
        }
    }
}

impl PartialEq for ControlSeq {
    /// Two commands are equal if they are the same variant with the same
    /// values.
    fn eq(&self, other: &ControlSeq) -> (res: bool) {
        match (self, other) {
            (ControlSeq::CursorPositionTopLeft, ControlSeq::CursorPositionTopLeft) => true,
            (
                ControlSeq::CursorPositionYX(row, column),
                ControlSeq::CursorPositionYX(other_row, other_column),
            ) => *row == *other_row && *column == *other_column,
            (ControlSeq::CursorUp(amount), ControlSeq::CursorUp(other_amount)) => *amount
                == *other_amount,
            (ControlSeq::CursorDown(amount), ControlSeq::CursorDown(other_amount)) => *amount
                == *other_amount,
            (ControlSeq::CursorForward(amount), ControlSeq::CursorForward(other_amount)) => *amount
                == *other_amount,
            (ControlSeq::CursorBackward(amount), ControlSeq::CursorBackward(other_amount)) => {
                *amount == *other_amount
            },
            (ControlSeq::SaveCursorPosition, ControlSeq::SaveCursorPosition) => true,
            (ControlSeq::RestoreCursorPosition, ControlSeq::RestoreCursorPosition) => true,
            (ControlSeq::EraseDisplay, ControlSeq::EraseDisplay) => true,
            (ControlSeq::EraseLine, ControlSeq::EraseLine) => true,
            (ControlSeq::SetGraphicMode(values), ControlSeq::SetGraphicMode(other_values)) => {
                let same = values == other_values;
                assert(same == (values@ =~= other_values@));
                same
            },
            _ => false,
        }
    }
}

impl Eq for ControlSeq {

}

impl vstd::std_specs::cmp::PartialEqSpecImpl for ControlSeq {
    open spec fn obeys_eq_spec() -> bool {
        true
    }

    open spec fn eq_spec(&self, other: &ControlSeq) -> bool {
        self@ == other@
    }
}

impl Command {
    /// True for the commands that a control sequence can spell: all but a
    /// graphic-mode command without a value.
    pub open spec fn well_formed(self) -> bool {
        self matches Command::SetGraphicMode(values) ==> values.len() >= 1
    }
}

} // verus!
