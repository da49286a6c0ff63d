use vstd::prelude::*;

verus! {

/// Why a move could not be made.
#[derive(Clone, Copy, Debug, PartialEq, Eq)]
pub enum MoveError {
    /// The move is inconsistent with the position; the text says how.
    Inconsistent(&'static str),
    /// The move leaves the mover's king in check.
    InCheck,
    /// A pawn would be dropped on a file that already holds a pawn of the same player.
    Nifu,
    /// A pawn drop would give checkmate.
    Uchifuzume,
    /// The same position occurred for the fourth time.
    Repetition,
    /// The opponent has been giving check perpetually; the mover wins.
    PerpetualCheckWin,
    /// The mover has been giving check perpetually and loses.
    PerpetualCheckLose,
    /// The piece would stand on a square from which it can never move.
    NonMovablePiece,
}

/// Why a SFEN string could not be read.
#[derive(Clone, Copy, Debug, PartialEq, Eq, Structural)]
pub enum SfenError {
    MissingDataFields,
    IllegalPieceType,
    IllegalSideToMove,
    IllegalPlyNumber,
    IllegalBoardState,
    IllegalMove,
}

} // verus!
