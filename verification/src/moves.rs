use vstd::prelude::*;
use crate::color::Color;
use crate::piece::Piece;
use crate::piece_type::PieceType;
use crate::square::{Square, square_chars, square_of_chars};

verus! {

/// A move: a piece moving on the board, or a piece dropped from the hand.
#[derive(Clone, Copy, Debug, PartialEq, Eq, Structural)]
pub enum Move {
    Normal { from: Square, to: Square, promote: bool },
    Drop { to: Square, piece_type: PieceType },
}

impl Move {
    /// The squares of the move lie on the board.
    pub open spec fn valid(self) -> bool {
        match self {
            Move::Normal { from, to, .. } => from.valid() && to.valid(),
            Move::Drop { to, .. } => to.valid(),
        }
    }

    /// The square the piece goes to.
    pub open spec fn target(self) -> Square {
        match self {
            Move::Normal { to, .. } => to,
            Move::Drop { to, .. } => to,
        }
    }
}

/// The information needed to undo a move.
#[derive(Clone, Copy, Debug, PartialEq, Eq, Structural)]
pub enum MoveRecord {
    Normal { from: Square, to: Square, placed: Piece, captured: Option<Piece>, promoted: bool },
    Drop { to: Square, piece: Piece },
}

/// The SFEN text of a square.
pub open spec fn square_text(i: int) -> Seq<char> {
    seq![square_chars(i).0, square_chars(i).1]
}

/// The SFEN text of a move: "7g7f", "7g7f+" or "P*5e".
pub open spec fn move_text(m: Move) -> Seq<char> {
    match m {
        Move::Normal { from, to, promote } => square_text(from.idx()) + square_text(to.idx()) + (
        if promote {
            seq!['+']
        } else {
            seq![]
        }),
        Move::Drop { to, piece_type } => Piece { piece_type, color: Color::Black }.sfen_text()
            + seq!['*'] + square_text(to.idx()),
    }
}

/// The SFEN text of a recorded move.
pub open spec fn record_text(r: MoveRecord) -> Seq<char> {
    match r {
        MoveRecord::Normal { from, to, promoted, .. } => move_text(
            Move::Normal { from, to, promote: promoted },
        ),
        MoveRecord::Drop { to, piece } => move_text(Move::Drop { to, piece_type: piece.piece_type }),
    }
}

/// Whether a recorded move is the given move.
pub open spec fn record_matches(r: MoveRecord, m: Move) -> bool {
    match (r, m) {
        (
            MoveRecord::Normal { from: f1, to: t1, promoted, .. },
            Move::Normal { from: f2, to: t2, promote },
        ) => f1.idx() == f2.idx() && t1.idx() == t2.idx() && promote == promoted,
        (MoveRecord::Drop { to: t1, piece }, Move::Drop { to: t2, piece_type }) => t1.idx()
            == t2.idx() && piece.piece_type == piece_type,
        _ => false,
    }
}

/// The move that a SFEN text denotes, if any.
pub open spec fn move_of_text(s: Seq<char>) -> Option<Move> {
    if !(s.len() == 4 || (s.len() == 5 && s[4] == '+')) {
        None
    } else if '0' <= s[0] <= '9' {
        match (square_of_chars(s[0], s[1]), square_of_chars(s[2], s[3])) {
            (Some(from), Some(to)) => Some(Move::Normal { from, to, promote: s.len() == 5 }),
            _ => None,
        }
    } else if 'A' <= s[0] <= 'Z' && s[1] == '*' {
        match (PieceType::of_letter(s[0]), square_of_chars(s[2], s[3])) {
            (Some(pt), Some(to)) => Some(Move::Drop { to, piece_type: pt }),
            _ => None,
        }
    } else {
        None
    }
}

/// Appends the SFEN text of a square.
pub fn push_square(sq: Square, out: &mut Vec<char>)
    ensures
        final(out)@ == old(out)@ + square_text(sq.idx()),
{
    let (f, r) = sq.to_sfen_chars();
    out.push(f);
    out.push(r);
    proof {
        assert(out@ =~= old(out)@ + square_text(sq.idx()));
    }
}

impl Move {
    /// Parses a move written in SFEN ("7g7f", "7g7f+", "P*5e").
    pub fn from_sfen_chars(s: &[char]) -> (r: Option<Move>)
        ensures
            r == move_of_text(s@),
    {
        let n = s.len();
        if !(n == 4 || (n == 5 && s[4] == '+')) {
            return None;
        }
        let first = s[0];
        if '0' <= first && first <= '9' {
            let from = Square::from_sfen(s[0], s[1]);
            let to = Square::from_sfen(s[2], s[3]);
            match (from, to) {
                (Some(from), Some(to)) => Some(Move::Normal { from, to, promote: n == 5 }),
                _ => None,
            }
        } else if 'A' <= first && first <= 'Z' && s[1] == '*' {
            let pt = PieceType::from_sfen(first);
            let to = Square::from_sfen(s[2], s[3]);
            match (pt, to) {
                (Some(pt), Some(to)) => Some(Move::Drop { to, piece_type: pt }),
                _ => None,
            }
        } else {
            None
        }
    }

    /// Appends the SFEN text of the move.
    pub fn push_sfen(&self, out: &mut Vec<char>)
        ensures
            final(out)@ == old(out)@ + move_text(*self),
    {
        match *self {
            Move::Normal { from, to, promote } => {
                push_square(from, out);
                push_square(to, out);
                if promote {
                    out.push('+');
                }
            },
            Move::Drop { to, piece_type } => {
                Piece { piece_type, color: Color::Black }.push_sfen(out);
                out.push('*');
                push_square(to, out);
            },
        }
        proof {
            assert(out@ =~= old(out)@ + move_text(*self));
        }
    }
}

impl MoveRecord {
    /// Appends the SFEN text of the recorded move.
    pub fn push_sfen(&self, out: &mut Vec<char>)
        ensures
            final(out)@ == old(out)@ + record_text(*self),
    {
        let m = match *self {
            MoveRecord::Normal { from, to, promoted, .. } => Move::Normal { from, to, promote: promoted },
            MoveRecord::Drop { to, piece } => Move::Drop { to, piece_type: piece.piece_type },
        };
        m.push_sfen(out);
    }

    /// Returns the SFEN text of the recorded move ("7g7f", "7g7f+", "P*5e").
    pub fn to_sfen(&self) -> (r: String)
        ensures
            r@ == record_text(*self),
    {
        let mut out: Vec<char> = Vec::new();
        self.push_sfen(&mut out);
        proof {
            assert(out@ =~= record_text(*self));
        }
        crate::text::string_of(&out)
    }

    /// Returns true if the recorded move is the given move.
    pub fn matches_move(&self, m: &Move) -> (r: bool)
        ensures
            r == record_matches(*self, *m),
    {
        match (*self, *m) {
            (
                MoveRecord::Normal { from: f1, to: t1, promoted, .. },
                Move::Normal { from: f2, to: t2, promote },
            ) => f1.index() == f2.index() && t1.index() == t2.index() && promote == promoted,
            (MoveRecord::Drop { to: t1, piece }, Move::Drop { to: t2, piece_type }) => t1.index()
                == t2.index() && piece.piece_type == piece_type,
            _ => false,
        }
    }
}

} // verus!
