use vstd::prelude::*;
use crate::color::Color;
use crate::piece_type::PieceType;
use crate::square::{Square, relative_rank_of};

verus! {

/// A piece of a given type owned by a given player.
#[derive(Clone, Copy, Debug, PartialEq, Eq, Structural, Hash)]
pub struct Piece {
    pub piece_type: PieceType,
    pub color: Color,
}

/// Upper-case form of a lower-case ASCII letter; other characters are unchanged.
pub open spec fn upper(c: char) -> char {
    if 'a' <= c <= 'z' {
        ((c as int - 32) as u32) as char
    } else {
        c
    }
}

impl Piece {
    /// The same piece type owned by the other player.
    pub open spec fn flipped(self) -> Piece {
        Piece { piece_type: self.piece_type, color: self.color.opp() }
    }

    /// Whether the piece may stand on the square: pawns and lances not on the
    /// last rank, knights not on the last two ranks.
    pub open spec fn placeable(self, i: int) -> bool {
        match self.piece_type {
            PieceType::Pawn | PieceType::Lance => relative_rank_of(i, self.color) > 0,
            PieceType::Knight => relative_rank_of(i, self.color) > 1,
            _ => true,
        }
    }

    /// SFEN text of the piece: upper case for Black, lower case for White.
    pub open spec fn sfen_text(self) -> Seq<char> {
        let t = self.piece_type.sfen_text();
        match self.color {
            Color::Black => t.map_values(|c: char| upper(c)),
            Color::White => t,
        }
    }

    /// The piece that a SFEN letter denotes: upper case is Black, lower case White.
    pub open spec fn of_letter(c: char) -> Option<Piece> {
        match PieceType::of_letter(c) {
            Some(pt) => Some(
                Piece { piece_type: pt, color: if 'A' <= c <= 'Z' { Color::Black } else { Color::White } },
            ),
            None => None,
        }
    }

    /// Returns the same piece type owned by the opponent.
    pub fn flip(self) -> (r: Piece)
        ensures
            r == self.flipped(),
    {
        Piece { piece_type: self.piece_type, color: self.color.flip() }
    }

    /// Returns the promoted piece, if the type can promote.
    pub fn promote(self) -> (r: Option<Piece>)
        ensures
            r == (match self.piece_type.promoted() {
                Some(pt) => Some(Piece { piece_type: pt, color: self.color }),
                None => None,
            }),
    {
        match self.piece_type.promote() {
            Some(pt) => Some(Piece { piece_type: pt, color: self.color }),
            None => None,
        }
    }

    /// Returns the unpromoted piece, if the type is promoted.
    pub fn unpromote(self) -> (r: Option<Piece>)
        ensures
            r == (match self.piece_type.unpromoted() {
                Some(pt) => Some(Piece { piece_type: pt, color: self.color }),
                None => None,
            }),
    {
        match self.piece_type.unpromote() {
            Some(pt) => Some(Piece { piece_type: pt, color: self.color }),
            None => None,
        }
    }

    /// Returns true if the piece can stand on the given square.
    pub fn is_placeable_at(self, sq: Square) -> (r: bool)
        ensures
            r == self.placeable(sq.idx()),
    {
        match self.piece_type {
            PieceType::Pawn | PieceType::Lance => sq.relative_rank(self.color) > 0,
            PieceType::Knight => sq.relative_rank(self.color) > 1,
            _ => true,
        }
    }

    /// Parses a SFEN letter into a piece (upper case is Black, lower case White).
    pub fn from_sfen(c: char) -> (r: Option<Piece>)
        ensures
            r == Piece::of_letter(c),
    {
        match PieceType::from_sfen(c) {
            Some(pt) => {
                let color = if 'A' <= c && c <= 'Z' {
                    Color::Black
                } else {
                    Color::White
                };
                Some(Piece { piece_type: pt, color })
            },
            None => None,
        }
    }

    /// Appends the SFEN text of the piece to `out`.
    pub fn push_sfen(self, out: &mut Vec<char>)
        ensures
            final(out)@ == old(out)@ + self.sfen_text(),
    {
        let letter = self.piece_type.to_letter();
        let c = match self.color {
            Color::Black => to_upper(letter),
            Color::White => letter,
        };
        let ghost t = self.piece_type.sfen_text();
        if self.piece_type.unpromote().is_some() {
            out.push('+');
            out.push(c);
            proof {
                assert(t.map_values(|c: char| upper(c)) =~= seq!['+', upper(letter)]);
            }
        } else {
            out.push(c);
            proof {
                assert(t.map_values(|c: char| upper(c)) =~= seq![upper(letter)]);
            }
        }
        proof {
            assert(out@ =~= old(out)@ + self.sfen_text());
        }
    }
}

/// Upper-cases an ASCII lower-case letter.
pub fn to_upper(c: char) -> (r: char)
    ensures
        r == upper(c),
{
    if 'a' <= c && c <= 'z' {
        ((c as u32 - 32) as u8) as char
    } else {
        c
    }
}

} // verus!
