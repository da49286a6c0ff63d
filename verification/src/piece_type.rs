use vstd::prelude::*;

verus! {

/// The fourteen kinds of shogi pieces, promoted kinds included.
#[derive(Clone, Copy, Debug, PartialEq, Eq, Structural, Hash)]
pub enum PieceType {
    King,
    Rook,
    Bishop,
    Gold,
    Silver,
    Knight,
    Lance,
    Pawn,
    ProRook,
    ProBishop,
    ProSilver,
    ProKnight,
    ProLance,
    ProPawn,
}

/// The piece type with the given index (the order of the enum's variants).
pub open spec fn pt_of_index(i: int) -> PieceType {
    if i == 0 {
        PieceType::King
    } else if i == 1 {
        PieceType::Rook
    } else if i == 2 {
        PieceType::Bishop
    } else if i == 3 {
        PieceType::Gold
    } else if i == 4 {
        PieceType::Silver
    } else if i == 5 {
        PieceType::Knight
    } else if i == 6 {
        PieceType::Lance
    } else if i == 7 {
        PieceType::Pawn
    } else if i == 8 {
        PieceType::ProRook
    } else if i == 9 {
        PieceType::ProBishop
    } else if i == 10 {
        PieceType::ProSilver
    } else if i == 11 {
        PieceType::ProKnight
    } else if i == 12 {
        PieceType::ProLance
    } else {
        PieceType::ProPawn
    }
}

impl PieceType {
    /// Index of the piece type, in the order of declaration (King = 0, ..., ProPawn = 13).
    pub open spec fn idx(self) -> int {
        match self {
            PieceType::King => 0,
            PieceType::Rook => 1,
            PieceType::Bishop => 2,
            PieceType::Gold => 3,
            PieceType::Silver => 4,
            PieceType::Knight => 5,
            PieceType::Lance => 6,
            PieceType::Pawn => 7,
            PieceType::ProRook => 8,
            PieceType::ProBishop => 9,
            PieceType::ProSilver => 10,
            PieceType::ProKnight => 11,
            PieceType::ProLance => 12,
            PieceType::ProPawn => 13,
        }
    }

    /// The promoted form of the piece type, if it can promote.
    pub open spec fn promoted(self) -> Option<PieceType> {
        match self {
            PieceType::Rook => Some(PieceType::ProRook),
            PieceType::Bishop => Some(PieceType::ProBishop),
            PieceType::Silver => Some(PieceType::ProSilver),
            PieceType::Knight => Some(PieceType::ProKnight),
            PieceType::Lance => Some(PieceType::ProLance),
            PieceType::Pawn => Some(PieceType::ProPawn),
            _ => None,
        }
    }

    /// The unpromoted form of a promoted piece type.
    pub open spec fn unpromoted(self) -> Option<PieceType> {
        match self {
            PieceType::ProRook => Some(PieceType::Rook),
            PieceType::ProBishop => Some(PieceType::Bishop),
            PieceType::ProSilver => Some(PieceType::Silver),
            PieceType::ProKnight => Some(PieceType::Knight),
            PieceType::ProLance => Some(PieceType::Lance),
            PieceType::ProPawn => Some(PieceType::Pawn),
            _ => None,
        }
    }

    /// Piece types that can be held in hand (unpromoted, non-king).
    pub open spec fn hand_piece(self) -> bool {
        match self {
            PieceType::Rook | PieceType::Bishop | PieceType::Gold | PieceType::Silver
            | PieceType::Knight | PieceType::Lance | PieceType::Pawn => true,
            _ => false,
        }
    }

    /// The SFEN letter of the piece type (lower case).
    pub open spec fn letter(self) -> char {
        match self {
            PieceType::King => 'k',
            PieceType::Rook | PieceType::ProRook => 'r',
            PieceType::Bishop | PieceType::ProBishop => 'b',
            PieceType::Gold => 'g',
            PieceType::Silver | PieceType::ProSilver => 's',
            PieceType::Knight | PieceType::ProKnight => 'n',
            PieceType::Lance | PieceType::ProLance => 'l',
            PieceType::Pawn | PieceType::ProPawn => 'p',
        }
    }

    /// Whether the piece type is a promoted one.
    pub open spec fn is_promoted_type(self) -> bool {
        self.unpromoted() is Some
    }

    /// The SFEN text of the piece type, "+" before the letter of promoted types.
    pub open spec fn sfen_text(self) -> Seq<char> {
        if self.is_promoted_type() {
            seq!['+', self.letter()]
        } else {
            seq![self.letter()]
        }
    }

    /// The piece type that a SFEN letter (either case) stands for.
    pub open spec fn of_letter(c: char) -> Option<PieceType> {
        if c == 'k' || c == 'K' {
            Some(PieceType::King)
        } else if c == 'r' || c == 'R' {
            Some(PieceType::Rook)
        } else if c == 'b' || c == 'B' {
            Some(PieceType::Bishop)
        } else if c == 'g' || c == 'G' {
            Some(PieceType::Gold)
        } else if c == 's' || c == 'S' {
            Some(PieceType::Silver)
        } else if c == 'n' || c == 'N' {
            Some(PieceType::Knight)
        } else if c == 'l' || c == 'L' {
            Some(PieceType::Lance)
        } else if c == 'p' || c == 'P' {
            Some(PieceType::Pawn)
        } else {
            None
        }
    }

    /// Returns the index of the piece type.
    pub fn index(self) -> (r: usize)
        ensures
            r == self.idx(),
            r < 14,
    {
        match self {
            PieceType::King => 0,
            PieceType::Rook => 1,
            PieceType::Bishop => 2,
            PieceType::Gold => 3,
            PieceType::Silver => 4,
            PieceType::Knight => 5,
            PieceType::Lance => 6,
            PieceType::Pawn => 7,
            PieceType::ProRook => 8,
            PieceType::ProBishop => 9,
            PieceType::ProSilver => 10,
            PieceType::ProKnight => 11,
            PieceType::ProLance => 12,
            PieceType::ProPawn => 13,
        }
    }

    /// Returns the piece type with the given index.
    pub fn from_index(i: usize) -> (r: PieceType)
        requires
            i < 14,
        ensures
            r == pt_of_index(i as int),
            r.idx() == i,
    {
        if i == 0 {
            PieceType::King
        } else if i == 1 {
            PieceType::Rook
        } else if i == 2 {
            PieceType::Bishop
        } else if i == 3 {
            PieceType::Gold
        } else if i == 4 {
            PieceType::Silver
        } else if i == 5 {
            PieceType::Knight
        } else if i == 6 {
            PieceType::Lance
        } else if i == 7 {
            PieceType::Pawn
        } else if i == 8 {
            PieceType::ProRook
        } else if i == 9 {
            PieceType::ProBishop
        } else if i == 10 {
            PieceType::ProSilver
        } else if i == 11 {
            PieceType::ProKnight
        } else if i == 12 {
            PieceType::ProLance
        } else {
            PieceType::ProPawn
        }
    }

    /// Returns the promoted form, or `None` for types that cannot promote.
    pub fn promote(self) -> (r: Option<PieceType>)
        ensures
            r == self.promoted(),
    {
        match self {
            PieceType::Rook => Some(PieceType::ProRook),
            PieceType::Bishop => Some(PieceType::ProBishop),
            PieceType::Silver => Some(PieceType::ProSilver),
            PieceType::Knight => Some(PieceType::ProKnight),
            PieceType::Lance => Some(PieceType::ProLance),
            PieceType::Pawn => Some(PieceType::ProPawn),
            _ => None,
        }
    }

    /// Returns the unpromoted form, or `None` for types that are not promoted.
    pub fn unpromote(self) -> (r: Option<PieceType>)
        ensures
            r == self.unpromoted(),
    {
        match self {
            PieceType::ProRook => Some(PieceType::Rook),
            PieceType::ProBishop => Some(PieceType::Bishop),
            PieceType::ProSilver => Some(PieceType::Silver),
            PieceType::ProKnight => Some(PieceType::Knight),
            PieceType::ProLance => Some(PieceType::Lance),
            PieceType::ProPawn => Some(PieceType::Pawn),
            _ => None,
        }
    }

    /// Returns true if the piece type can be held in hand.
    pub fn is_hand_piece(self) -> (r: bool)
        ensures
            r == self.hand_piece(),
    {
        match self {
            PieceType::Rook | PieceType::Bishop | PieceType::Gold | PieceType::Silver
            | PieceType::Knight | PieceType::Lance | PieceType::Pawn => true,
            _ => false,
        }
    }

    /// Parses a SFEN letter (either case) into a piece type.
    pub fn from_sfen(c: char) -> (r: Option<PieceType>)
        ensures
            r == PieceType::of_letter(c),
    {
        if c == 'k' || c == 'K' {
            Some(PieceType::King)
        } else if c == 'r' || c == 'R' {
            Some(PieceType::Rook)
        } else if c == 'b' || c == 'B' {
            Some(PieceType::Bishop)
        } else if c == 'g' || c == 'G' {
            Some(PieceType::Gold)
        } else if c == 's' || c == 'S' {
            Some(PieceType::Silver)
        } else if c == 'n' || c == 'N' {
            Some(PieceType::Knight)
        } else if c == 'l' || c == 'L' {
            Some(PieceType::Lance)
        } else if c == 'p' || c == 'P' {
            Some(PieceType::Pawn)
        } else {
            None
        }
    }

    /// Returns the SFEN letter of the piece type (lower case).
    pub fn to_letter(self) -> (r: char)
        ensures
            r == self.letter(),
    {
        match self {
            PieceType::King => 'k',
            PieceType::Rook | PieceType::ProRook => 'r',
            PieceType::Bishop | PieceType::ProBishop => 'b',
            PieceType::Gold => 'g',
            PieceType::Silver | PieceType::ProSilver => 's',
            PieceType::Knight | PieceType::ProKnight => 'n',
            PieceType::Lance | PieceType::ProLance => 'l',
            PieceType::Pawn | PieceType::ProPawn => 'p',
        }
    }
}

/// Promotion and unpromotion undo each other, and the index is a bijection onto 0..14.
pub proof fn lemma_promote_unpromote(pt: PieceType)
    ensures
        pt.promoted() matches Some(p) ==> p.unpromoted() == Some(pt),
        pt.unpromoted() matches Some(u) ==> u.promoted() == Some(pt),
        0 <= pt.idx() < 14,
        pt_of_index(pt.idx()) == pt,
{
}

} // verus!
