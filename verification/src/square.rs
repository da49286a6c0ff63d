use vstd::prelude::*;
use crate::color::Color;


verus! {

/// File (0-based, file "1" is 0) of a square index.
pub open spec fn file_of(i: int) -> int {
    i / 9
}

/// Rank (0-based, rank "a" is 0) of a square index.
pub open spec fn rank_of(i: int) -> int {
    i % 9
}

/// Index of the square at the given file and rank.
pub open spec fn index_at(file: int, rank: int) -> int {
    file * 9 + rank
}

/// Whether a file/rank pair lies on the 9x9 board.
pub open spec fn on_board(file: int, rank: int) -> bool {
    0 <= file < 9 && 0 <= rank < 9
}

/// Rank of a square index as seen by the player of color `c` (0 is the far side).
pub open spec fn relative_rank_of(i: int, c: Color) -> int {
    match c {
        Color::Black => rank_of(i),
        Color::White => 8 - rank_of(i),
    }
}

/// Whether a square index lies in the promotion zone of color `c`.
pub open spec fn in_zone(i: int, c: Color) -> bool {
    relative_rank_of(i, c) < 3
}

/// A square of the 9x9 board.
#[derive(Clone, Copy, Debug, PartialEq, Eq, Structural, Hash)]
pub struct Square {
    pub(crate) inner: u8,
}

impl Square {
    #[verifier::type_invariant]
    pub(crate) closed spec fn inv(self) -> bool {
        self.inner < 81
    }

    /// The index of the square (file * 9 + rank).
    pub closed spec fn idx(self) -> int {
        if self.inner < 81 {
            self.inner as int
        } else {
            0
        }
    }

    /// Every square has an index on the board.
    pub proof fn lemma_idx_bound(self)
        ensures
            0 <= self.idx() < 81,
    {
    }

    /// The square with the given index, given that it is on the board.
    pub closed spec fn of_index(i: int) -> Square {
        Square { inner: i as u8 }
    }

    /// The square lies on the board; every square the library hands out does.
    pub closed spec fn valid(self) -> bool {
        self.inner < 81
    }

    /// A square on the board is the square of its own index.
    pub proof fn lemma_valid(self)
        requires
            self.valid(),
        ensures
            Square::of_index(self.idx()) == self,
            0 <= self.idx() < 81,
    {
    }

    /// The square of an index on the board has that index and lies on the board.
    pub proof fn lemma_of_index(i: int)
        requires
            0 <= i < 81,
        ensures
            Square::of_index(i).idx() == i,
            Square::of_index(i).valid(),
    {
    }

    /// Creates a square from file and rank (both 0-based); `None` if off the board.
    pub fn new(file: u8, rank: u8) -> (r: Option<Square>)
        ensures
            on_board(file as int, rank as int) <==> r is Some,
            r matches Some(s) ==> s.idx() == index_at(file as int, rank as int),
    {
        if file < 9 && rank < 9 {
            Some(Square { inner: file * 9 + rank })
        } else {
            None
        }
    }

    /// Creates a square from its index; `None` if the index is 81 or more.
    pub fn from_index(index: u8) -> (r: Option<Square>)
        ensures
            index < 81 <==> r is Some,
            r matches Some(s) ==> s.idx() == index && s == Square::of_index(index as int),
    {
        if index < 81 {
            Some(Square { inner: index })
        } else {
            None
        }
    }

    /// Returns the index of the square.
    pub fn index(self) -> (r: usize)
        ensures
            r == self.idx(),
            r < 81,
            self.valid(),
    {
        proof {
            use_type_invariant(&self);
        }
        self.inner as usize
    }

    /// Returns the file of the square (0-based).
    pub fn file(self) -> (r: u8)
        ensures
            r == file_of(self.idx()),
            r < 9,
    {
        proof {
            use_type_invariant(&self);
        }
        self.inner / 9
    }

    /// Returns the rank of the square (0-based).
    pub fn rank(self) -> (r: u8)
        ensures
            r == rank_of(self.idx()),
            r < 9,
    {
        proof {
            use_type_invariant(&self);
        }
        self.inner % 9
    }

    /// Returns the rank as seen from the player of the given color.
    pub fn relative_rank(self, c: Color) -> (r: u8)
        ensures
            r == relative_rank_of(self.idx(), c),
            r < 9,
    {
        let rank = self.rank();
        match c {
            Color::Black => rank,
            Color::White => 8 - rank,
        }
    }

    /// Returns true if the square is in the promotion zone of the given color.
    pub fn in_promotion_zone(self, c: Color) -> (r: bool)
        ensures
            r == in_zone(self.idx(), c),
    {
        self.relative_rank(c) < 3
    }

    /// Returns the square shifted by the given file and rank deltas, if it stays on the board.
    pub fn shift(self, df: i8, dr: i8) -> (r: Option<Square>)
        ensures
            on_board(file_of(self.idx()) + df, rank_of(self.idx()) + dr) <==> r is Some,
            r matches Some(s) ==> s.idx() == index_at(
                file_of(self.idx()) + df,
                rank_of(self.idx()) + dr,
            ),
    {
        let f = self.file() as i16 + df as i16;
        let r = self.rank() as i16 + dr as i16;
        if 0 <= f && f < 9 && 0 <= r && r < 9 {
            Some(Square { inner: (f * 9 + r) as u8 })
        } else {
            None
        }
    }

    /// Parses the two SFEN characters of a square (file digit '1'-'9', rank letter 'a'-'i').
    pub fn from_sfen(file: char, rank: char) -> (r: Option<Square>)
        ensures
            r == square_of_chars(file, rank),
    {
        if '1' <= file && file <= '9' && 'a' <= rank && rank <= 'i' {
            let f = (file as u32 - '1' as u32) as u8;
            let rk = (rank as u32 - 'a' as u32) as u8;
            Some(Square { inner: f * 9 + rk })
        } else {
            None
        }
    }

    /// Returns the two SFEN characters of the square.
    pub fn to_sfen_chars(self) -> (r: (char, char))
        ensures
            r == square_chars(self.idx()),
    {
        proof {
            use_type_invariant(&self);
        }
        let f = self.inner / 9;
        let rk = self.inner % 9;
        (digit_char(f as u32 + 1), letter_char(rk as u32))
    }
}

/// The decimal digit character of a value below ten.
pub open spec fn spec_digit_char(d: int) -> char {
    ((d + 48) as u32) as char
}

/// The lower-case rank letter of a rank below nine.
pub open spec fn spec_rank_char(r: int) -> char {
    ((r + 97) as u32) as char
}

/// The two SFEN characters of a square index.
pub open spec fn square_chars(i: int) -> (char, char) {
    (spec_digit_char(file_of(i) + 1), spec_rank_char(rank_of(i)))
}

/// The square that two SFEN characters denote, if any.
pub open spec fn square_of_chars(file: char, rank: char) -> Option<Square> {
    if '1' <= file <= '9' && 'a' <= rank <= 'i' {
        Some(Square::of_index(index_at(file as int - 49, rank as int - 97)))
    } else {
        None
    }
}

/// Returns the character of a decimal digit.
pub fn digit_char(d: u32) -> (r: char)
    requires
        d < 10,
    ensures
        r == spec_digit_char(d as int),
        '0' <= r <= '9',
{
    let c = (d + 48) as u8;
    c as char
}

/// Returns the lower-case letter for a rank below nine.
pub fn letter_char(r: u32) -> (c: char)
    requires
        r < 9,
    ensures
        c == spec_rank_char(r as int),
        'a' <= c <= 'i',
{
    let b = (r + 97) as u8;
    b as char
}

} // verus!
