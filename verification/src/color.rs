use vstd::prelude::*;

verus! {

/// The two players. Black moves first and plays "up" the board (toward rank a).
#[derive(Clone, Copy, Debug, PartialEq, Eq, Structural, Hash)]
pub enum Color {
    Black,
    White,
}

impl Color {
    /// The index of the color: 0 for Black, 1 for White.
    pub open spec fn idx(self) -> int {
        match self {
            Color::Black => 0,
            Color::White => 1,
        }
    }

    /// The other player.
    pub open spec fn opp(self) -> Color {
        match self {
            Color::Black => Color::White,
            Color::White => Color::Black,
        }
    }

    /// Returns the index of the color (0 for Black, 1 for White).
    pub fn index(self) -> (r: usize)
        ensures
            r == self.idx(),
    {
        match self {
            Color::Black => 0,
            Color::White => 1,
        }
    }

    /// Returns the opponent's color.
    pub fn flip(self) -> (r: Color)
        ensures
            r == self.opp(),
    {
        match self {
            Color::Black => Color::White,
            Color::White => Color::Black,
        }
    }

    /// Returns the color with the given index, if any.
    pub fn from_index(i: usize) -> (r: Option<Color>)
        ensures
            i < 2 ==> (r matches Some(c) && c.idx() == i),
            i >= 2 ==> r is None,
    {
        if i == 0 {
            Some(Color::Black)
        } else if i == 1 {
            Some(Color::White)
        } else {
            None
        }
    }
}

/// Flipping twice gives back the color.
pub proof fn lemma_flip_involutive(c: Color)
    ensures
        c.opp().opp() == c,
        c.opp() != c,
{
}

} // verus!
