use vstd::prelude::*;
use crate::color::Color;
use crate::piece::Piece;
use crate::piece_type::PieceType;

verus! {

/// Slot of a piece in a hand: Pawn, Lance, Knight, Silver, Gold, Bishop, Rook for Black
/// (0..7), then the same for White (7..14). Other piece types have no slot.
pub open spec fn hand_slot(p: Piece) -> Option<int> {
    let base: int = match p.piece_type {
        PieceType::Pawn => 0,
        PieceType::Lance => 1,
        PieceType::Knight => 2,
        PieceType::Silver => 3,
        PieceType::Gold => 4,
        PieceType::Bishop => 5,
        PieceType::Rook => 6,
        _ => -1,
    };
    if base < 0 {
        None
    } else {
        Some(base + 7 * p.color.idx())
    }
}

/// Number of pieces `p` in a hand whose slot counts are `counts`.
pub open spec fn hand_count(counts: Seq<u8>, p: Piece) -> u8 {
    match hand_slot(p) {
        Some(i) => counts[i],
        None => 0,
    }
}

/// Counts after setting the count of `p` to `n` (no change for pieces without a slot).
pub open spec fn hand_set(counts: Seq<u8>, p: Piece, n: u8) -> Seq<u8> {
    match hand_slot(p) {
        Some(i) => counts.update(i, n),
        None => counts,
    }
}

/// Counts after adding one `p` (wrapping at 256).
pub open spec fn hand_inc(counts: Seq<u8>, p: Piece) -> Seq<u8> {
    hand_set(counts, p, ((hand_count(counts, p) + 1) % 256) as u8)
}

/// Counts after removing one `p` (wrapping below 0).
pub open spec fn hand_dec(counts: Seq<u8>, p: Piece) -> Seq<u8> {
    hand_set(counts, p, ((hand_count(counts, p) + 255) % 256) as u8)
}

/// Adding and then removing a piece restores the hand, and the other way round.
pub proof fn lemma_hand_inc_dec(counts: Seq<u8>, p: Piece)
    requires
        counts.len() == 14,
    ensures
        hand_dec(hand_inc(counts, p), p) == counts,
        hand_inc(hand_dec(counts, p), p) == counts,
        hand_inc(counts, p).len() == 14,
        hand_dec(counts, p).len() == 14,
{
    match hand_slot(p) {
        Some(i) => {
            assert(hand_dec(hand_inc(counts, p), p) =~= counts);
            assert(hand_inc(hand_dec(counts, p), p) =~= counts);
        },
        None => {},
    }
}

/// The pieces in hand of both players.
#[derive(Clone, Copy, Debug, PartialEq, Eq)]
pub struct Hand {
    inner: [u8; 14],
}

impl Hand {
    /// The fourteen slot counts.
    pub closed spec fn counts(&self) -> Seq<u8> {
        self.inner@
    }

    /// The slot counts always number fourteen.
    pub proof fn lemma_len(&self)
        ensures
            self.counts().len() == 14,
    {
    }

    /// An empty hand.
    pub fn new() -> (r: Hand)
        ensures
            r.counts() == Seq::new(14, |i: int| 0u8),
    {
        let r = Hand { inner: [0u8; 14] };
        proof {
            assert(r.counts() =~= Seq::new(14, |i: int| 0u8));
        }
        r
    }

    /// Returns the slot of a piece in the hand, if it can be held.
    fn index(p: Piece) -> (r: Option<usize>)
        ensures
            match hand_slot(p) {
                Some(i) => r == Some(i as usize) && 0 <= i < 14,
                None => r is None,
            },
    {
        let base: usize = match p.piece_type {
            PieceType::Pawn => 0,
            PieceType::Lance => 1,
            PieceType::Knight => 2,
            PieceType::Silver => 3,
            PieceType::Gold => 4,
            PieceType::Bishop => 5,
            PieceType::Rook => 6,
            _ => {
                return None;
            },
        };
        let offset: usize = match p.color {
            Color::Black => 0,
            Color::White => 7,
        };
        Some(base + offset)
    }

    /// Returns the number of the given piece in hand (0 for pieces that cannot be held).
    pub fn get(&self, p: Piece) -> (r: u8)
        ensures
            r == hand_count(self.counts(), p),
    {
        match Hand::index(p) {
            Some(i) => self.inner[i],
            None => 0,
        }
    }

    /// Sets the number of the given piece in hand (ignored for pieces that cannot be held).
    pub fn set(&mut self, p: Piece, num: u8)
        ensures
            final(self).counts() == hand_set(old(self).counts(), p, num),
    {
        match Hand::index(p) {
            Some(i) => {
                self.inner[i] = num;
            },
            None => {},
        }
    }

    /// Adds one piece to the hand (wrapping at 256).
    pub fn increment(&mut self, p: Piece)
        ensures
            final(self).counts() == hand_inc(old(self).counts(), p),
    {
        match Hand::index(p) {
            Some(i) => {
                self.inner[i] = self.inner[i].wrapping_add(1);
            },
            None => {},
        }
    }

    /// Removes one piece from the hand (wrapping below 0).
    pub fn decrement(&mut self, p: Piece)
        ensures
            final(self).counts() == hand_dec(old(self).counts(), p),
    {
        match Hand::index(p) {
            Some(i) => {
                self.inner[i] = self.inner[i].wrapping_sub(1);
            },
            None => {},
        }
    }

    /// Removes all pieces from the hand.
    pub fn clear(&mut self)
        ensures
            final(self).counts() == Seq::new(14, |i: int| 0u8),
    {
        self.inner = [0u8; 14];
        proof {
            assert(self.counts() =~= Seq::new(14, |i: int| 0u8));
        }
    }
}

} // verus!
