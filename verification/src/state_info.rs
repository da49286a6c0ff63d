use vstd::prelude::*;
use crate::attack::{attack_set, piece_attack, rook_attack, bishop_attack, lance_attack, promote_zone, zone_set};
use crate::bitboard::Bitboard;
use crate::color::Color;
use crate::hand::{Hand, hand_count};
use crate::piece::Piece;
use crate::piece_type::{PieceType, pt_of_index};
use crate::rules::{
    StateView, occupied, color_set, type_set, pieces_of, king_at, king_square, move_targets,
    attackers, attacked, in_check, lemma_king_square, pinned_set, pinned_upto, pinned_by,
    pin_type, pin_mask_piece, pin_candidates, pins, lemma_singleton_of, can_declare,
    zone_pieces_upto, zone_points_upto, hand_points_upto, normal_move, drop_move, unmake,
    capture_gain, only_pinned_attackers, king_trapped, nifu, attacked_virtually, opt_square,
    leaves_check_normal, leaves_check_drop, legal_normal, legal_drop, legal,
};
use crate::square::{Square, file_of, index_at};
use crate::error::MoveError;
use crate::moves::{Move, MoveRecord};

verus! {

/// The 81 squares of the board.
#[derive(Clone, Debug)]
pub struct PieceGrid(pub(crate) [Option<Piece>; 81]);

impl PieceGrid {
    /// The contents of the squares.
    pub closed spec fn cells(&self) -> Seq<Option<Piece>> {
        self.0@
    }

    /// There are always 81 cells.
    pub proof fn lemma_len(&self)
        ensures
            self.cells().len() == 81,
    {
    }

    /// An empty grid.
    pub fn empty() -> (r: PieceGrid)
        ensures
            r.cells() == Seq::new(81, |i: int| None::<Piece>),
    {
        let r = PieceGrid([None; 81]);
        proof {
            assert(r.cells() =~= Seq::new(81, |i: int| None::<Piece>));
        }
        r
    }

    /// Returns the piece on the square.
    pub fn get(&self, sq: Square) -> (r: &Option<Piece>)
        ensures
            *r == self.cells()[sq.idx()],
    {
        &self.0[sq.index()]
    }

    /// Puts a piece (or nothing) on the square.
    pub fn set(&mut self, sq: Square, pc: Option<Piece>)
        ensures
            final(self).cells() == old(self).cells().update(sq.idx(), pc),
    {
        self.0[sq.index()] = pc;
    }
}

/// A board state: pieces on the board and in hand, ply and side to move, with bitboards
/// that index the pieces by color and type.
#[derive(Clone, Debug)]
pub struct StateInfo {
    pub(crate) board: PieceGrid,
    pub(crate) hand: Hand,
    pub(crate) ply: u16,
    pub(crate) side_to_move: Color,
    pub(crate) occupied_bb: Bitboard,
    pub(crate) color_bb: [Bitboard; 2],
    pub(crate) type_bb: [Bitboard; 14],
}

impl View for StateInfo {
    type V = StateView;

    closed spec fn view(&self) -> StateView {
        StateView {
            board: self.board.cells(),
            hand: self.hand.counts(),
            ply: self.ply,
            stm: self.side_to_move,
        }
    }
}

impl StateInfo {
    /// The bitboards agree with the board.
    pub closed spec fn wf(&self) -> bool {
        &&& self.occupied_bb@ == occupied(self.board.cells())
        &&& forall|c: int| 0 <= c < 2 ==> #[trigger] self.color_bb@[c]@ == color_set(
            self.board.cells(),
            if c == 0 {
                Color::Black
            } else {
                Color::White
            },
        )
        &&& forall|t: int| 0 <= t < 14 ==> #[trigger] self.type_bb@[t]@ == type_set(self.board.cells(), t)
    }

    /// The bitboards of a well-formed state index its board.
    pub(crate) proof fn lemma_bitboards(&self)
        requires
            self.wf(),
        ensures
            self.occupied_bb@ == occupied(self@.board),
            self.color_bb@[0]@ == color_set(self@.board, Color::Black),
            self.color_bb@[1]@ == color_set(self@.board, Color::White),
            forall|t: int| 0 <= t < 14 ==> #[trigger] self.type_bb@[t]@ == type_set(self@.board, t),
    {
        assert(self.color_bb@[0]@ == color_set(self@.board, Color::Black));
        assert(self.color_bb@[1]@ == color_set(self@.board, Color::White));
    }

    /// The view always has 81 squares and 14 hand counts.
    pub proof fn lemma_view_len(&self)
        ensures
            self@.board.len() == 81,
            self@.hand.len() == 14,
    {
        self.hand.lemma_len();
    }

    /// The bitboard of a color.
    fn color_bitboard(&self, c: Color) -> (r: Bitboard)
        requires
            self.wf(),
        ensures
            r@ == color_set(self@.board, c),
    {
        self.color_bb[c.index()]
    }

    /// The squares holding a piece of the given type and color.
    fn pieces_bitboard(&self, pt: PieceType, c: Color) -> (r: Bitboard)
        requires
            self.wf(),
        ensures
            r@ == pieces_of(self@.board, pt, c),
    {
        let r = self.type_bb[pt.index()].and(&self.color_bb[c.index()]);
        proof {
            assert(r@ =~= pieces_of(self@.board, pt, c));
        }
        r
    }

    /// An empty board, Black to move, ply 1.
    pub fn new() -> (r: StateInfo)
        ensures
            r.wf(),
            r@.board == Seq::new(81, |i: int| None::<Piece>),
            r@.hand == Seq::new(14, |i: int| 0u8),
            r@.ply == 1,
            r@.stm == Color::Black,
    {
        let e = Bitboard::empty();
        let r = StateInfo {
            board: PieceGrid::empty(),
            hand: Hand::new(),
            ply: 1,
            side_to_move: Color::Black,
            occupied_bb: e,
            color_bb: [e; 2],
            type_bb: [e; 14],
        };
        proof {
            assert(occupied(r.board.cells()) =~= Set::<int>::empty());
            assert forall|c: int| 0 <= c < 2 implies #[trigger] r.color_bb@[c]@ == color_set(
                r.board.cells(),
                if c == 0 {
                    Color::Black
                } else {
                    Color::White
                },
            ) by {
                assert(color_set(r.board.cells(), if c == 0 {
                    Color::Black
                } else {
                    Color::White
                }) =~= Set::<int>::empty());
            }
            assert forall|t: int| 0 <= t < 14 implies #[trigger] r.type_bb@[t]@ == type_set(
                r.board.cells(),
                t,
            ) by {
                assert(type_set(r.board.cells(), t) =~= Set::<int>::empty());
            }
        }
        r
    }

    /// Returns the piece on the given square.
    pub fn piece_at(&self, sq: Square) -> (r: &Option<Piece>)
        ensures
            *r == self@.board[sq.idx()],
    {
        self.board.get(sq)
    }

    /// Returns the bitboard of the occupied squares.
    pub fn occupied_bb(&self) -> (r: &Bitboard)
        requires
            self.wf(),
        ensures
            r@ == occupied(self@.board),
    {
        proof {
            self.lemma_bitboards();
        }
        &self.occupied_bb
    }

    /// Returns the bitboard of the squares holding pieces of the given player.
    pub fn player_bb(&self, c: Color) -> (r: &Bitboard)
        requires
            self.wf(),
        ensures
            r@ == color_set(self@.board, c),
    {
        &self.color_bb[c.index()]
    }

    /// Returns the number of the given piece in hand.
    pub fn hand(&self, p: Piece) -> (r: u8)
        ensures
            r == hand_count(self@.hand, p),
    {
        self.hand.get(p)
    }

    /// Returns the side to make a move next.
    pub fn side_to_move(&self) -> (r: Color)
        ensures
            r == self@.stm,
    {
        self.side_to_move
    }

    /// Returns the number of plies already completed.
    pub fn ply(&self) -> (r: u16)
        ensures
            r == self@.ply,
    {
        self.ply
    }

    /// Replaces the content of a square, keeping the bitboards in agreement.
    pub(crate) fn replace(&mut self, sq: Square, p: Option<Piece>)
        requires
            old(self).wf(),
        ensures
            final(self).wf(),
            final(self)@ == (StateView { board: old(self)@.board.update(sq.idx(), p), ..old(self)@ }),
    {
        let ghost b0 = self@.board;
        proof {
            sq.lemma_idx_bound();
        }
        match *self.board.get(sq) {
            Some(o) => {
                self.occupied_bb.toggle(sq);
                let ci = o.color.index();
                let ti = o.piece_type.index();
                let mut cb = self.color_bb[ci];
                cb.toggle(sq);
                self.color_bb[ci] = cb;
                let mut tb = self.type_bb[ti];
                tb.toggle(sq);
                self.type_bb[ti] = tb;
            },
            None => {},
        }
        match p {
            Some(n) => {
                self.occupied_bb.toggle(sq);
                let ci = n.color.index();
                let ti = n.piece_type.index();
                let mut cb = self.color_bb[ci];
                cb.toggle(sq);
                self.color_bb[ci] = cb;
                let mut tb = self.type_bb[ti];
                tb.toggle(sq);
                self.type_bb[ti] = tb;
            },
            None => {},
        }
        self.board.set(sq, p);
        proof {
            let b1 = self@.board;
            let i = sq.idx();
            assert(self.occupied_bb@ =~= occupied(b1));
            assert forall|c: int| 0 <= c < 2 implies #[trigger] self.color_bb@[c]@ == color_set(
                b1,
                if c == 0 {
                    Color::Black
                } else {
                    Color::White
                },
            ) by {
                assert(self.color_bb@[c]@ =~= color_set(b1, if c == 0 {
                    Color::Black
                } else {
                    Color::White
                }));
            }
            assert forall|t: int| 0 <= t < 14 implies #[trigger] self.type_bb@[t]@ == type_set(b1, t) by {
                assert(self.type_bb@[t]@ =~= type_set(b1, t));
            }
        }
    }

    /// Returns the square of the king of the given color (the lowest one if several).
    pub fn find_king(&self, c: Color) -> (r: Option<Square>)
        requires
            self.wf(),
        ensures
            match king_square(self@.board, c) {
                Some(k) => r matches Some(s) && s.idx() == k && king_at(self@.board, k, c),
                None => r is None,
            },
    {
        let mut bb = self.pieces_bitboard(PieceType::King, c);
        if bb.is_any() {
            let s = bb.pop();
            proof {
                let b = self@.board;
                assert(pieces_of(b, PieceType::King, c).contains(s.idx()));
                assert forall|j: int| 0 <= j < s.idx() implies !king_at(b, j, c) by {
                    if king_at(b, j, c) {
                        assert(pieces_of(b, PieceType::King, c).contains(j));
                    }
                }
                lemma_king_square(b, c, s.idx());
            }
            Some(s)
        } else {
            proof {
                let b = self@.board;
                assert forall|i: int| !king_at(b, i, c) by {
                    if king_at(b, i, c) {
                        assert(pieces_of(b, PieceType::King, c).contains(i));
                    }
                }
            }
            None
        }
    }

    /// Squares to which piece `p` on `sq` can move under occupancy `occupied`.
    pub(crate) fn move_candidates_with_occupied(&self, sq: Square, p: Piece, occupied: &Bitboard) -> (r: Bitboard)
        requires
            self.wf(),
        ensures
            r@ == move_targets(self@.board, sq.idx(), p, occupied@),
    {
        let bb = piece_attack(p, sq, occupied);
        let own = self.color_bitboard(p.color);
        let r = bb.and(&own.not());
        proof {
            bb.lemma_view_finite();
            assert(r@ =~= move_targets(self@.board, sq.idx(), p, occupied@));
        }
        r
    }
    /// Squares to which piece `p` on `sq` can move.
    pub fn move_candidates(&self, sq: Square, p: Piece) -> (r: Bitboard)
        requires
            self.wf(),
        ensures
            r@ == move_targets(self@.board, sq.idx(), p, occupied(self@.board)),
    {
        self.move_candidates_with_occupied(sq, p, &self.occupied_bb)
    }

    /// Pieces of type `pt` and color `c` attacking `sq` under occupancy `occupied`.
    pub(crate) fn get_attackers_of_type_with_occupied(
        &self,
        pt: PieceType,
        sq: Square,
        c: Color,
        occupied: &Bitboard,
    ) -> (r: Bitboard)
        requires
            self.wf(),
        ensures
            r@ == attackers(self@.board, pt, sq.idx(), c, occupied@),
    {
        let bb = self.pieces_bitboard(pt, c);
        if bb.is_empty() {
            proof {
                assert(bb@ =~= attackers(self@.board, pt, sq.idx(), c, occupied@));
            }
            return bb;
        }
        let attack_pc = Piece { piece_type: pt, color: c };
        let mc = self.move_candidates_with_occupied(sq, attack_pc.flip(), occupied);
        let r = bb.and(&mc);
        proof {
            assert(r@ =~= attackers(self@.board, pt, sq.idx(), c, occupied@));
        }
        r
    }

    /// Pieces of type `pt` and color `c` attacking `sq`.
    pub(crate) fn get_attackers_of_type(&self, pt: PieceType, sq: Square, c: Color) -> (r: Bitboard)
        requires
            self.wf(),
        ensures
            r@ == attackers(self@.board, pt, sq.idx(), c, occupied(self@.board)),
    {
        self.get_attackers_of_type_with_occupied(pt, sq, c, &self.occupied_bb)
    }

    /// Returns true if `sq` is attacked by a piece of color `c` under occupancy `occupied`.
    pub(crate) fn is_attacked_by_with_occupied(&self, sq: Square, c: Color, occupied: &Bitboard) -> (r: bool)
        requires
            self.wf(),
        ensures
            r == attacked(self@.board, sq.idx(), c, occupied@),
    {
        let mut t: usize = 0;
        while t < 14
            invariant
                t <= 14,
                self.wf(),
                forall|u: int| 0 <= u < t ==> attackers(self@.board, pt_of_index(u), sq.idx(), c, occupied@).is_empty(),
            decreases 14 - t,
        {
            let pt = PieceType::from_index(t);
            let a = self.get_attackers_of_type_with_occupied(pt, sq, c, occupied);
            if a.is_any() {
                return true;
            }
            t = t + 1;
        }
        false
    }

    /// Returns true if `sq` is attacked by a piece of color `c`.
    pub(crate) fn is_attacked_by(&self, sq: Square, c: Color) -> (r: bool)
        requires
            self.wf(),
        ensures
            r == attacked(self@.board, sq.idx(), c, occupied(self@.board)),
    {
        self.is_attacked_by_with_occupied(sq, c, &self.occupied_bb)
    }

    /// Returns true if the king of the given color is in check.
    pub fn in_check(&self, c: Color) -> (r: bool)
        requires
            self.wf(),
        ensures
            r == in_check(self@.board, c),
    {
        match self.find_king(c) {
            Some(king_sq) => self.is_attacked_by(king_sq, c.flip()),
            None => false,
        }
    }
    /// Returns the squares of pieces of color `c` pinned to their king by an enemy slider.
    pub fn pinned_bb(&self, c: Color) -> (r: Bitboard)
        requires
            self.wf(),
        ensures
            r@ == pinned_set(self@.board, c),
    {
        let ksq = self.find_king(c);
        if ksq.is_none() {
            return Bitboard::empty();
        }
        let ksq = ksq.unwrap();
        let ghost b = self@.board;
        let ghost k = ksq.idx();
        let e = Bitboard::empty();
        let kinds: [PieceType; 5] = [
            PieceType::Rook,
            PieceType::ProRook,
            PieceType::Bishop,
            PieceType::ProBishop,
            PieceType::Lance,
        ];
        let masks: [Bitboard; 5] = [
            rook_attack(ksq, &e),
            rook_attack(ksq, &e),
            bishop_attack(ksq, &e),
            bishop_attack(ksq, &e),
            lance_attack(c, ksq, &e),
        ];
        let mut accum = Bitboard::empty();
        let mut j: usize = 0;
        while j < 5
            invariant
                j <= 5,
                self.wf(),
                b == self@.board,
                k == ksq.idx(),
                e@ == Set::<int>::empty(),
                forall|u: int| 0 <= u < 5 ==> #[trigger] kinds@[u] == pin_type(u),
                forall|u: int| 0 <= u < 5 ==> #[trigger] masks@[u]@ == attack_set(pin_mask_piece(u, c), k, Set::empty()),
                accum@ == pinned_upto(b, c, k, j as int),
            decreases 5 - j,
        {
            let pt = kinds[j];
            let mut bb = self.pieces_bitboard(pt, c.flip()).and(&masks[j]);
            let ghost cand = bb@;
            let ghost base = accum@;
            proof {
                assert(cand =~= pin_candidates(b, c, k, j as int));
            }
            while bb.is_any()
                invariant
                    self.wf(),
                    b == self@.board,
                    k == ksq.idx(),
                    bb@.subset_of(cand),
                    accum@ == base.union(pinned_by(b, c, k, j as int, cand.difference(bb@))),
                decreases bb@.len(),
            {
                proof {
                    bb.lemma_view_finite();
                }
                let ghost before = bb@;
                let psq = bb.pop();
                let between = crate::attack::between(ksq, psq).and(&self.occupied_bb);
                let ghost done = cand.difference(before);
                let ghost done2 = cand.difference(bb@);
                proof {
                    assert(done2 =~= done.insert(psq.idx()));
                    between.lemma_view_finite();
                }
                let hit = between.count() == 1 && between.and(&self.color_bb[c.index()]).is_any();
                proof {
                    assert forall|s: int| pins(b, c, k, psq.idx(), s) <==> (hit && between@.contains(s)) by {
                        if hit && between@.contains(s) {
                            lemma_singleton_of(between@, s);
                            let x = choose|x: int| between@.intersect(color_set(b, c)).contains(x);
                            lemma_singleton_of(between@, x);
                        }
                        if pins(b, c, k, psq.idx(), s) {
                            assert(between@ =~= set![s]);
                            assert(between@.intersect(color_set(b, c)).contains(s));
                        }
                    }
                }
                if hit {
                    accum = accum.or(&between);
                }
                proof {
                    let pb1 = pinned_by(b, c, k, j as int, done);
                    let pb2 = pinned_by(b, c, k, j as int, done2);
                    assert forall|s: int| pb2.contains(s) <==> (pb1.contains(s) || pins(b, c, k, psq.idx(), s)) by {
                        if pb2.contains(s) {
                            let w = choose|w: int| done2.contains(w) && pins(b, c, k, w, s);
                            if w != psq.idx() {
                                assert(done.contains(w));
                            }
                        }
                        if pins(b, c, k, psq.idx(), s) {
                            assert(done2.contains(psq.idx()));
                        }
                        if pb1.contains(s) {
                            let w = choose|w: int| done.contains(w) && pins(b, c, k, w, s);
                            assert(done2.contains(w));
                        }
                    }
                    assert(accum@ =~= base.union(pb2));
                }
            }
            proof {
                assert(cand.difference(bb@) =~= cand);
            }
            j = j + 1;
        }
        accum
    }
    /// Returns true if the player of the given color can declare a win (CSA rule 25).
    pub fn try_declare_winning(&self, c: Color) -> (r: bool)
        requires
            self.wf(),
        ensures
            r == can_declare(self@, c),
    {
        if self.side_to_move != c {
            return false;
        }
        match self.find_king(c) {
            Some(king_sq) => {
                if !king_sq.in_promotion_zone(c) {
                    return false;
                }
            },
            None => {
                return false;
            },
        }
        let zone = promote_zone(c);
        let ghost b = self@.board;
        let mut point: u32 = 0;
        let mut count: u32 = 0;
        let mut t: usize = 1;
        while t < 14
            invariant
                1 <= t <= 14,
                self.wf(),
                b == self@.board,
                zone@ == zone_set(c),
                count == zone_pieces_upto(b, c, t as int),
                point == zone_points_upto(b, c, t as int),
                count <= 81 * t,
                point <= 405 * t,
            decreases 14 - t,
        {
            let pt = PieceType::from_index(t);
            let unit: u32 = match pt {
                PieceType::Rook | PieceType::Bishop | PieceType::ProRook | PieceType::ProBishop => 5,
                _ => 1,
            };
            let bb = self.pieces_bitboard(pt, c).and(&zone);
            let n = bb.count();
            count = count + n;
            point = point + n * unit;
            t = t + 1;
        }
        if count < 10 {
            return false;
        }
        let ghost h = self@.hand;
        let mut t: usize = 1;
        let mut hp: u32 = 0;
        while t < 14
            invariant
                1 <= t <= 14,
                h == self@.hand,
                hp == hand_points_upto(h, c, t as int),
                hp <= 1275 * t,
            decreases 14 - t,
        {
            let pt = PieceType::from_index(t);
            let pp: u32 = match pt {
                PieceType::Rook | PieceType::Bishop | PieceType::ProRook | PieceType::ProBishop => 5,
                _ => 1,
            };
            let num = self.hand.get(Piece { piece_type: pt, color: c }) as u32;
            hp = hp + num * pp;
            t = t + 1;
        }
        let lowerbound: u32 = match c {
            Color::Black => 28,
            Color::White => 27,
        };
        if point + hp < lowerbound {
            return false;
        }
        if self.in_check(c) {
            return false;
        }
        true
    }
    /// The piece that goes to the capturer's hand when `cap` is captured.
    fn capture_gain_of(cap: Piece) -> (r: Piece)
        ensures
            r == capture_gain(cap),
    {
        let pc = cap.flip();
        match pc.unpromote() {
            Some(unpromoted) => unpromoted,
            None => pc,
        }
    }

    /// Moves the piece on `from` to `to`, promoting it if `promoted`, after checking that the
    /// move is allowed. On success the side to move changes and the ply advances; on failure
    /// the state is unchanged. Position history is not updated here.
    #[verifier::spinoff_prover]
    #[verifier::rlimit(60)]
    pub(crate) fn make_normal_move(&mut self, from: Square, to: Square, promoted: bool) -> (r: Result<MoveRecord, MoveError>)
        requires
            old(self).wf(),
        ensures
            final(self).wf(),
            match normal_move(old(self)@, from, to, promoted) {
                Ok((v, rec)) => r == Ok::<MoveRecord, MoveError>(rec) && final(self)@ == v,
                Err(e) => r == Err::<MoveRecord, MoveError>(e) && final(self)@ == old(self)@,
            },
    {
        let stm = self.side_to_move;
        let opponent = stm.flip();
        let moved = match *self.piece_at(from) {
            Some(p) => p,
            None => {
                return Err(MoveError::Inconsistent("No piece found"));
            },
        };
        let captured = *self.piece_at(to);
        if moved.color != stm {
            return Err(MoveError::Inconsistent("The piece is not for the side to move"));
        }
        if promoted && !from.in_promotion_zone(stm) && !to.in_promotion_zone(stm) {
            return Err(MoveError::Inconsistent("The piece cannot promote"));
        }
        if !self.move_candidates(from, moved).contains(to) {
            return Err(MoveError::Inconsistent("The piece cannot move to there"));
        }
        if !promoted && !moved.is_placeable_at(to) {
            return Err(MoveError::NonMovablePiece);
        }
        let placed = if promoted {
            match moved.promote() {
                Some(p) => p,
                None => {
                    return Err(MoveError::Inconsistent("This type of piece cannot promote"));
                },
            }
        } else {
            moved
        };
        let ghost v0 = self@;
        proof {
            v0.board.len();
            self.lemma_view_len();
            from.lemma_idx_bound();
            to.lemma_idx_bound();
            assert(color_set(v0.board, moved.color).contains(from.idx()));
            assert(from.idx() != to.idx());
        }
        self.replace(from, None);
        self.replace(to, Some(placed));
        match captured {
            Some(cap) => {
                self.hand.increment(StateInfo::capture_gain_of(cap));
            },
            None => {},
        }
        if self.in_check(stm) {
            self.replace(from, Some(moved));
            self.replace(to, captured);
            match captured {
                Some(cap) => {
                    self.hand.decrement(StateInfo::capture_gain_of(cap));
                    proof {
                        crate::hand::lemma_hand_inc_dec(v0.hand, capture_gain(cap));
                    }
                },
                None => {},
            }
            proof {
                assert(self@.board =~= v0.board);
            }
            return Err(MoveError::InCheck);
        }
        self.side_to_move = opponent;
        self.ply = self.ply.wrapping_add(1);
        Ok(MoveRecord::Normal { from, to, placed, captured, promoted })
    }

    /// Returns true if every piece of type index `1..14` and color `opponent` attacking `to`
    /// is in `pinned`.
    fn only_pinned(&self, to: Square, opponent: Color, pinned: &Bitboard) -> (r: bool)
        requires
            self.wf(),
            pinned@ == pinned_set(self@.board, opponent),
        ensures
            r == only_pinned_attackers(self@.board, to.idx(), opponent),
    {
        let ghost b = self@.board;
        let mut t: usize = 1;
        while t < 14
            invariant
                1 <= t <= 14,
                self.wf(),
                b == self@.board,
                pinned@ == pinned_set(b, opponent),
                forall|u: int, a: int|
                    1 <= u < t && #[trigger] attackers(b, pt_of_index(u), to.idx(), opponent, occupied(b)).contains(a)
                        ==> pinned_set(b, opponent).contains(a),
            decreases 14 - t,
        {
            let pt = PieceType::from_index(t);
            let mut att = self.get_attackers_of_type(pt, to, opponent);
            let ghost all = att@;
            while att.is_any()
                invariant
                    1 <= t < 14,
                    self.wf(),
                    b == self@.board,
                    att@.subset_of(all),
                    all == attackers(b, pt_of_index(t as int), to.idx(), opponent, occupied(b)),
                    pinned@ == pinned_set(b, opponent),
                    forall|a: int| all.contains(a) && !att@.contains(a) ==> pinned_set(b, opponent).contains(a),
                decreases att@.len(),
            {
                proof {
                    att.lemma_view_finite();
                }
                let sq = att.pop();
                if !pinned.contains(sq) {
                    proof {
                        assert(attackers(b, pt_of_index(t as int), to.idx(), opponent, occupied(b)).contains(sq.idx()));
                        assert(!only_pinned_attackers(b, to.idx(), opponent));
                    }
                    return false;
                }
            }
            t = t + 1;
        }
        true
    }

    /// Returns true if every square the king `king` on `ks` could move to, with occupancy
    /// `occ`, holds a piece of the king's color or is attacked by color `by`.
    fn king_cannot_escape(&self, ks: Square, king: Piece, by: Color, occ: &Bitboard) -> (r: bool)
        requires
            self.wf(),
        ensures
            r == king_trapped(self@.board, ks.idx(), king, by, occ@),
    {
        let ghost b = self@.board;
        let mut cand = self.move_candidates_with_occupied(ks, king, occ);
        let ghost all = cand@;
        while cand.is_any()
            invariant
                self.wf(),
                b == self@.board,
                cand@.subset_of(all),
                all == move_targets(b, ks.idx(), king, occ@),
                forall|s: int| all.contains(s) && !cand@.contains(s) ==> ((b[s] matches Some(q) && q.color
                    == king.color) || attacked(b, s, by, occ@)),
            decreases cand@.len(),
        {
            proof {
                cand.lemma_view_finite();
            }
            let sq = cand.pop();
            let own = match *self.piece_at(sq) {
                Some(q) => q.color == king.color,
                None => false,
            };
            if !own && !self.is_attacked_by_with_occupied(sq, by, occ) {
                return false;
            }
        }
        true
    }

    /// Drops a piece of type `pt` from the hand of the side to move onto `to`, after checking
    /// that the drop is allowed. On failure the state is unchanged.
    pub(crate) fn make_drop_move(&mut self, to: Square, pt: PieceType) -> (r: Result<MoveRecord, MoveError>)
        requires
            old(self).wf(),
        ensures
            final(self).wf(),
            match drop_move(old(self)@, to, pt) {
                Ok((v, rec)) => r == Ok::<MoveRecord, MoveError>(rec) && final(self)@ == v,
                Err(e) => r == Err::<MoveRecord, MoveError>(e) && final(self)@ == old(self)@,
            },
    {
        let stm = self.side_to_move;
        let opponent = stm.flip();
        if self.piece_at(to).is_some() {
            return Err(MoveError::Inconsistent("There is already a piece in `to`"));
        }
        let pc = Piece { piece_type: pt, color: stm };
        if self.hand.get(pc) == 0 {
            return Err(MoveError::Inconsistent("The piece is not in the hand"));
        }
        if !pc.is_placeable_at(to) {
            return Err(MoveError::NonMovablePiece);
        }
        let ghost v0 = self@;
        if pt == PieceType::Pawn {
            let file = to.file();
            let mut i: u8 = 0;
            while i < 9
                invariant
                    i <= 9,
                    file == file_of(to.idx()),
                    file < 9,
                    v0 == self@,
                    v0 == old(self)@,
                    self.wf(),
                    pc == (Piece { piece_type: pt, color: stm }),
                    pt == PieceType::Pawn,
                    stm == v0.stm,
                    v0.board[to.idx()] is None,
                    hand_count(v0.hand, pc) != 0,
                    pc.placeable(to.idx()),
                    forall|r: int| 0 <= r < i ==> v0.board[index_at(file_of(to.idx()), r)] != Some(pc),
                decreases 9 - i,
            {
                let sq = Square::new(file, i).unwrap();
                match *self.piece_at(sq) {
                    Some(fp) => {
                        if fp == pc {
                            proof {
                                assert(v0.board[index_at(file_of(to.idx()), i as int)] == Some(pc));
                                assert(nifu(v0.board, to.idx(), pc));
                            }
                            return Err(MoveError::Nifu);
                        }
                    },
                    None => {},
                }
                i = i + 1;
            }
            let dr: i8 = if stm == Color::Black {
                -1
            } else {
                1
            };
            match to.shift(0, dr) {
                Some(king_sq) => {
                    match *self.piece_at(king_sq) {
                        Some(kp) => {
                            if kp.piece_type == PieceType::King && kp.color == opponent {
                                let pinned = self.pinned_bb(opponent);
                                let not_attacked = self.only_pinned(to, opponent, &pinned);
                                if not_attacked {
                                    let mut occ2 = self.occupied_bb;
                                    occ2.toggle(to);
                                    proof {
                                        assert(occ2@ == occupied(v0.board).insert(to.idx()));
                                    }
                                    if self.king_cannot_escape(king_sq, kp, stm, &occ2) {
                                        return Err(MoveError::Uchifuzume);
                                    }
                                }
                            }
                        },
                        None => {},
                    }
                },
                None => {},
            }
        }
        proof {
            self.lemma_view_len();
            to.lemma_idx_bound();
        }
        self.replace(to, Some(pc));
        if self.in_check(stm) {
            self.replace(to, None);
            proof {
                assert(self@.board =~= v0.board);
            }
            return Err(MoveError::InCheck);
        }
        self.hand.decrement(pc);
        self.side_to_move = opponent;
        self.ply = self.ply.wrapping_add(1);
        Ok(MoveRecord::Drop { to, piece: pc })
    }

    /// Undoes a recorded move. Fails, leaving the state unchanged, if the board does not
    /// show the recorded move as made. Position history is not updated here.
    pub(crate) fn unmake_move(&mut self, record: MoveRecord) -> (r: Result<(), MoveError>)
        requires
            old(self).wf(),
        ensures
            final(self).wf(),
            match unmake(old(self)@, record) {
                Ok(v) => r is Ok && final(self)@ == v,
                Err(e) => r == Err::<(), MoveError>(e) && final(self)@ == old(self)@,
            },
    {
        match record {
            MoveRecord::Normal { from, to, placed, captured, promoted } => {
                if self.piece_at(from).is_some() {
                    return Err(MoveError::Inconsistent("`from` of the move is filled by another piece"));
                }
                let moved = if promoted {
                    match placed.unpromote() {
                        Some(unpromoted) => unpromoted,
                        None => {
                            return Err(MoveError::Inconsistent("Cannot unpromoted the piece"));
                        },
                    }
                } else {
                    placed
                };
                let found = match *self.piece_at(to) {
                    Some(p) => p == placed,
                    None => false,
                };
                if !found {
                    return Err(MoveError::Inconsistent("Expected piece is not found in `to`"));
                }
                self.replace(from, Some(moved));
                self.replace(to, captured);
                match captured {
                    Some(cap) => {
                        self.hand.decrement(StateInfo::capture_gain_of(cap));
                    },
                    None => {},
                }
            },
            MoveRecord::Drop { to, piece } => {
                let found = match *self.piece_at(to) {
                    Some(p) => p == piece,
                    None => false,
                };
                if !found {
                    return Err(MoveError::Inconsistent("Expected piece is not found in `to`"));
                }
                self.replace(to, None);
                self.hand.increment(piece);
            },
        }
        self.side_to_move = self.side_to_move.flip();
        self.ply = self.ply.wrapping_sub(1);
        Ok(())
    }
    /// Replaces the hand.
    pub(crate) fn set_hand(&mut self, hand: Hand)
        requires
            old(self).wf(),
        ensures
            final(self).wf(),
            final(self)@ == (StateView { hand: hand.counts(), ..old(self)@ }),
    {
        self.hand = hand;
    }

    /// Sets the side to move.
    pub(crate) fn set_side_to_move(&mut self, c: Color)
        requires
            old(self).wf(),
        ensures
            final(self).wf(),
            final(self)@ == (StateView { stm: c, ..old(self)@ }),
    {
        self.side_to_move = c;
    }

    /// Sets the ply.
    pub(crate) fn set_ply(&mut self, ply: u16)
        requires
            old(self).wf(),
        ensures
            final(self).wf(),
            final(self)@ == (StateView { ply, ..old(self)@ }),
    {
        self.ply = ply;
    }

    /// Returns a copy of the hand.
    pub(crate) fn hand_copy(&self) -> (r: Hand)
        ensures
            r.counts() == self@.hand,
    {
        self.hand
    }

    /// Returns a copy of the state.
    pub fn copy(&self) -> (r: StateInfo)
        ensures
            r@ == self@,
            self.wf() ==> r.wf(),
    {
        StateInfo {
            board: PieceGrid(self.board.0),
            hand: self.hand,
            ply: self.ply,
            side_to_move: self.side_to_move,
            occupied_bb: self.occupied_bb,
            color_bb: self.color_bb,
            type_bb: self.type_bb,
        }
    }
    /// Returns true if a piece of color `attacker` (other than one on `captured_sq`) would
    /// attack `king_sq` with the occupied squares `virtual_occupied`.
    fn is_king_attacked_with_virtual_board(
        &self,
        king_sq: Square,
        attacker: Color,
        virtual_occupied: &Bitboard,
        captured_sq: Option<Square>,
    ) -> (r: bool)
        requires
            self.wf(),
        ensures
            r == attacked_virtually(self@.board, king_sq.idx(), attacker, virtual_occupied@, match captured_sq {
                Some(s) => Some(s.idx()),
                None => None,
            }),
    {
        let ghost cap = match captured_sq {
            Some(s) => Some(s.idx()),
            None => None::<int>,
        };
        let mut t: usize = 0;
        while t < 14
            invariant
                t <= 14,
                self.wf(),
                cap == (match captured_sq {
                    Some(s) => Some(s.idx()),
                    None => None::<int>,
                }),
                forall|u: int|
                    0 <= u < t ==> pieces_of(self@.board, pt_of_index(u), attacker).difference(opt_square(cap)).intersect(
                        attack_set(Piece { piece_type: pt_of_index(u), color: attacker.opp() }, king_sq.idx(), virtual_occupied@).difference(
                            color_set(self@.board, attacker.opp()),
                        ),
                    ).is_empty(),
            decreases 14 - t,
        {
            let pt = PieceType::from_index(t);
            let mut attackers = self.pieces_bitboard(pt, attacker);
            match captured_sq {
                Some(cap_sq) => {
                    let cap_sq_bb = Bitboard::empty().or(&Bitboard::from_square(cap_sq));
                    attackers = attackers.and(&cap_sq_bb.not());
                    proof {
                        attackers.lemma_view_finite();
                        assert(attackers@ =~= pieces_of(self@.board, pt, attacker).difference(opt_square(cap)));
                    }
                },
                None => {
                    proof {
                        assert(attackers@ =~= pieces_of(self@.board, pt, attacker).difference(opt_square(cap)));
                    }
                },
            }
            if attackers.is_any() {
                let attack_pc = Piece { piece_type: pt, color: attacker };
                let attack_bb = self.move_candidates_with_occupied(king_sq, attack_pc.flip(), virtual_occupied);
                if attackers.and(&attack_bb).is_any() {
                    return true;
                }
            } else {
                proof {
                    assert(attackers@.is_empty());
                    assert(attackers@.intersect(attack_set(Piece { piece_type: pt, color: attacker.opp() }, king_sq.idx(), virtual_occupied@).difference(
                        color_set(self@.board, attacker.opp()))) =~= Set::<int>::empty());
                }
            }
            t = t + 1;
        }
        false
    }

    /// Returns true if the normal move of `moved` from `from` to `to` would leave the mover's
    /// king attacked.
    fn leaves_king_in_check_normal(&self, from: Square, to: Square, moved: Piece) -> (r: bool)
        requires
            self.wf(),
            self@.board[from.idx()] is Some,
        ensures
            r == leaves_check_normal(self@, from.idx(), to.idx(), moved),
    {
        let stm = self.side_to_move;
        let opponent = stm.flip();
        let king_sq = if moved.piece_type == PieceType::King {
            to
        } else {
            match self.find_king(stm) {
                Some(sq) => sq,
                None => {
                    return false;
                },
            }
        };
        let mut virtual_occupied = self.occupied_bb.xor(&Bitboard::from_square(from));
        virtual_occupied.set(to);
        proof {
            from.lemma_idx_bound();
            assert(occupied(self@.board).contains(from.idx()));
            assert(virtual_occupied@ =~= occupied(self@.board).remove(from.idx()).insert(to.idx()));
        }
        self.is_king_attacked_with_virtual_board(king_sq, opponent, &virtual_occupied, Some(to))
    }
    /// Returns true if dropping a piece on `to` would leave the mover's king attacked.
    fn leaves_king_in_check_drop(&self, to: Square) -> (r: bool)
        requires
            self.wf(),
        ensures
            r == leaves_check_drop(self@, to.idx()),
    {
        let stm = self.side_to_move;
        let opponent = stm.flip();
        let king_sq = match self.find_king(stm) {
            Some(sq) => sq,
            None => {
                return false;
            },
        };
        let virtual_occupied = self.occupied_bb.or(&Bitboard::from_square(to));
        proof {
            assert(virtual_occupied@ =~= occupied(self@.board).insert(to.idx()));
        }
        self.is_king_attacked_with_virtual_board(king_sq, opponent, &virtual_occupied, None)
    }

    /// Returns true if the normal move is legal, without making it.
    fn is_legal_normal_move(&self, from: Square, to: Square, promote: bool) -> (r: bool)
        requires
            self.wf(),
        ensures
            r == legal_normal(self@, from.idx(), to.idx(), promote),
    {
        let stm = self.side_to_move;
        let moved = match *self.piece_at(from) {
            Some(p) => p,
            None => {
                return false;
            },
        };
        if moved.color != stm {
            return false;
        }
        if promote && !from.in_promotion_zone(stm) && !to.in_promotion_zone(stm) {
            return false;
        }
        if !self.move_candidates(from, moved).contains(to) {
            return false;
        }
        if !promote && !moved.is_placeable_at(to) {
            return false;
        }
        if promote && moved.promote().is_none() {
            return false;
        }
        !self.leaves_king_in_check_normal(from, to, moved)
    }

    /// Returns true if the drop is legal, without making it.
    fn is_legal_drop_move(&self, to: Square, pt: PieceType) -> (r: bool)
        requires
            self.wf(),
        ensures
            r == legal_drop(self@, to.idx(), pt),
    {
        let stm = self.side_to_move;
        let opponent = stm.flip();
        if self.piece_at(to).is_some() {
            return false;
        }
        let pc = Piece { piece_type: pt, color: stm };
        if self.hand(pc) == 0 {
            return false;
        }
        if !pc.is_placeable_at(to) {
            return false;
        }
        let ghost v0 = self@;
        if pt == PieceType::Pawn {
            let file = to.file();
            let mut i: u8 = 0;
            while i < 9
                invariant
                    i <= 9,
                    file == file_of(to.idx()),
                    file < 9,
                    v0 == self@,
                    self.wf(),
                    pc == (Piece { piece_type: pt, color: stm }),
                    pt == PieceType::Pawn,
                    stm == v0.stm,
                    v0.board[to.idx()] is None,
                    hand_count(v0.hand, pc) != 0,
                    pc.placeable(to.idx()),
                    forall|r: int| 0 <= r < i ==> v0.board[index_at(file_of(to.idx()), r)] != Some(pc),
                decreases 9 - i,
            {
                let sq = Square::new(file, i).unwrap();
                match *self.piece_at(sq) {
                    Some(fp) => {
                        if fp == pc {
                            proof {
                                assert(v0.board[index_at(file_of(to.idx()), i as int)] == Some(pc));
                                assert(nifu(v0.board, to.idx(), pc));
                            }
                            return false;
                        }
                    },
                    None => {},
                }
                i = i + 1;
            }
            let dr: i8 = if stm == Color::Black {
                -1
            } else {
                1
            };
            match to.shift(0, dr) {
                Some(king_sq) => {
                    match *self.piece_at(king_sq) {
                        Some(king_pc) => {
                            if king_pc.piece_type == PieceType::King && king_pc.color == opponent {
                                let pinned = self.pinned_bb(opponent);
                                let not_attacked = self.only_pinned(to, opponent, &pinned);
                                if not_attacked {
                                    let virtual_occupied = self.occupied_bb.or(&Bitboard::from_square(to));
                                    proof {
                                        assert(virtual_occupied@ =~= occupied(v0.board).insert(to.idx()));
                                    }
                                    if self.king_cannot_escape(king_sq, king_pc, stm, &virtual_occupied) {
                                        return false;
                                    }
                                }
                            }
                        },
                        None => {},
                    }
                },
                None => {},
            }
        }
        !self.leaves_king_in_check_drop(to)
    }

    /// Returns true if the move is legal, without modifying the board.
    pub fn is_legal(&self, m: Move) -> (r: bool)
        requires
            self.wf(),
        ensures
            r == legal(self@, m),
    {
        match m {
            Move::Normal { from, to, promote } => self.is_legal_normal_move(from, to, promote),
            Move::Drop { to, piece_type } => self.is_legal_drop_move(to, piece_type),
        }
    }
}

impl Default for StateInfo {
    /// An empty board, Black to move, ply 1.
    fn default() -> (r: StateInfo)
        ensures
            r.wf(),
            r@.board == Seq::new(81, |i: int| None::<Piece>),
            r@.hand == Seq::new(14, |i: int| 0u8),
            r@.ply == 1,
            r@.stm == Color::Black,
    {
        StateInfo::new()
    }
}

} // verus!
