//! The rules of the game, stated over the contents of a board.
use vstd::prelude::*;
use crate::attack::{attack_set, between_set, zone_set, target};
use crate::hand::{hand_count, hand_inc, hand_dec};
use crate::error::MoveError;
use crate::moves::{Move, MoveRecord};
use crate::square::{Square, in_zone, index_at, file_of};
use crate::color::Color;
use crate::piece::Piece;
use crate::piece_type::{PieceType, pt_of_index};

verus! {

/// The contents of a board state: 81 squares, 14 hand counts, ply and side to move.
pub struct StateView {
    pub board: Seq<Option<Piece>>,
    pub hand: Seq<u8>,
    pub ply: u16,
    pub stm: Color,
}

/// Occupied squares.
pub open spec fn occupied(board: Seq<Option<Piece>>) -> Set<int> {
    Set::new(|i: int| 0 <= i < 81 && board[i] is Some)
}

/// Squares holding a piece of color `c`.
pub open spec fn color_set(board: Seq<Option<Piece>>, c: Color) -> Set<int> {
    Set::new(|i: int| 0 <= i < 81 && (board[i] matches Some(p) && p.color == c))
}

/// Squares holding a piece of the type with index `t`.
pub open spec fn type_set(board: Seq<Option<Piece>>, t: int) -> Set<int> {
    Set::new(|i: int| 0 <= i < 81 && (board[i] matches Some(p) && p.piece_type.idx() == t))
}

/// Squares holding the piece of type `pt` and color `c`.
pub open spec fn pieces_of(board: Seq<Option<Piece>>, pt: PieceType, c: Color) -> Set<int> {
    Set::new(|i: int| 0 <= i < 81 && board[i] == Some(Piece { piece_type: pt, color: c }))
}

/// Whether square `i` holds the king of color `c`.
pub open spec fn king_at(board: Seq<Option<Piece>>, i: int, c: Color) -> bool {
    0 <= i < 81 && board[i] == Some(Piece { piece_type: PieceType::King, color: c })
}

/// The square of the king of color `c` (the lowest index if there are several).
pub open spec fn king_square(board: Seq<Option<Piece>>, c: Color) -> Option<int> {
    if exists|i: int| king_at(board, i, c) {
        Some(choose|i: int| king_at(board, i, c) && forall|j: int| 0 <= j < i ==> !king_at(board, j, c))
    } else {
        None
    }
}

/// Squares to which piece `p` standing on `i` can move: its attack set minus squares of
/// its own color.
pub open spec fn move_targets(board: Seq<Option<Piece>>, i: int, p: Piece, occ: Set<int>) -> Set<int> {
    attack_set(p, i, occ).difference(color_set(board, p.color))
}

/// Pieces of type `pt` and color `c` that attack square `sq` under occupancy `occ`: those
/// standing where a piece of the same type but of the other color, placed on `sq`, would reach.
pub open spec fn attackers(board: Seq<Option<Piece>>, pt: PieceType, sq: int, c: Color, occ: Set<int>) -> Set<int> {
    pieces_of(board, pt, c).intersect(attack_set(Piece { piece_type: pt, color: c.opp() }, sq, occ))
}

/// Whether square `sq` is attacked by a piece of color `c` under occupancy `occ`.
pub open spec fn attacked(board: Seq<Option<Piece>>, sq: int, c: Color, occ: Set<int>) -> bool {
    exists|t: int| 0 <= t < 14 && !attackers(board, pt_of_index(t), sq, c, occ).is_empty()
}

/// Whether the king of color `c` is in check.
pub open spec fn in_check(board: Seq<Option<Piece>>, c: Color) -> bool {
    match king_square(board, c) {
        Some(k) => attacked(board, k, c.opp(), occupied(board)),
        None => false,
    }
}

/// The lowest king square is unique and well defined.
pub proof fn lemma_king_square(board: Seq<Option<Piece>>, c: Color, k: int)
    requires
        king_at(board, k, c),
        forall|j: int| 0 <= j < k ==> !king_at(board, j, c),
    ensures
        king_square(board, c) == Some(k),
{
    let w = choose|i: int| king_at(board, i, c) && forall|j: int| 0 <= j < i ==> !king_at(board, j, c);
    assert(king_at(board, w, c) && forall|j: int| 0 <= j < w ==> !king_at(board, j, c));
    if w < k {
        assert(!king_at(board, w, c));
    }
    if k < w {
        assert(!king_at(board, k, c));
    }
}

/// The slider type looked at in the `j`-th pinning check: Rook, ProRook, Bishop, ProBishop, Lance.
pub open spec fn pin_type(j: int) -> PieceType {
    if j == 0 {
        PieceType::Rook
    } else if j == 1 {
        PieceType::ProRook
    } else if j == 2 {
        PieceType::Bishop
    } else if j == 3 {
        PieceType::ProBishop
    } else {
        PieceType::Lance
    }
}

/// The piece whose empty-board attack from the king square bounds the `j`-th check.
pub open spec fn pin_mask_piece(j: int, c: Color) -> Piece {
    if j <= 1 {
        Piece { piece_type: PieceType::Rook, color: Color::Black }
    } else if j <= 3 {
        Piece { piece_type: PieceType::Bishop, color: Color::Black }
    } else {
        Piece { piece_type: PieceType::Lance, color: c }
    }
}

/// The enemy sliders of the `j`-th check that lie on a line from the king square `k`.
pub open spec fn pin_candidates(board: Seq<Option<Piece>>, c: Color, k: int, j: int) -> Set<int> {
    pieces_of(board, pin_type(j), c.opp()).intersect(attack_set(pin_mask_piece(j, c), k, Set::empty()))
}

/// Square `s` is pinned by the slider on `psq`: it is the only occupied square between the
/// king `k` and `psq`, and it holds a piece of color `c`.
pub open spec fn pins(board: Seq<Option<Piece>>, c: Color, k: int, psq: int, s: int) -> bool {
    &&& between_set(k, psq).intersect(occupied(board)) == set![s]
    &&& color_set(board, c).contains(s)
}

/// Squares pinned by the `j`-th kind of slider, among the candidates `cand`.
pub open spec fn pinned_by(board: Seq<Option<Piece>>, c: Color, k: int, j: int, cand: Set<int>) -> Set<int> {
    Set::new(|s: int| exists|psq: int| cand.contains(psq) && pins(board, c, k, psq, s))
}

/// Squares pinned by the first `n` kinds of sliders.
pub open spec fn pinned_upto(board: Seq<Option<Piece>>, c: Color, k: int, n: int) -> Set<int>
    decreases n,
{
    if n <= 0 {
        Set::empty()
    } else {
        pinned_upto(board, c, k, n - 1).union(
            pinned_by(board, c, k, n - 1, pin_candidates(board, c, k, n - 1)),
        )
    }
}

/// Squares holding a piece of color `c` that is pinned to its king by an enemy rook, bishop,
/// promoted rook or bishop, or lance.
pub open spec fn pinned_set(board: Seq<Option<Piece>>, c: Color) -> Set<int> {
    match king_square(board, c) {
        Some(k) => pinned_upto(board, c, k, 5),
        None => Set::empty(),
    }
}

/// A finite set of one element that contains `x` is `{x}`.
pub proof fn lemma_singleton_of(s: Set<int>, x: int)
    requires
        s.finite(),
        s.len() == 1,
        s.contains(x),
    ensures
        s == set![x],
{
    assert(s.remove(x).len() == 0);
    s.remove(x).lemma_len0_is_empty();
    assert(s =~= set![x]);
}

/// Points a piece type scores when declaring: 5 for rooks and bishops (promoted or not), else 1.
pub open spec fn declare_unit(pt: PieceType) -> int {
    match pt {
        PieceType::Rook | PieceType::Bishop | PieceType::ProRook | PieceType::ProBishop => 5,
        _ => 1,
    }
}

/// Number of pieces of type `pt` and color `c` in the promotion zone of `c`.
pub open spec fn zone_count(board: Seq<Option<Piece>>, c: Color, pt: PieceType) -> int {
    pieces_of(board, pt, c).intersect(zone_set(c)).len() as int
}

/// Number of non-king pieces of color `c` in its promotion zone, over piece types `1..n`.
pub open spec fn zone_pieces_upto(board: Seq<Option<Piece>>, c: Color, n: int) -> int
    decreases n,
{
    if n <= 1 {
        0
    } else {
        zone_pieces_upto(board, c, n - 1) + zone_count(board, c, pt_of_index(n - 1))
    }
}

/// Points of the non-king pieces of color `c` in its promotion zone, over piece types `1..n`.
pub open spec fn zone_points_upto(board: Seq<Option<Piece>>, c: Color, n: int) -> int
    decreases n,
{
    if n <= 1 {
        0
    } else {
        zone_points_upto(board, c, n - 1) + zone_count(board, c, pt_of_index(n - 1)) * declare_unit(
            pt_of_index(n - 1),
        )
    }
}

/// Points of the pieces in hand of color `c`, over piece types `1..n`.
pub open spec fn hand_points_upto(hand: Seq<u8>, c: Color, n: int) -> int
    decreases n,
{
    if n <= 1 {
        0
    } else {
        hand_points_upto(hand, c, n - 1) + hand_count(hand, Piece { piece_type: pt_of_index(n - 1), color: c })
            * declare_unit(pt_of_index(n - 1))
    }
}

/// Points needed to declare a win: 28 for Black, 27 for White.
pub open spec fn declare_threshold(c: Color) -> int {
    match c {
        Color::Black => 28,
        Color::White => 27,
    }
}

/// Whether the player of color `c` may declare a win: it is that player's turn, the king
/// stands in the promotion zone and is not in check, at least ten other pieces stand in the
/// zone, and the pieces in the zone and in hand score enough points.
pub open spec fn can_declare(v: StateView, c: Color) -> bool {
    &&& c == v.stm
    &&& king_square(v.board, c) matches Some(k) && in_zone(k, c)
    &&& zone_pieces_upto(v.board, c, 14) >= 10
    &&& zone_points_upto(v.board, c, 14) + hand_points_upto(v.hand, c, 14) >= declare_threshold(c)
    &&& !in_check(v.board, c)
}

/// The piece type itself if it is not promoted, its unpromoted form otherwise.
pub open spec fn base_type(pt: PieceType) -> PieceType {
    match pt.unpromoted() {
        Some(u) => u,
        None => pt,
    }
}

/// The piece that goes to the capturer's hand when `cap` is captured.
pub open spec fn capture_gain(cap: Piece) -> Piece {
    Piece { piece_type: base_type(cap.piece_type), color: cap.color.opp() }
}

/// The ply after a move (wrapping at 65536).
pub open spec fn next_ply(ply: u16) -> u16 {
    ((ply + 1) % 65536) as u16
}

/// The ply before a move (wrapping below 0).
pub open spec fn prev_ply(ply: u16) -> u16 {
    ((ply + 65535) % 65536) as u16
}

/// The outcome of moving the piece on `from` to `to` (promoting if `promote`): the new state
/// and the record of the move, or the reason the move is refused.
pub open spec fn normal_move(v: StateView, from_sq: Square, to_sq: Square, promote: bool) -> Result<(StateView, MoveRecord), MoveError> {
    let stm = v.stm;
    let from = from_sq.idx();
    let to = to_sq.idx();
    match v.board[from] {
        None => Err(MoveError::Inconsistent("No piece found")),
        Some(moved) => {
            let captured = v.board[to];
            if moved.color != stm {
                Err(MoveError::Inconsistent("The piece is not for the side to move"))
            } else if promote && !in_zone(from, stm) && !in_zone(to, stm) {
                Err(MoveError::Inconsistent("The piece cannot promote"))
            } else if !move_targets(v.board, from, moved, occupied(v.board)).contains(to) {
                Err(MoveError::Inconsistent("The piece cannot move to there"))
            } else if !promote && !moved.placeable(to) {
                Err(MoveError::NonMovablePiece)
            } else if promote && moved.piece_type.promoted() is None {
                Err(MoveError::Inconsistent("This type of piece cannot promote"))
            } else {
                let placed = if promote {
                    Piece { piece_type: moved.piece_type.promoted()->0, color: moved.color }
                } else {
                    moved
                };
                let board2 = v.board.update(from, None).update(to, Some(placed));
                if in_check(board2, stm) {
                    Err(MoveError::InCheck)
                } else {
                    let hand2 = match captured {
                        Some(cap) => hand_inc(v.hand, capture_gain(cap)),
                        None => v.hand,
                    };
                    Ok(
                        (
                            StateView { board: board2, hand: hand2, ply: next_ply(v.ply), stm: stm.opp() },
                            MoveRecord::Normal {
                                from: from_sq,
                                to: to_sq,
                                placed,
                                captured,
                                promoted: promote,
                            },
                        ),
                    )
                }
            }
        },
    }
}

/// Whether a pawn of `pc` already stands on the file of `to` (two pawns on a file).
pub open spec fn nifu(board: Seq<Option<Piece>>, to: int, pc: Piece) -> bool {
    exists|r: int| 0 <= r < 9 && board[index_at(file_of(to), r)] == Some(pc)
}

/// The square in front of `to` as seen by the side to move.
pub open spec fn pawn_front(to: int, stm: Color) -> Option<int> {
    target(to, (0, if stm == Color::Black { -1 } else { 1 }))
}

/// Every non-king piece of color `c` that attacks `sq` is pinned.
pub open spec fn only_pinned_attackers(board: Seq<Option<Piece>>, sq: int, c: Color) -> bool {
    forall|t: int, a: int|
        1 <= t < 14 && #[trigger] attackers(board, pt_of_index(t), sq, c, occupied(board)).contains(a)
            ==> pinned_set(board, c).contains(a)
}

/// Every square the king on `ks` could move to is attacked by color `c` (or holds a piece
/// of the king's color), with the occupancy `occ`.
pub open spec fn king_trapped(board: Seq<Option<Piece>>, ks: int, king: Piece, c: Color, occ: Set<int>) -> bool {
    forall|s: int|
        #[trigger] move_targets(board, ks, king, occ).contains(s) ==> ((board[s] matches Some(q)
            && q.color == king.color) || attacked(board, s, c, occ))
}

/// Whether dropping a pawn on `to` gives checkmate (dropped-pawn mate): the pawn checks the
/// enemy king, no enemy piece but pinned ones attacks the pawn, and the king cannot escape.
pub open spec fn uchifuzume(v: StateView, to: int) -> bool {
    let stm = v.stm;
    let opp = stm.opp();
    match pawn_front(to, stm) {
        None => false,
        Some(ks) => {
            &&& v.board[ks] == Some(Piece { piece_type: PieceType::King, color: opp })
            &&& only_pinned_attackers(v.board, to, opp)
            &&& king_trapped(
                v.board,
                ks,
                Piece { piece_type: PieceType::King, color: opp },
                stm,
                occupied(v.board).insert(to),
            )
        },
    }
}

/// The outcome of dropping a piece of type `pt` from the hand of the side to move onto `to`.
pub open spec fn drop_move(v: StateView, to_sq: Square, pt: PieceType) -> Result<(StateView, MoveRecord), MoveError> {
    let stm = v.stm;
    let pc = Piece { piece_type: pt, color: stm };
    let to = to_sq.idx();
    if v.board[to] is Some {
        Err(MoveError::Inconsistent("There is already a piece in `to`"))
    } else if hand_count(v.hand, pc) == 0 {
        Err(MoveError::Inconsistent("The piece is not in the hand"))
    } else if !pc.placeable(to) {
        Err(MoveError::NonMovablePiece)
    } else if pt == PieceType::Pawn && nifu(v.board, to, pc) {
        Err(MoveError::Nifu)
    } else if pt == PieceType::Pawn && uchifuzume(v, to) {
        Err(MoveError::Uchifuzume)
    } else {
        let board2 = v.board.update(to, Some(pc));
        if in_check(board2, stm) {
            Err(MoveError::InCheck)
        } else {
            Ok(
                (
                    StateView { board: board2, hand: hand_dec(v.hand, pc), ply: next_ply(v.ply), stm: stm.opp() },
                    MoveRecord::Drop { to: to_sq, piece: pc },
                ),
            )
        }
    }
}

/// The outcome of a move on a state.
pub open spec fn apply_move(v: StateView, m: Move) -> Result<(StateView, MoveRecord), MoveError> {
    match m {
        Move::Normal { from, to, promote } => normal_move(v, from, to, promote),
        Move::Drop { to, piece_type } => drop_move(v, to, piece_type),
    }
}

/// The outcome of undoing a recorded move.
pub open spec fn unmake(v: StateView, rec: MoveRecord) -> Result<StateView, MoveError> {
    match rec {
        MoveRecord::Normal { from, to, placed, captured, promoted } => {
            if v.board[from.idx()] is Some {
                Err(MoveError::Inconsistent("`from` of the move is filled by another piece"))
            } else if promoted && placed.piece_type.unpromoted() is None {
                Err(MoveError::Inconsistent("Cannot unpromoted the piece"))
            } else if v.board[to.idx()] != Some(placed) {
                Err(MoveError::Inconsistent("Expected piece is not found in `to`"))
            } else {
                let moved = if promoted {
                    Piece { piece_type: placed.piece_type.unpromoted()->0, color: placed.color }
                } else {
                    placed
                };
                let hand2 = match captured {
                    Some(cap) => hand_dec(v.hand, capture_gain(cap)),
                    None => v.hand,
                };
                Ok(
                    StateView {
                        board: v.board.update(from.idx(), Some(moved)).update(to.idx(), captured),
                        hand: hand2,
                        ply: prev_ply(v.ply),
                        stm: v.stm.opp(),
                    },
                )
            }
        },
        MoveRecord::Drop { to, piece } => {
            if v.board[to.idx()] != Some(piece) {
                Err(MoveError::Inconsistent("Expected piece is not found in `to`"))
            } else {
                Ok(
                    StateView {
                        board: v.board.update(to.idx(), None),
                        hand: hand_inc(v.hand, piece),
                        ply: prev_ply(v.ply),
                        stm: v.stm.opp(),
                    },
                )
            }
        },
    }
}

/// Undoing a move that was made gives back the state it was made on.
pub proof fn lemma_unmake_undoes_move(v: StateView, m: Move)
    requires
        v.board.len() == 81,
        v.hand.len() == 14,
        apply_move(v, m) is Ok,
    ensures
        unmake(apply_move(v, m)->Ok_0.0, apply_move(v, m)->Ok_0.1) == Ok::<StateView, MoveError>(v),
{
    let (v2, rec) = apply_move(v, m)->Ok_0;
    match m {
        Move::Normal { from, to, promote } => {
            from.lemma_idx_bound();
            to.lemma_idx_bound();
            let moved = v.board[from.idx()]->Some_0;
            crate::piece_type::lemma_promote_unpromote(moved.piece_type);
            assert(color_set(v.board, moved.color).contains(from.idx()));
            assert(from.idx() != to.idx());
            match v.board[to.idx()] {
                Some(cap) => {
                    crate::hand::lemma_hand_inc_dec(v.hand, capture_gain(cap));
                },
                None => {},
            }
            let r = unmake(v2, rec)->Ok_0;
            assert(r.board =~= v.board);
        },
        Move::Drop { to, piece_type } => {
            to.lemma_idx_bound();
            crate::hand::lemma_hand_inc_dec(v.hand, Piece { piece_type, color: v.stm });
            let r = unmake(v2, rec)->Ok_0;
            assert(r.board =~= v.board);
        },
    }
}

/// Whether a piece of color `c` (other than one on `cap`) would attack square `k` if the
/// occupied squares were `occ`: a board where a move is imagined without being made.
pub open spec fn attacked_virtually(board: Seq<Option<Piece>>, k: int, c: Color, occ: Set<int>, cap: Option<int>) -> bool {
    exists|t: int|
        0 <= t < 14 && !pieces_of(board, pt_of_index(t), c).difference(opt_square(cap)).intersect(
            attack_set(Piece { piece_type: pt_of_index(t), color: c.opp() }, k, occ).difference(
                color_set(board, c.opp()),
            ),
        ).is_empty()
}

/// The set holding an optional square.
pub open spec fn opt_square(s: Option<int>) -> Set<int> {
    match s {
        Some(x) => set![x],
        None => Set::empty(),
    }
}

/// Whether moving the piece `moved` of the side to move from `from` to `to` would leave its
/// king attacked, judged on the imagined board where `from` is empty, `to` is occupied and a
/// piece captured on `to` no longer attacks.
pub open spec fn leaves_check_normal(v: StateView, from: int, to: int, moved: Piece) -> bool {
    let king = if moved.piece_type == PieceType::King {
        Some(to)
    } else {
        king_square(v.board, v.stm)
    };
    match king {
        None => false,
        Some(k) => attacked_virtually(v.board, k, v.stm.opp(), occupied(v.board).remove(from).insert(to), Some(to)),
    }
}

/// Whether dropping a piece of the side to move on `to` would leave its king attacked.
pub open spec fn leaves_check_drop(v: StateView, to: int) -> bool {
    match king_square(v.board, v.stm) {
        None => false,
        Some(k) => attacked_virtually(v.board, k, v.stm.opp(), occupied(v.board).insert(to), None),
    }
}

/// Whether a normal move is legal, checked without making it.
pub open spec fn legal_normal(v: StateView, from: int, to: int, promote: bool) -> bool {
    match v.board[from] {
        None => false,
        Some(moved) => {
            &&& moved.color == v.stm
            &&& !(promote && !in_zone(from, v.stm) && !in_zone(to, v.stm))
            &&& move_targets(v.board, from, moved, occupied(v.board)).contains(to)
            &&& !(!promote && !moved.placeable(to))
            &&& !(promote && moved.piece_type.promoted() is None)
            &&& !leaves_check_normal(v, from, to, moved)
        },
    }
}

/// Whether a drop is legal, checked without making it.
pub open spec fn legal_drop(v: StateView, to: int, pt: PieceType) -> bool {
    let pc = Piece { piece_type: pt, color: v.stm };
    &&& v.board[to] is None
    &&& hand_count(v.hand, pc) != 0
    &&& pc.placeable(to)
    &&& !(pt == PieceType::Pawn && nifu(v.board, to, pc))
    &&& !(pt == PieceType::Pawn && uchifuzume(v, to))
    &&& !leaves_check_drop(v, to)
}

/// Whether a move is legal, checked without making it.
pub open spec fn legal(v: StateView, m: Move) -> bool {
    match m {
        Move::Normal { from, to, promote } => legal_normal(v, from.idx(), to.idx(), promote),
        Move::Drop { to, piece_type } => legal_drop(v, to.idx(), piece_type),
    }
}

/// The side `c` has at most one king on the board.
pub open spec fn single_king(board: Seq<Option<Piece>>, c: Color) -> bool {
    forall|i: int, j: int| king_at(board, i, c) && king_at(board, j, c) ==> i == j
}

/// The king square of a board whose kings of color `c` are exactly those of another board.
pub proof fn lemma_king_square_same(b1: Seq<Option<Piece>>, b2: Seq<Option<Piece>>, c: Color)
    requires
        forall|i: int| king_at(b1, i, c) == king_at(b2, i, c),
    ensures
        king_square(b1, c) == king_square(b2, c),
{
    if exists|i: int| king_at(b1, i, c) {
        let k = choose|i: int| king_at(b1, i, c) && forall|j: int| 0 <= j < i ==> !king_at(b1, j, c);
        assert(king_at(b1, k, c) && forall|j: int| 0 <= j < k ==> !king_at(b1, j, c));
        lemma_king_square(b2, c, k);
        lemma_king_square(b1, c, k);
    } else {
        assert(!exists|i: int| king_at(b2, i, c));
    }
}

/// On a board changed only by pieces of color `c` (other than kings) or emptied squares that
/// held such pieces, the pieces of the other color that attack a square are those of the
/// board before the change.
proof fn lemma_attacked_same(
    b1: Seq<Option<Piece>>,
    b2: Seq<Option<Piece>>,
    k: int,
    c: Color,
    occ: Set<int>,
    cap: Option<int>,
)
    requires
        forall|i: int|
            0 <= i < 81 ==> ((#[trigger] b2[i] matches Some(q) && q.color == c) <==> ((b1[i] matches Some(q) && q.color
                == c) && (match cap {
                Some(x) => i != x,
                None => true,
            }))),
        forall|i: int| 0 <= i < 81 && (#[trigger] b2[i] matches Some(q) && q.color == c) ==> b2[i] == b1[i],
        forall|i: int| 0 <= i < 81 && (#[trigger] b1[i] matches Some(q) && q.color == c) ==> !color_set(b1, c.opp()).contains(i),
    ensures
        attacked(b2, k, c, occ) == attacked_virtually(b1, k, c, occ, cap),
{
    assert forall|t: int| 0 <= t < 14 implies attackers(b2, pt_of_index(t), k, c, occ) =~= pieces_of(
        b1,
        pt_of_index(t),
        c,
    ).difference(opt_square(cap)).intersect(
        attack_set(Piece { piece_type: pt_of_index(t), color: c.opp() }, k, occ).difference(color_set(b1, c.opp())),
    ) by {
        let pt = pt_of_index(t);
        assert forall|x: int| attackers(b2, pt, k, c, occ).contains(x) <==> pieces_of(b1, pt, c).difference(
            opt_square(cap),
        ).intersect(
            attack_set(Piece { piece_type: pt, color: c.opp() }, k, occ).difference(color_set(b1, c.opp())),
        ).contains(x) by {
            if pieces_of(b1, pt, c).contains(x) {
                assert(b1[x] matches Some(q) && q.color == c);
            }
            if pieces_of(b2, pt, c).contains(x) {
                assert(b2[x] matches Some(q) && q.color == c);
            }
        }
    }
    if attacked(b2, k, c, occ) {
        let t = choose|t: int| 0 <= t < 14 && !attackers(b2, pt_of_index(t), k, c, occ).is_empty();
        assert(0 <= t < 14);
    }
}

/// A normal move passes the legality check exactly when making it succeeds.
#[verifier::spinoff_prover]
proof fn lemma_legal_normal_iff(v: StateView, fsq: Square, tsq: Square, promote: bool)
    requires
        v.board.len() == 81,
        v.hand.len() == 14,
        single_king(v.board, v.stm),
    ensures
        legal_normal(v, fsq.idx(), tsq.idx(), promote) == (normal_move(v, fsq, tsq, promote) is Ok),
{
    let stm = v.stm;
    let opp = stm.opp();
    let from = fsq.idx();
    let to = tsq.idx();
    fsq.lemma_idx_bound();
    tsq.lemma_idx_bound();
    if let Some(moved) = v.board[from] {
        if moved.color == stm && !(promote && !in_zone(from, stm) && !in_zone(to, stm))
            && move_targets(v.board, from, moved, occupied(v.board)).contains(to) && !(!promote
            && !moved.placeable(to)) && !(promote && moved.piece_type.promoted() is None) {
            assert(color_set(v.board, stm).contains(from));
            assert(from != to);
            let placed = if promote {
                Piece { piece_type: moved.piece_type.promoted()->0, color: moved.color }
            } else {
                moved
            };
            let b2 = v.board.update(from, None).update(to, Some(placed));
            let occ2 = occupied(v.board).remove(from).insert(to);
            assert(occupied(b2) =~= occ2);
            if moved.piece_type == PieceType::King {
                assert(king_at(v.board, from, stm));
                assert forall|j: int| 0 <= j < to implies !king_at(b2, j, stm) by {
                    if j != from && king_at(b2, j, stm) {
                        assert(king_at(v.board, j, stm));
                    }
                }
                lemma_king_square(b2, stm, to);
            } else {
                assert forall|i: int| king_at(v.board, i, stm) == king_at(b2, i, stm) by {
                    if i == to {
                        assert(!color_set(v.board, stm).contains(to));
                    }
                }
                lemma_king_square_same(v.board, b2, stm);
            }
            match king_square(b2, stm) {
                Some(k) => {
                    assert forall|i: int| 0 <= i < 81 && (#[trigger] v.board[i] matches Some(q) && q.color == opp) implies !color_set(
                        v.board,
                        opp.opp(),
                    ).contains(i) by {
                        crate::color::lemma_flip_involutive(stm);
                    }
                    assert forall|i: int| 0 <= i < 81 implies
                        ((#[trigger] b2[i] matches Some(q) && q.color == opp) <==> ((v.board[i] matches Some(q) && q.color
                            == opp) && i != to)) by {
                        crate::color::lemma_flip_involutive(stm);
                    }
                    assert forall|i: int| 0 <= i < 81 && (#[trigger] b2[i] matches Some(q) && q.color == opp) implies b2[i] == v.board[i] by {
                        crate::color::lemma_flip_involutive(stm);
                    }
                    lemma_attacked_same(v.board, b2, k, opp, occ2, Some(to));
                },
                None => {},
            }
        }
    }
}

/// A drop passes the legality check exactly when making it succeeds.
#[verifier::spinoff_prover]
proof fn lemma_legal_drop_iff(v: StateView, tsq: Square, piece_type: PieceType)
    requires
        v.board.len() == 81,
        v.hand.len() == 14,
    ensures
        legal_drop(v, tsq.idx(), piece_type) == (drop_move(v, tsq, piece_type) is Ok),
{
    let stm = v.stm;
    let opp = stm.opp();
    let to = tsq.idx();
    tsq.lemma_idx_bound();
    let pc = Piece { piece_type, color: stm };
    if v.board[to] is None && hand_count(v.hand, pc) != 0 {
        let b2 = v.board.update(to, Some(pc));
        let occ2 = occupied(v.board).insert(to);
        assert(occupied(b2) =~= occ2);
        assert(piece_type != PieceType::King);
        assert forall|i: int| king_at(v.board, i, stm) == king_at(b2, i, stm) by {}
        lemma_king_square_same(v.board, b2, stm);
        match king_square(b2, stm) {
            Some(k) => {
                assert forall|i: int| 0 <= i < 81 && (#[trigger] v.board[i] matches Some(q) && q.color == opp) implies !color_set(
                    v.board,
                    opp.opp(),
                ).contains(i) by {
                    crate::color::lemma_flip_involutive(stm);
                }
                assert forall|i: int| 0 <= i < 81 implies
                    ((#[trigger] b2[i] matches Some(q) && q.color == opp) <==> (v.board[i] matches Some(q) && q.color
                        == opp)) by {
                    crate::color::lemma_flip_involutive(stm);
                }
                assert forall|i: int| 0 <= i < 81 && (#[trigger] b2[i] matches Some(q) && q.color == opp) implies b2[i] == v.board[i] by {
                    crate::color::lemma_flip_involutive(stm);
                }
                lemma_attacked_same(v.board, b2, k, opp, occ2, None);
            },
            None => {},
        }
    }
}

/// A move that is made keeps the board at 81 squares and the hands at 14 counts.
pub proof fn lemma_apply_move_len(v: StateView, m: Move)
    requires
        v.board.len() == 81,
        v.hand.len() == 14,
    ensures
        apply_move(v, m) matches Ok((v2, rec)) ==> v2.board.len() == 81 && v2.hand.len() == 14,
{
    match m {
        Move::Normal { from, to, .. } => {
            from.lemma_idx_bound();
            to.lemma_idx_bound();
        },
        Move::Drop { to, .. } => {
            to.lemma_idx_bound();
        },
    }
}

/// Whether a move is legal, as checked without making it, is whether making it succeeds;
/// for a move of a piece on the board, provided the side to move has at most one king.
pub proof fn lemma_legal_iff_move_ok(v: StateView, m: Move)
    requires
        v.board.len() == 81,
        v.hand.len() == 14,
        m is Normal ==> single_king(v.board, v.stm),
    ensures
        legal(v, m) == (apply_move(v, m) is Ok),
{
    match m {
        Move::Normal { from, to, promote } => lemma_legal_normal_iff(v, from, to, promote),
        Move::Drop { to, piece_type } => lemma_legal_drop_iff(v, to, piece_type),
    }
}

/// The moves of `p` from `from` to the target `to`: where the piece can promote, the move
/// without promotion (if the piece could still move from `to`) and then the promoting move;
/// otherwise the plain move.
pub open spec fn target_moves(from: Square, p: Piece, to: int) -> Seq<Move> {
    let t = Square::of_index(to);
    if p.piece_type.promoted() is Some && (in_zone(from.idx(), p.color) || in_zone(to, p.color)) {
        if p.placeable(to) {
            seq![Move::Normal { from, to: t, promote: false }, Move::Normal { from, to: t, promote: true }]
        } else {
            seq![Move::Normal { from, to: t, promote: true }]
        }
    } else {
        seq![Move::Normal { from, to: t, promote: false }]
    }
}

/// The moves of `p` from `from` to its targets below square `n`, in order of the target.
pub open spec fn piece_moves_upto(board: Seq<Option<Piece>>, from: Square, p: Piece, n: nat) -> Seq<Move>
    decreases n,
{
    if n == 0 {
        Seq::empty()
    } else {
        let prev = piece_moves_upto(board, from, p, (n - 1) as nat);
        if move_targets(board, from.idx(), p, occupied(board)).contains(n - 1) {
            prev + target_moves(from, p, n - 1)
        } else {
            prev
        }
    }
}

/// The candidate moves of `p` from `from`.
pub open spec fn piece_moves(board: Seq<Option<Piece>>, from: Square, p: Piece) -> Seq<Move> {
    piece_moves_upto(board, from, p, 81)
}

/// The drops of `pc` on the empty squares below `n` where it can stand, in square order.
pub open spec fn square_drops_upto(board: Seq<Option<Piece>>, pc: Piece, n: nat) -> Seq<Move>
    decreases n,
{
    if n == 0 {
        Seq::empty()
    } else {
        let prev = square_drops_upto(board, pc, (n - 1) as nat);
        if pc.placeable(n - 1) && board[n - 1] is None {
            prev.push(Move::Drop { to: Square::of_index(n - 1), piece_type: pc.piece_type })
        } else {
            prev
        }
    }
}

/// The drops of side `c` for the piece types below index `k` that it holds in hand.
pub open spec fn drops_upto(board: Seq<Option<Piece>>, hand: Seq<u8>, c: Color, k: nat) -> Seq<Move>
    decreases k,
{
    if k == 0 {
        Seq::empty()
    } else {
        let prev = drops_upto(board, hand, c, (k - 1) as nat);
        let pc = Piece { piece_type: pt_of_index(k - 1), color: c };
        if pc.piece_type.hand_piece() && hand_count(hand, pc) != 0 {
            prev + square_drops_upto(board, pc, 81)
        } else {
            prev
        }
    }
}

/// The candidate drops of side `c`.
pub open spec fn drop_moves(board: Seq<Option<Piece>>, hand: Seq<u8>, c: Color) -> Seq<Move> {
    drops_upto(board, hand, c, 14)
}

/// The candidate moves of the pieces of side `c` on squares below `n`, in square order.
pub open spec fn board_moves_upto(board: Seq<Option<Piece>>, c: Color, n: nat) -> Seq<Move>
    decreases n,
{
    if n == 0 {
        Seq::empty()
    } else {
        let prev = board_moves_upto(board, c, (n - 1) as nat);
        match board[n - 1] {
            Some(p) => if p.color == c {
                prev + piece_moves(board, Square::of_index(n - 1), p)
            } else {
                prev
            },
            None => prev,
        }
    }
}

/// All candidate moves of side `c`: the moves of its pieces on the board, then its drops.
pub open spec fn candidate_moves(v: StateView, c: Color) -> Seq<Move> {
    board_moves_upto(v.board, c, 81) + drop_moves(v.board, v.hand, c)
}

/// What one sequence holds, it holds with another appended.
proof fn lemma_contains_left(a: Seq<Move>, b: Seq<Move>, x: Move)
    requires
        a.contains(x),
    ensures
        (a + b).contains(x),
{
    let i = choose|i: int| 0 <= i < a.len() && a[i] == x;
    assert((a + b)[i] == x);
}

/// What one sequence holds, it holds with another put in front.
proof fn lemma_contains_right(a: Seq<Move>, b: Seq<Move>, x: Move)
    requires
        b.contains(x),
    ensures
        (a + b).contains(x),
{
    let i = choose|i: int| 0 <= i < b.len() && b[i] == x;
    assert((a + b)[a.len() + i] == x);
}

/// The moves of a piece to a target are among its moves up to any later square.
proof fn lemma_piece_moves_has(board: Seq<Option<Piece>>, from: Square, p: Piece, to: int, n: nat, m: Move)
    requires
        0 <= to < n,
        move_targets(board, from.idx(), p, occupied(board)).contains(to),
        target_moves(from, p, to).contains(m),
    ensures
        piece_moves_upto(board, from, p, n).contains(m),
    decreases n,
{
    let prev = piece_moves_upto(board, from, p, (n - 1) as nat);
    if n - 1 == to {
        lemma_contains_right(prev, target_moves(from, p, to), m);
    } else {
        lemma_piece_moves_has(board, from, p, to, (n - 1) as nat, m);
        if move_targets(board, from.idx(), p, occupied(board)).contains(n - 1) {
            lemma_contains_left(prev, target_moves(from, p, n - 1), m);
        }
    }
}

/// The moves of a piece of side `c` are among the moves of that side up to any later square.
proof fn lemma_board_moves_has(board: Seq<Option<Piece>>, c: Color, from: int, n: nat, m: Move)
    requires
        0 <= from < n,
        board[from] matches Some(p) && p.color == c && piece_moves(board, Square::of_index(from), p).contains(m),
    ensures
        board_moves_upto(board, c, n).contains(m),
    decreases n,
{
    let prev = board_moves_upto(board, c, (n - 1) as nat);
    if n - 1 == from {
        lemma_contains_right(prev, piece_moves(board, Square::of_index(from), board[from]->Some_0), m);
    } else {
        lemma_board_moves_has(board, c, from, (n - 1) as nat, m);
        if let Some(q) = board[n - 1] {
            if q.color == c {
                lemma_contains_left(prev, piece_moves(board, Square::of_index(n - 1), q), m);
            }
        }
    }
}

/// A drop on an empty square where the piece can stand is among the drops up to any later
/// square.
proof fn lemma_square_drops_has(board: Seq<Option<Piece>>, pc: Piece, to: int, n: nat)
    requires
        0 <= to < n,
        pc.placeable(to),
        board[to] is None,
    ensures
        square_drops_upto(board, pc, n).contains(Move::Drop { to: Square::of_index(to), piece_type: pc.piece_type }),
    decreases n,
{
    let m = Move::Drop { to: Square::of_index(to), piece_type: pc.piece_type };
    let prev = square_drops_upto(board, pc, (n - 1) as nat);
    if n - 1 == to {
        assert(prev.push(m)[prev.len() as int] == m);
    } else {
        lemma_square_drops_has(board, pc, to, (n - 1) as nat);
        if pc.placeable(n - 1) && board[n - 1] is None {
            let i = choose|i: int| 0 <= i < prev.len() && prev[i] == m;
            assert(prev.push(Move::Drop { to: Square::of_index(n - 1), piece_type: pc.piece_type })[i] == m);
        }
    }
}

/// The drops of a piece type held in hand are among the drops up to any later type index.
proof fn lemma_drops_has(board: Seq<Option<Piece>>, hand: Seq<u8>, c: Color, t: int, k: nat, m: Move)
    requires
        0 <= t < k,
        pt_of_index(t).hand_piece(),
        hand_count(hand, Piece { piece_type: pt_of_index(t), color: c }) != 0,
        square_drops_upto(board, Piece { piece_type: pt_of_index(t), color: c }, 81).contains(m),
    ensures
        drops_upto(board, hand, c, k).contains(m),
    decreases k,
{
    let prev = drops_upto(board, hand, c, (k - 1) as nat);
    if k - 1 == t {
        lemma_contains_right(prev, square_drops_upto(board, Piece { piece_type: pt_of_index(t), color: c }, 81), m);
    } else {
        lemma_drops_has(board, hand, c, t, (k - 1) as nat, m);
        let pc = Piece { piece_type: pt_of_index(k - 1), color: c };
        if pc.piece_type.hand_piece() && hand_count(hand, pc) != 0 {
            lemma_contains_left(prev, square_drops_upto(board, pc, 81), m);
        }
    }
}

/// Every legal move of the side to move is among its candidate moves.
pub proof fn lemma_legal_is_candidate(v: StateView, m: Move)
    requires
        v.board.len() == 81,
        v.hand.len() == 14,
        m.valid(),
        legal(v, m),
    ensures
        candidate_moves(v, v.stm).contains(m),
{
    let board_part = board_moves_upto(v.board, v.stm, 81);
    let drop_part = drop_moves(v.board, v.hand, v.stm);
    match m {
        Move::Normal { from, to, promote } => {
            from.lemma_valid();
            to.lemma_valid();
            let moved = v.board[from.idx()]->Some_0;
            let tm = target_moves(from, moved, to.idx());
            if moved.piece_type.promoted() is Some && (in_zone(from.idx(), moved.color) || in_zone(to.idx(), moved.color)) {
                if moved.placeable(to.idx()) {
                    assert(tm[0] == Move::Normal { from, to, promote: false });
                    assert(tm[1] == Move::Normal { from, to, promote: true });
                } else {
                    assert(tm[0] == Move::Normal { from, to, promote: true });
                }
            } else {
                assert(tm[0] == Move::Normal { from, to, promote: false });
            }
            assert(tm.contains(m));
            lemma_piece_moves_has(v.board, from, moved, to.idx(), 81, m);
            lemma_board_moves_has(v.board, v.stm, from.idx(), 81, m);
            lemma_contains_left(board_part, drop_part, m);
        },
        Move::Drop { to, piece_type } => {
            to.lemma_valid();
            let pc = Piece { piece_type, color: v.stm };
            assert(pt_of_index(piece_type.idx()) == piece_type);
            lemma_square_drops_has(v.board, pc, to.idx(), 81);
            lemma_drops_has(v.board, v.hand, v.stm, piece_type.idx(), 14, m);
            lemma_contains_right(board_part, drop_part, m);
        },
    }
}


/// What a candidate move of side `c` is: a move of a piece of `c` to one of its targets, with
/// promotion only where the piece can promote and starts or ends in the zone, and without it
/// only where the piece can still move afterwards; or a drop of a piece type held in hand on an
/// empty square where the piece can stand.
pub open spec fn candidate_ok(v: StateView, c: Color, m: Move) -> bool {
    match m {
        Move::Normal { from, to, promote } => {
            &&& from.valid()
            &&& to.valid()
            &&& v.board[from.idx()] matches Some(q)
            &&& q.color == c
            &&& move_targets(v.board, from.idx(), q, occupied(v.board)).contains(to.idx())
            &&& promote ==> q.piece_type.promoted() is Some && (in_zone(from.idx(), c) || in_zone(to.idx(), c))
            &&& !promote ==> q.placeable(to.idx())
        },
        Move::Drop { to, piece_type } => {
            &&& to.valid()
            &&& piece_type.hand_piece()
            &&& hand_count(v.hand, Piece { piece_type, color: c }) != 0
            &&& v.board[to.idx()] is None
            &&& (Piece { piece_type, color: c }).placeable(to.idx())
        },
    }
}

/// A number that orders the candidate moves as they are listed: moves on the board by origin,
/// target and promotion, then drops by piece type and target.
pub open spec fn move_key(m: Move) -> int {
    match m {
        Move::Normal { from, to, promote } => from.idx() * 162 + to.idx() * 2 + if promote { 1int } else { 0int },
        Move::Drop { to, piece_type } => 20000 + piece_type.idx() * 81 + to.idx(),
    }
}

/// The keys of `s` strictly increase, and lie in `[lo, hi)`.
pub open spec fn keyed(s: Seq<Move>, lo: int, hi: int) -> bool {
    &&& forall|i: int, j: int| 0 <= i < j < s.len() ==> move_key(#[trigger] s[i]) < move_key(#[trigger] s[j])
    &&& forall|i: int| 0 <= i < s.len() ==> lo <= #[trigger] move_key(s[i]) < hi
}

/// Two keyed sequences, the first below the second, join into a keyed sequence.
proof fn lemma_keyed_concat(a: Seq<Move>, b: Seq<Move>, lo: int, mid: int, hi: int)
    requires
        keyed(a, lo, mid),
        keyed(b, mid, hi),
        lo <= mid <= hi,
    ensures
        keyed(a + b, lo, hi),
{
    let s = a + b;
    assert forall|i: int, j: int| 0 <= i < j < s.len() implies move_key(#[trigger] s[i]) < move_key(#[trigger] s[j]) by {
        if j < a.len() {
            assert(s[i] == a[i] && s[j] == a[j]);
        } else if i >= a.len() {
            assert(s[i] == b[i - a.len()] && s[j] == b[j - a.len()]);
        } else {
            assert(s[i] == a[i] && s[j] == b[j - a.len()]);
        }
    }
    assert forall|i: int| 0 <= i < s.len() implies lo <= #[trigger] move_key(s[i]) < hi by {
        if i < a.len() {
            assert(s[i] == a[i]);
        } else {
            assert(s[i] == b[i - a.len()]);
        }
    }
}

/// A keyed sequence also lies in any wider range.
proof fn lemma_keyed_widen(s: Seq<Move>, lo: int, hi: int, lo2: int, hi2: int)
    requires
        keyed(s, lo, hi),
        lo2 <= lo,
        hi <= hi2,
    ensures
        keyed(s, lo2, hi2),
{
}

/// The moves of a piece to its targets below `n` are candidates, keyed within the origin's range.
proof fn lemma_piece_moves_keyed(v: StateView, c: Color, f: int, n: nat)
    requires
        v.board.len() == 81,
        0 <= f < 81,
        n <= 81,
        v.board[f] matches Some(q) && q.color == c,
    ensures
        keyed(piece_moves_upto(v.board, Square::of_index(f), v.board[f]->Some_0, n), f * 162, f * 162 + 2 * n),
        forall|i: int|
            0 <= i < piece_moves_upto(v.board, Square::of_index(f), v.board[f]->Some_0, n).len() ==> candidate_ok(
                v,
                c,
                #[trigger] piece_moves_upto(v.board, Square::of_index(f), v.board[f]->Some_0, n)[i],
            ),
    decreases n,
{
    let q = v.board[f]->Some_0;
    let from = Square::of_index(f);
    Square::lemma_of_index(f);
    if n > 0 {
        let prev = piece_moves_upto(v.board, from, q, (n - 1) as nat);
        lemma_piece_moves_keyed(v, c, f, (n - 1) as nat);
        if move_targets(v.board, f, q, occupied(v.board)).contains(n - 1) {
            let tm = target_moves(from, q, n - 1);
            Square::lemma_of_index(n - 1);
            assert(keyed(tm, f * 162 + 2 * (n - 1), f * 162 + 2 * n));
            lemma_keyed_concat(prev, tm, f * 162, f * 162 + 2 * (n - 1), f * 162 + 2 * n);
            let s = prev + tm;
            assert forall|i: int| 0 <= i < s.len() implies candidate_ok(v, c, #[trigger] s[i]) by {
                if i < prev.len() {
                    assert(s[i] == prev[i]);
                } else {
                    assert(s[i] == tm[i - prev.len()]);
                }
            }
        } else {
            lemma_keyed_widen(prev, f * 162, f * 162 + 2 * (n - 1), f * 162, f * 162 + 2 * n);
        }
    }
}

/// The moves of the pieces of side `c` on squares below `n` are candidates, keyed below the
/// range of square `n`.
proof fn lemma_board_moves_keyed(v: StateView, c: Color, n: nat)
    requires
        v.board.len() == 81,
        n <= 81,
    ensures
        keyed(board_moves_upto(v.board, c, n), 0, 162 * (n as int)),
        forall|i: int|
            0 <= i < board_moves_upto(v.board, c, n).len() ==> candidate_ok(v, c, #[trigger] board_moves_upto(v.board, c, n)[i]),
    decreases n,
{
    if n > 0 {
        let prev = board_moves_upto(v.board, c, (n - 1) as nat);
        lemma_board_moves_keyed(v, c, (n - 1) as nat);
        match v.board[n - 1] {
            Some(p) => {
                if p.color == c {
                    let pm = piece_moves(v.board, Square::of_index(n - 1), p);
                    lemma_piece_moves_keyed(v, c, n - 1, 81);
                    lemma_keyed_concat(prev, pm, 0, 162 * (n - 1), 162 * (n as int));
                    let s = prev + pm;
                    assert forall|i: int| 0 <= i < s.len() implies candidate_ok(v, c, #[trigger] s[i]) by {
                        if i < prev.len() {
                            assert(s[i] == prev[i]);
                        } else {
                            assert(s[i] == pm[i - prev.len()]);
                        }
                    }
                } else {
                    lemma_keyed_widen(prev, 0, 162 * (n - 1), 0, 162 * (n as int));
                }
            },
            None => {
                lemma_keyed_widen(prev, 0, 162 * (n - 1), 0, 162 * (n as int));
            },
        }
    }
}

/// The drops of a piece held in hand on squares below `n` are candidates, keyed within the
/// range of its type.
proof fn lemma_square_drops_keyed(v: StateView, pc: Piece, n: nat)
    requires
        v.board.len() == 81,
        n <= 81,
        pc.piece_type.hand_piece(),
        hand_count(v.hand, pc) != 0,
    ensures
        keyed(square_drops_upto(v.board, pc, n), 20000 + pc.piece_type.idx() * 81, 20000 + pc.piece_type.idx() * 81 + n),
        forall|i: int|
            0 <= i < square_drops_upto(v.board, pc, n).len() ==> candidate_ok(
                v,
                pc.color,
                #[trigger] square_drops_upto(v.board, pc, n)[i],
            ),
    decreases n,
{
    if n > 0 {
        let base = 20000 + pc.piece_type.idx() * 81;
        let prev = square_drops_upto(v.board, pc, (n - 1) as nat);
        lemma_square_drops_keyed(v, pc, (n - 1) as nat);
        if pc.placeable(n - 1) && v.board[n - 1] is None {
            let m = Move::Drop { to: Square::of_index(n - 1), piece_type: pc.piece_type };
            Square::lemma_of_index(n - 1);
            let s = prev.push(m);
            assert(keyed(seq![m], base + n - 1, base + n));
            assert(s =~= prev + seq![m]);
            lemma_keyed_concat(prev, seq![m], base, base + n - 1, base + n);
            assert forall|i: int| 0 <= i < s.len() implies candidate_ok(v, pc.color, #[trigger] s[i]) by {
                if i < prev.len() {
                    assert(s[i] == prev[i]);
                }
            }
        } else {
            lemma_keyed_widen(prev, base, base + n - 1, base, base + n);
        }
    }
}

/// The drops of side `c` for the piece types below index `k` are candidates, keyed below the
/// range of type `k`.
proof fn lemma_drops_keyed(v: StateView, c: Color, k: nat)
    requires
        v.board.len() == 81,
        k <= 14,
    ensures
        keyed(drops_upto(v.board, v.hand, c, k), 20000, 20000 + 81 * (k as int)),
        forall|i: int|
            0 <= i < drops_upto(v.board, v.hand, c, k).len() ==> candidate_ok(
                v,
                c,
                #[trigger] drops_upto(v.board, v.hand, c, k)[i],
            ),
    decreases k,
{
    if k > 0 {
        let prev = drops_upto(v.board, v.hand, c, (k - 1) as nat);
        lemma_drops_keyed(v, c, (k - 1) as nat);
        let pc = Piece { piece_type: pt_of_index(k - 1), color: c };
        if pc.piece_type.hand_piece() && hand_count(v.hand, pc) != 0 {
            let sd = square_drops_upto(v.board, pc, 81);
            lemma_square_drops_keyed(v, pc, 81);
            assert(pc.piece_type.idx() == k - 1);
            lemma_keyed_concat(prev, sd, 20000, 20000 + 81 * (k - 1), 20000 + 81 * (k as int));
            let s = prev + sd;
            assert forall|i: int| 0 <= i < s.len() implies candidate_ok(v, c, #[trigger] s[i]) by {
                if i < prev.len() {
                    assert(s[i] == prev[i]);
                } else {
                    assert(s[i] == sd[i - prev.len()]);
                }
            }
        } else {
            lemma_keyed_widen(prev, 20000, 20000 + 81 * (k - 1), 20000, 20000 + 81 * (k as int));
        }
    }
}

/// The candidate moves of a side hold no move twice, and each is a candidate as `candidate_ok`
/// says.
pub proof fn lemma_candidates_sound(v: StateView, c: Color)
    requires
        v.board.len() == 81,
    ensures
        forall|i: int, j: int|
            0 <= i < j < candidate_moves(v, c).len() ==> #[trigger] candidate_moves(v, c)[i] != #[trigger] candidate_moves(
                v,
                c,
            )[j],
        forall|i: int|
            0 <= i < candidate_moves(v, c).len() ==> candidate_ok(v, c, #[trigger] candidate_moves(v, c)[i]),
{
    let a = board_moves_upto(v.board, c, 81);
    let b = drop_moves(v.board, v.hand, c);
    lemma_board_moves_keyed(v, c, 81);
    lemma_drops_keyed(v, c, 14);
    lemma_keyed_widen(a, 0, 162int * 81, 0, 20000);
    lemma_keyed_concat(a, b, 0, 20000, 20000 + 81int * 14);
    let s = a + b;
    assert forall|i: int| 0 <= i < s.len() implies candidate_ok(v, c, #[trigger] s[i]) by {
        if i < a.len() {
            assert(s[i] == a[i]);
        } else {
            assert(s[i] == b[i - a.len()]);
        }
    }
    assert forall|i: int, j: int| 0 <= i < j < s.len() implies #[trigger] s[i] != #[trigger] s[j] by {
        assert(move_key(s[i]) < move_key(s[j]));
    }
}


/// A king that some piece of the other side attacks cannot declare: whenever a piece of type
/// `pt` of the other color on square `a` attacks the king's square, `can_declare` is false.
pub proof fn lemma_no_declaration_under_attack(v: StateView, c: Color, pt: PieceType, a: int)
    requires
        king_square(v.board, c) matches Some(k) && attackers(v.board, pt, k, c.opp(), occupied(v.board)).contains(a),
    ensures
        !can_declare(v, c),
        in_check(v.board, c),
{
    let k = king_square(v.board, c)->Some_0;
    let t = pt.idx();
    assert(pt_of_index(t) == pt);
    assert(!attackers(v.board, pt_of_index(t), k, c.opp(), occupied(v.board)).is_empty());
}

} // verus!
