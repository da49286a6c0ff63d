use vstd::prelude::*;
use crate::bitboard::Bitboard;
use crate::color::Color;
use crate::error::{MoveError, SfenError};
use crate::hand::hand_count;
use crate::moves::{Move, MoveRecord, move_of_text, record_text, record_matches};
use crate::sfen::{tokens, tokens_view, read_state, state_text, split_whitespace, state_from_tokens, chars_eq};
use crate::piece::Piece;
use crate::piece_type::{PieceType, pt_of_index};
use crate::rules::{
    StateView, attackers, attacked, occupied, king_square, in_check, move_targets, color_set,
    pinned_set, can_declare, normal_move, drop_move, apply_move, unmake, capture_gain, legal,
    single_king, king_at,
    piece_moves, piece_moves_upto, drop_moves, drops_upto, square_drops_upto, board_moves_upto,
    candidate_moves,
};
use crate::square::Square;
use crate::attack::slide_dirs;
use crate::state_info::StateInfo;
use crate::zobrist::{
    Zobrist, state_hash, hand_key, cell_key, SIDE_KEY, lemma_state_hash_step,
    lemma_board_fold_square, lemma_hand_fold_change, lemma_xor, lemma_xor_regroup,
};

verus! {

/// The observable contents of a position: board state, move history, hash history
/// (hash and number of consecutive checks of each position), current hash, and the SFEN
/// text of the initial position if one was set.
pub struct PositionView {
    pub state: StateView,
    pub moves: Seq<MoveRecord>,
    pub hashes: Seq<(u64, u16)>,
    pub hash: u64,
    pub initial: Option<Seq<char>>,
}

/// Whether the side `stm` (to move after move `m`) is in check, looking only at the attackers
/// that the move can have uncovered or added: lances, rooks, bishops, their promoted forms and
/// the type of the moved piece; for a drop, the dropped type; with no move, every attacker.
pub open spec fn check_after(board: Seq<Option<Piece>>, stm: Color, m: Option<Move>) -> bool {
    match king_square(board, stm) {
        None => false,
        Some(k) => match m {
            None => attacked(board, k, stm.opp(), occupied(board)),
            Some(Move::Normal { to, .. }) => match board[to.idx()] {
                Some(pc) => {
                    ||| !attackers(board, PieceType::Lance, k, stm.opp(), occupied(board)).is_empty()
                    ||| !attackers(board, PieceType::Rook, k, stm.opp(), occupied(board)).is_empty()
                    ||| !attackers(board, PieceType::Bishop, k, stm.opp(), occupied(board)).is_empty()
                    ||| !attackers(board, PieceType::ProRook, k, stm.opp(), occupied(board)).is_empty()
                    ||| !attackers(board, PieceType::ProBishop, k, stm.opp(), occupied(board)).is_empty()
                    ||| !attackers(board, pc.piece_type, k, stm.opp(), occupied(board)).is_empty()
                },
                None => false,
            },
            Some(Move::Drop { piece_type, .. }) => !attackers(
                board,
                piece_type,
                k,
                stm.opp(),
                occupied(board),
            ).is_empty(),
        },
    }
}

/// The check recorded after a move is a real check: `check_after` never reports a king that
/// is not attacked.
pub proof fn lemma_check_after_sound(board: Seq<Option<Piece>>, stm: Color, m: Option<Move>)
    ensures
        check_after(board, stm, m) ==> in_check(board, stm),
{
    if check_after(board, stm, m) {
        let k = king_square(board, stm)->Some_0;
        let occ = occupied(board);
        assert(exists|t: int| 0 <= t < 14 && !attackers(board, pt_of_index(t), k, stm.opp(), occ).is_empty()) by {
            match m {
                None => {},
                Some(Move::Normal { to, .. }) => {
                    let pc = board[to.idx()]->Some_0;
                    if !attackers(board, PieceType::Lance, k, stm.opp(), occ).is_empty() {
                        assert(pt_of_index(PieceType::Lance.idx()) == PieceType::Lance);
                    } else if !attackers(board, PieceType::Rook, k, stm.opp(), occ).is_empty() {
                        assert(pt_of_index(PieceType::Rook.idx()) == PieceType::Rook);
                    } else if !attackers(board, PieceType::Bishop, k, stm.opp(), occ).is_empty() {
                        assert(pt_of_index(PieceType::Bishop.idx()) == PieceType::Bishop);
                    } else if !attackers(board, PieceType::ProRook, k, stm.opp(), occ).is_empty() {
                        assert(pt_of_index(PieceType::ProRook.idx()) == PieceType::ProRook);
                    } else if !attackers(board, PieceType::ProBishop, k, stm.opp(), occ).is_empty() {
                        assert(pt_of_index(PieceType::ProBishop.idx()) == PieceType::ProBishop);
                    } else {
                        assert(pt_of_index(pc.piece_type.idx()) == pc.piece_type);
                    }
                },
                Some(Move::Drop { piece_type, .. }) => {
                    assert(pt_of_index(piece_type.idx()) == piece_type);
                },
            }
        }
    }
}

/// A check given by the piece that was just moved or dropped is always counted: if the piece
/// now on the target square of `m` attacks the king of `stm` (it is among the attackers of
/// some type), `check_after` reports the check, whatever the piece's type.
pub proof fn lemma_check_after_finds_mover(board: Seq<Option<Piece>>, stm: Color, m: Move, pt: PieceType)
    requires
        king_square(board, stm) matches Some(k) && attackers(board, pt, k, stm.opp(), occupied(board)).contains(
            m.target().idx(),
        ),
        m matches Move::Drop { piece_type, .. } ==> piece_type == pt,
    ensures
        check_after(board, stm, Some(m)),
{
    let k = king_square(board, stm)->Some_0;
    assert(!attackers(board, pt, k, stm.opp(), occupied(board)).is_empty());
}

/// After a move is made from a state in which the side not to move was not in check (and has
/// at most one king), the check recorded for the new position is exactly whether the side now
/// to move is in check: every attacker of its king is the moved or dropped piece, or a sliding
/// piece, which `check_after` looks at.
pub proof fn lemma_check_after_exact(v: StateView, m: Move)
    requires
        v.board.len() == 81,
        v.hand.len() == 14,
        apply_move(v, m) is Ok,
        !in_check(v.board, v.stm.opp()),
        single_king(v.board, v.stm.opp()),
    ensures
        ({
            let v2 = apply_move(v, m)->Ok_0.0;
            check_after(v2.board, v2.stm, Some(m)) == in_check(v2.board, v2.stm)
        }),
{
    let v2 = apply_move(v, m)->Ok_0.0;
    let b1 = v.board;
    let b2 = v2.board;
    let stm = v.stm;
    let opp = stm.opp();
    crate::color::lemma_flip_involutive(stm);
    assert(v2.stm == opp);
    lemma_check_after_sound(b2, opp, Some(m));
    if in_check(b2, opp) && !check_after(b2, opp, Some(m)) {
        let k = king_square(b2, opp)->Some_0;
        let occ1 = occupied(b1);
        let occ2 = occupied(b2);
        crate::packed_roundtrip::lemma_king_square_holds_king(b2, opp);
        let t = choose|t: int| 0 <= t < 14 && !attackers(b2, pt_of_index(t), k, stm, occ2).is_empty();
        let pt = pt_of_index(t);
        let a = attackers(b2, pt, k, stm, occ2).choose();
        assert(attackers(b2, pt, k, stm, occ2).contains(a));
        let (changed1, changed2): (int, int) = match m {
            Move::Normal { from, to, .. } => (from.idx(), to.idx()),
            Move::Drop { to, .. } => (to.idx(), to.idx()),
        };
        match m {
            Move::Normal { from, to, .. } => {
                from.lemma_idx_bound();
                to.lemma_idx_bound();
                let pl = b2[to.idx()]->Some_0;
                assert(pt != PieceType::Lance && pt != PieceType::Rook && pt != PieceType::Bishop
                    && pt != PieceType::ProRook && pt != PieceType::ProBishop && pt != pl.piece_type) by {
                    if pt == PieceType::Lance || pt == PieceType::Rook || pt == PieceType::Bishop
                        || pt == PieceType::ProRook || pt == PieceType::ProBishop || pt == pl.piece_type {
                        assert(!attackers(b2, pt, k, stm, occ2).is_empty());
                    }
                }
                assert(slide_dirs(pt).len() == 0);
                crate::attack::lemma_attack_set_mono(Piece { piece_type: pt, color: opp }, k, occ2, occ2.union(occ1));
                crate::attack::lemma_attack_set_mono(Piece { piece_type: pt, color: opp }, k, occ1, occ2.union(occ1));
            },
            Move::Drop { to, piece_type } => {
                to.lemma_idx_bound();
                assert(pt != piece_type) by {
                    if pt == piece_type {
                        assert(!attackers(b2, pt, k, stm, occ2).is_empty());
                    }
                }
                assert(occ1.subset_of(occ2));
                crate::attack::lemma_attack_set_mono(Piece { piece_type: pt, color: opp }, k, occ1, occ2);
            },
        }
        assert(a != changed2);
        assert(b2[a] is Some);
        assert(a != changed1);
        assert(b1[a] == b2[a]);
        assert(k != changed1 && k != changed2);
        assert forall|i: int| king_at(b1, i, opp) == king_at(b2, i, opp) by {
            if king_at(b2, i, opp) {
                assert(i != changed1 && i != changed2);
            }
            if king_at(b1, i, opp) {
                assert(king_at(b1, k, opp));
            }
        }
        crate::rules::lemma_king_square_same(b1, b2, opp);
        assert(attackers(b1, pt, k, stm, occ1).contains(a));
        assert(!attackers(b1, pt_of_index(t), k, stm, occ1).is_empty());
        assert(in_check(b1, opp));
    }
}

/// Number of consecutive checks to record for a new position: one more than two entries
/// back if the side to move is in check (wrapping at 65536), else zero.
pub open spec fn check_count(hashes: Seq<(u64, u16)>, in_check: bool) -> u16 {
    if in_check {
        let past: int = if hashes.len() >= 2 {
            hashes[hashes.len() - 2].1 as int
        } else {
            0
        };
        ((past + 1) % 65536) as u16
    } else {
        0
    }
}

/// The verdict once the current position is found for the fourth time, `d` entries back:
/// if the side that just moved has checked throughout, it loses; if its opponent has, the
/// side that just moved wins; otherwise the game is a plain repetition.
pub open spec fn repetition_verdict(hs: Seq<(u64, u16)>, d: int) -> MoveError {
    let cur = hs[hs.len() - 1];
    let prev = hs[hs.len() - 2];
    let i = d % 65536;
    if cur.1 * 2 >= i {
        MoveError::PerpetualCheckLose
    } else if prev.1 * 2 >= i {
        MoveError::PerpetualCheckWin
    } else {
        MoveError::Repetition
    }
}

/// Scans the hash history backward from `d` entries back, with `cnt` occurrences of the
/// current hash found so far.
pub open spec fn repetition_scan(hs: Seq<(u64, u16)>, d: int, cnt: int) -> Result<(), MoveError>
    decreases hs.len() - d,
{
    if d >= hs.len() || d < 0 {
        Ok(())
    } else {
        let cnt2 = if hs[hs.len() - 1 - d].0 == hs[hs.len() - 1].0 {
            cnt + 1
        } else {
            cnt
        };
        if cnt2 == 4 {
            Err(repetition_verdict(hs, d))
        } else {
            repetition_scan(hs, d + 1, cnt2)
        }
    }
}

/// The fourfold-repetition rule over a hash history (looked at once it has 9 entries).
pub open spec fn repetition(hs: Seq<(u64, u16)>) -> Result<(), MoveError> {
    if hs.len() < 9 {
        Ok(())
    } else {
        repetition_scan(hs, 0, 0)
    }
}

/// The piece a normal move puts on its target square.
pub open spec fn placed_piece(moved: Piece, promote: bool) -> Piece {
    if promote {
        Piece { piece_type: moved.piece_type.promoted()->0, color: moved.color }
    } else {
        moved
    }
}

/// How a move changes the Zobrist hash of the state it is made on: the keys of the squares
/// it changes, of the side to move, and of the hand count it changes.
pub open spec fn hash_delta(keys: Seq<u64>, v: StateView, m: Move) -> u64 {
    let side = keys[SIDE_KEY as int];
    match m {
        Move::Normal { from, to, promote } => {
            let moved = v.board[from.idx()]->Some_0;
            let placed = placed_piece(moved, promote);
            let cap = v.board[to.idx()];
            let db = (cell_key(keys, Some(moved), from.idx()) ^ cell_key(keys, None, from.idx())) ^ (
            cell_key(keys, cap, to.idx()) ^ cell_key(keys, Some(placed), to.idx()));
            let dh = match cap {
                Some(c) => {
                    let g = capture_gain(c);
                    let n = hand_count(v.hand, g);
                    hand_key(keys, g, n) ^ hand_key(keys, g, ((n + 1) % 256) as u8)
                },
                None => 0,
            };
            (db ^ side) ^ dh
        },
        Move::Drop { to, piece_type } => {
            let pc = Piece { piece_type, color: v.stm };
            let n = hand_count(v.hand, pc);
            let db = cell_key(keys, None, to.idx()) ^ cell_key(keys, Some(pc), to.idx());
            let dh = hand_key(keys, pc, n) ^ hand_key(keys, pc, ((n + 255) % 256) as u8);
            (db ^ side) ^ dh
        },
    }
}

/// The position after a move that the board state accepted: new state and hash, and a hash
/// history entry for the new position (the move history is not touched).
pub open spec fn after_move(pv: PositionView, keys: Seq<u64>, m: Move, v2: StateView) -> PositionView {
    let h2 = pv.hash ^ hash_delta(keys, pv.state, m);
    PositionView {
        state: v2,
        hashes: pv.hashes.push((h2, check_count(pv.hashes, check_after(v2.board, v2.stm, Some(m))))),
        hash: h2,
        ..pv
    }
}

/// Updating the hash by a move's delta gives the hash of the new state: the incremental hash
/// agrees with the hash computed from scratch.
pub proof fn lemma_hash_delta(keys: Seq<u64>, v: StateView, m: Move)
    requires
        v.board.len() == 81,
        v.hand.len() == 14,
        apply_move(v, m) is Ok,
    ensures
        state_hash(keys, apply_move(v, m)->Ok_0.0) == state_hash(keys, v) ^ hash_delta(keys, v, m),
{
    let v2 = apply_move(v, m)->Ok_0.0;
    match m {
        Move::Normal { from, to, promote } => {
            from.lemma_idx_bound();
            to.lemma_idx_bound();
            let moved = v.board[from.idx()]->Some_0;
            let placed = placed_piece(moved, promote);
            assert(color_set(v.board, moved.color).contains(from.idx()));
            let b1 = v.board.update(from.idx(), None);
            lemma_board_fold_square(keys, v.board, from.idx(), None);
            lemma_board_fold_square(keys, b1, to.idx(), Some(placed));
            assert(b1[to.idx()] == v.board[to.idx()]);
            let d1 = cell_key(keys, Some(moved), from.idx()) ^ cell_key(keys, None, from.idx());
            let d2 = cell_key(keys, v.board[to.idx()], to.idx()) ^ cell_key(keys, Some(placed), to.idx());
            lemma_xor_regroup(crate::zobrist::board_fold(keys, v.board, 81), d1, d2, 0, 0);
            match v.board[to.idx()] {
                Some(c) => {
                    let g = capture_gain(c);
                    let n = hand_count(v.hand, g);
                    lemma_hand_fold_change(keys, v.hand, g, ((n + 1) % 256) as u8);
                    lemma_state_hash_step(keys, v, v2, d1 ^ d2, hand_key(keys, g, n) ^ hand_key(keys, g, ((n + 1) % 256) as u8));
                },
                None => {
                    assert forall|st: u64| #[trigger] crate::zobrist::hand_fold(keys, v2.hand, st, 14) == crate::zobrist::hand_fold(keys, v.hand, st, 14) ^ 0 by {
                        lemma_xor(crate::zobrist::hand_fold(keys, v.hand, st, 14), 0, 0);
                    }
                    lemma_state_hash_step(keys, v, v2, d1 ^ d2, 0);
                },
            }
        },
        Move::Drop { to, piece_type } => {
            to.lemma_idx_bound();
            let pc = Piece { piece_type, color: v.stm };
            let n = hand_count(v.hand, pc);
            lemma_board_fold_square(keys, v.board, to.idx(), Some(pc));
            lemma_hand_fold_change(keys, v.hand, pc, ((n + 255) % 256) as u8);
            lemma_state_hash_step(
                keys,
                v,
                v2,
                cell_key(keys, None, to.idx()) ^ cell_key(keys, Some(pc), to.idx()),
                hand_key(keys, pc, n) ^ hand_key(keys, pc, ((n + 255) % 256) as u8),
            );
        },
    }
}

/// The outcome of making a move on a position: the new position and the result.
pub open spec fn make_position(pv: PositionView, keys: Seq<u64>, m: Move) -> (PositionView, Result<(), MoveError>) {
    match apply_move(pv.state, m) {
        Ok((v, rec)) => {
            let a = after_move(pv, keys, m, v);
            match repetition(a.hashes) {
                Ok(()) => (PositionView { moves: a.moves.push(rec), ..a }, Ok(())),
                Err(e) => (a, Err(e)),
            }
        },
        Err(e) => (pv, Err(e)),
    }
}

/// The outcome of undoing the last move of a position's history.
pub open spec fn unmake_position(pv: PositionView, keys: Seq<u64>) -> (PositionView, Result<(), MoveError>) {
    if pv.moves.len() == 0 {
        (pv, Ok(()))
    } else {
        let rec = pv.moves.last();
        let moves = pv.moves.drop_last();
        match unmake(pv.state, rec) {
            Ok(v) => {
                let hs = if pv.hashes.len() > 0 {
                    pv.hashes.drop_last()
                } else {
                    pv.hashes
                };
                let h = if hs.len() > 0 {
                    hs.last().0
                } else {
                    state_hash(keys, v)
                };
                (PositionView { state: v, moves, hashes: hs, hash: h, initial: pv.initial }, Ok(()))
            },
            Err(e) => (PositionView { moves, ..pv }, Err(e)),
        }
    }
}

/// The hash of a position is the hash of its state, and the last one recorded if any is.
pub open spec fn synced(pv: PositionView, keys: Seq<u64>) -> bool {
    &&& pv.hashes.len() > 0 ==> pv.hash == pv.hashes.last().0
    &&& pv.hash == state_hash(keys, pv.state)
}

/// A move that was made is undone by `unmake_move`, which gives back the position as it
/// was: board state, move and hash histories and hash.
pub proof fn lemma_unmake_position_undoes_make(pv: PositionView, keys: Seq<u64>, m: Move)
    requires
        pv.state.board.len() == 81,
        pv.state.hand.len() == 14,
        synced(pv, keys),
        make_position(pv, keys, m).1 is Ok,
    ensures
        unmake_position(make_position(pv, keys, m).0, keys) == (pv, Ok::<(), MoveError>(())),
{
    let (v, rec) = apply_move(pv.state, m)->Ok_0;
    crate::rules::lemma_unmake_undoes_move(pv.state, m);
    let p2 = make_position(pv, keys, m).0;
    assert(p2.moves.drop_last() =~= pv.moves);
    assert(p2.hashes.drop_last() =~= pv.hashes);
}

/// Making a move (accepted or not) keeps the hash in step with the state and the history:
/// the incremental hash is the hash of the new state.
pub proof fn lemma_make_keeps_synced(pv: PositionView, keys: Seq<u64>, m: Move)
    requires
        pv.state.board.len() == 81,
        pv.state.hand.len() == 14,
        synced(pv, keys),
    ensures
        synced(make_position(pv, keys, m).0, keys),
{
    if apply_move(pv.state, m) is Ok {
        lemma_hash_delta(keys, pv.state, m);
    }
}

/// Makes the moves written in `toks[k..]` one after another; stops at the first move that is
/// refused (keeping what was made) and fails on text that is not a move.
pub open spec fn play_moves(pv: PositionView, keys: Seq<u64>, toks: Seq<Seq<char>>, k: int) -> (PositionView, Result<(), SfenError>)
    decreases toks.len() - k,
{
    if k >= toks.len() || k < 0 {
        (pv, Ok(()))
    } else {
        match move_of_text(toks[k]) {
            None => (pv, Err(SfenError::IllegalMove)),
            Some(m) => {
                let (p2, r) = make_position(pv, keys, m);
                if r is Ok {
                    play_moves(p2, keys, toks, k + 1)
                } else {
                    (p2, Ok(()))
                }
            },
        }
    }
}

/// Making the moves written in text keeps the hash in step with the state and the history.
pub proof fn lemma_play_moves_keeps_synced(pv: PositionView, keys: Seq<u64>, toks: Seq<Seq<char>>, k: int)
    requires
        pv.state.board.len() == 81,
        pv.state.hand.len() == 14,
        synced(pv, keys),
    ensures
        synced(play_moves(pv, keys, toks, k).0, keys),
    decreases toks.len() - k,
{
    if 0 <= k < toks.len() {
        match move_of_text(toks[k]) {
            None => {},
            Some(m) => {
                lemma_make_keeps_synced(pv, keys, m);
                let p2 = make_position(pv, keys, m).0;
                if make_position(pv, keys, m).1 is Ok {
                    crate::rules::lemma_apply_move_len(pv.state, m);
                    lemma_play_moves_keeps_synced(p2, keys, toks, k + 1);
                }
            },
        }
    }
}

/// The outcome of setting a position from a SFEN text: the four fields set up the state (the
/// hash history restarts and the initial text is recorded; the move history is kept), then
/// the moves following a "moves" field are made. If one of the four fields is missing or
/// malformed, only the state changes, as `read_state` says.
pub open spec fn set_position(pv: PositionView, keys: Seq<u64>, s: Seq<char>) -> (PositionView, Result<(), SfenError>) {
    let t = tokens(s);
    let (v, res) = read_state(t, pv.state);
    match res {
        Err(e) => (PositionView { state: v, ..pv }, Err(e)),
        Ok(()) => {
            let h = state_hash(keys, v);
            let base = PositionView {
                state: v,
                moves: pv.moves,
                hashes: seq![(h, check_count(seq![], check_after(v.board, v.stm, None)))],
                hash: h,
                initial: Some(state_text(v.board, v.hand, v.stm, v.ply)),
            };
            if t.len() > 4 && t[4] == seq!['m', 'o', 'v', 'e', 's'] {
                play_moves(base, keys, t, 5)
            } else {
                (base, Ok(()))
            }
        },
    }
}

/// The text of the first `n` recorded moves, each preceded by a space.
pub open spec fn moves_text(moves: Seq<MoveRecord>, n: int) -> Seq<char>
    decreases n,
{
    if n <= 0 {
        seq![]
    } else {
        moves_text(moves, n - 1) + seq![' '] + record_text(moves[n - 1])
    }
}

/// The SFEN text of a position: its state if no initial text was set, else the initial text
/// followed by " moves" and the moves made.
pub open spec fn position_text(pv: PositionView) -> Seq<char> {
    match pv.initial {
        None => state_text(pv.state.board, pv.state.hand, pv.state.stm, pv.state.ply),
        Some(init) => if pv.moves.len() == 0 {
            init
        } else {
            init + seq![' ', 'm', 'o', 'v', 'e', 's'] + moves_text(pv.moves, pv.moves.len() as int)
        },
    }
}

/// Makes the moves `ms` one after another, stopping at the first one refused; the flag tells
/// whether all of them were made.
pub open spec fn make_all(pv: PositionView, keys: Seq<u64>, ms: Seq<Move>) -> (PositionView, bool)
    decreases ms.len(),
{
    if ms.len() == 0 {
        (pv, true)
    } else {
        let (p2, r) = make_position(pv, keys, ms[0]);
        if r is Ok {
            make_all(p2, keys, ms.subrange(1, ms.len() as int))
        } else {
            (p2, false)
        }
    }
}

/// Making moves that are all accepted appends one record per move, each the move made, and
/// keeps the initial text.
pub proof fn lemma_make_all_records(pv: PositionView, keys: Seq<u64>, ms: Seq<Move>)
    requires
        make_all(pv, keys, ms).1,
    ensures
        make_all(pv, keys, ms).0.initial == pv.initial,
        make_all(pv, keys, ms).0.moves.len() == pv.moves.len() + ms.len(),
        make_all(pv, keys, ms).0.moves.subrange(0, pv.moves.len() as int) == pv.moves,
        forall|i: int|
            0 <= i < ms.len() ==> record_matches(#[trigger] make_all(pv, keys, ms).0.moves[pv.moves.len() + i], ms[i]),
    decreases ms.len(),
{
    if ms.len() > 0 {
        let p2 = make_position(pv, keys, ms[0]).0;
        let rest = ms.subrange(1, ms.len() as int);
        lemma_make_all_records(p2, keys, rest);
        let p = make_all(pv, keys, ms).0;
        assert(p2.moves.len() == pv.moves.len() + 1);
        assert(p2.moves.subrange(0, pv.moves.len() as int) =~= pv.moves);
        assert(record_matches(p2.moves[pv.moves.len() as int], ms[0]));
        assert(p.moves.subrange(0, p2.moves.len() as int) == p2.moves);
        assert(p.moves.subrange(0, pv.moves.len() as int) =~= pv.moves) by {
            assert forall|j: int| 0 <= j < pv.moves.len() implies p.moves[j] == pv.moves[j] by {
                assert(p.moves.subrange(0, p2.moves.len() as int)[j] == p2.moves[j]);
                assert(p2.moves.subrange(0, pv.moves.len() as int)[j] == pv.moves[j]);
            }
        }
        assert forall|i: int| 0 <= i < ms.len() implies record_matches(
            #[trigger] p.moves[pv.moves.len() + i],
            ms[i],
        ) by {
            if i == 0 {
                assert(p.moves.subrange(0, p2.moves.len() as int)[pv.moves.len() as int] == p2.moves[pv.moves.len() as int]);
            } else {
                assert(rest[i - 1] == ms[i]);
                assert(p.moves[p2.moves.len() + (i - 1)] == p.moves[pv.moves.len() + i]);
            }
        }
    }
}

/// After a position is set from a SFEN text of four fields (on a position without moves) and
/// moves are made that are all accepted, the history holds one record per move, each the move
/// made, and the SFEN text of the position is the text of the state that was read, followed
/// (if moves were made) by " moves" and the text of each move.
pub proof fn lemma_sfen_after_set_and_moves(pv0: PositionView, keys: Seq<u64>, f: Seq<char>, ms: Seq<Move>)
    requires
        pv0.moves.len() == 0,
        tokens(f).len() == 4,
        set_position(pv0, keys, f).1 is Ok,
        make_all(set_position(pv0, keys, f).0, keys, ms).1,
    ensures
        ({
            let v = read_state(tokens(f), pv0.state).0;
            let p = make_all(set_position(pv0, keys, f).0, keys, ms).0;
            let canon = state_text(v.board, v.hand, v.stm, v.ply);
            &&& p.moves.len() == ms.len()
            &&& forall|i: int| 0 <= i < ms.len() ==> record_matches(#[trigger] p.moves[i], ms[i])
            &&& position_text(p) == if ms.len() == 0 {
                canon
            } else {
                canon + seq![' ', 'm', 'o', 'v', 'e', 's'] + moves_text(p.moves, ms.len() as int)
            }
        }),
{
    let p1 = set_position(pv0, keys, f).0;
    lemma_make_all_records(p1, keys, ms);
    let p = make_all(p1, keys, ms).0;
    assert forall|i: int| 0 <= i < ms.len() implies record_matches(#[trigger] p.moves[i], ms[i]) by {
        assert(p.moves[p1.moves.len() + i] == p.moves[i]);
    }
}

/// The text of the first `n` records depends on those records alone.
proof fn lemma_moves_text_prefix(a: Seq<MoveRecord>, b: Seq<MoveRecord>, n: int)
    requires
        0 <= n <= a.len(),
        n <= b.len(),
        forall|i: int| 0 <= i < n ==> a[i] == b[i],
    ensures
        moves_text(a, n) == moves_text(b, n),
    decreases n,
{
    if n > 0 {
        lemma_moves_text_prefix(a, b, n - 1);
    }
}

/// After a position without moves is set from a SFEN text of four fields, its SFEN text is
/// the text of the state that was read, recorded as the initial text.
pub proof fn lemma_to_sfen_after_set(pv0: PositionView, keys: Seq<u64>, f: Seq<char>)
    requires
        pv0.moves.len() == 0,
        tokens(f).len() == 4,
        set_position(pv0, keys, f).1 is Ok,
    ensures
        ({
            let v = read_state(tokens(f), pv0.state).0;
            let p = set_position(pv0, keys, f).0;
            &&& p.moves.len() == 0
            &&& p.initial == Some(state_text(v.board, v.hand, v.stm, v.ply))
            &&& position_text(p) == state_text(v.board, v.hand, v.stm, v.ply)
        }),
{
}

/// Making an accepted move on a position with an initial text records the move and appends
/// its text to the position's SFEN text (after " moves" for the first move).
pub proof fn lemma_to_sfen_step(pv: PositionView, keys: Seq<u64>, m: Move)
    requires
        pv.initial is Some,
        make_position(pv, keys, m).1 is Ok,
    ensures
        ({
            let p2 = make_position(pv, keys, m).0;
            &&& p2.initial == pv.initial
            &&& p2.moves == pv.moves.push(apply_move(pv.state, m)->Ok_0.1)
            &&& record_matches(p2.moves.last(), m)
            &&& position_text(p2) == (if pv.moves.len() == 0 {
                pv.initial->0 + seq![' ', 'm', 'o', 'v', 'e', 's']
            } else {
                position_text(pv)
            }) + seq![' '] + record_text(p2.moves.last())
        }),
{
    let p2 = make_position(pv, keys, m).0;
    let n = pv.moves.len() as int;
    lemma_moves_text_prefix(p2.moves, pv.moves, n);
    assert(moves_text(p2.moves, n + 1) == moves_text(p2.moves, n) + seq![' '] + record_text(p2.moves[n]));
    if n == 0 {
        assert(moves_text(pv.moves, 0) == Seq::<char>::empty());
        assert(moves_text(p2.moves, 1) =~= seq![' '] + record_text(p2.moves.last()));
    }
}

/// A game position: a board state with the history of moves and positions.
#[derive(Clone, Debug)]
pub struct Position {
    state: StateInfo,
    move_history: Vec<MoveRecord>,
    hash_history: Vec<(u64, u16)>,
    hash: u64,
    initial_sfen: Option<String>,
    zobrist: Zobrist,
}

/// The text of an optional string.
pub open spec fn opt_text(s: Option<String>) -> Option<Seq<char>> {
    match s {
        Some(t) => Some(t@),
        None => None,
    }
}

/// The piece that goes to the capturer's hand when `cap` is captured.
fn gain_of(cap: Piece) -> (r: Piece)
    ensures
        r == capture_gain(cap),
{
    let pc = cap.flip();
    match pc.unpromote() {
        Some(unpromoted) => unpromoted,
        None => pc,
    }
}

impl View for Position {
    type V = PositionView;

    closed spec fn view(&self) -> PositionView {
        PositionView {
            state: self.state@,
            moves: self.move_history@,
            hashes: self.hash_history@,
            hash: self.hash,
            initial: opt_text(self.initial_sfen),
        }
    }
}

impl Position {
    /// The state agrees with its bitboards and the Zobrist keys are in place.
    pub closed spec fn wf(&self) -> bool {
        &&& self.state.wf()
        &&& self.zobrist.wf()
    }

    /// The Zobrist keys of the position.
    pub closed spec fn keys(&self) -> Seq<u64> {
        self.zobrist.keys()
    }

    /// All positions share the same keys.
    pub proof fn lemma_keys(&self)
        requires
            self.wf(),
        ensures
            self.keys() == crate::zobrist::chacha8_u64s(crate::zobrist::ZOBRIST_SEED, crate::zobrist::NUM_KEYS as nat),
    {
    }

    /// The hash of a state view under this position's keys.
    pub open spec fn hash_of(&self, v: StateView) -> u64 {
        state_hash(self.keys(), v)
    }

    /// The hash of the position is that of its state and of the last record of the hash
    /// history: true of a new position, kept by `make_move`, and established by a successful
    /// `set_sfen`.
    pub open spec fn is_synced(&self) -> bool {
        synced(self@, self.keys())
    }

    /// The view always has 81 squares and 14 hand counts.
    pub proof fn lemma_view_len(&self)
        ensures
            self@.state.board.len() == 81,
            self@.state.hand.len() == 14,
    {
        self.state.lemma_view_len();
    }

    /// Creates a position with an empty board, Black to move, at ply 1.
    pub fn new() -> (r: Position)
        ensures
            r.wf(),
            r@.state.board == Seq::new(81, |i: int| None::<Piece>),
            r@.state.hand == Seq::new(14, |i: int| 0u8),
            r@.state.ply == 1,
            r@.state.stm == Color::Black,
            r@.moves.len() == 0,
            r@.hashes.len() == 0,
            r@.hash == r.hash_of(r@.state),
            r@.initial is None,
            r.is_synced(),
    {
        let state = StateInfo::new();
        let zobrist = Zobrist::init();
        let hash = zobrist.compute_hash(&state);
        Position {
            state,
            move_history: Vec::new(),
            hash_history: Vec::new(),
            hash,
            initial_sfen: None,
            zobrist,
        }
    }

    /// Returns the board state of the position.
    pub fn state(&self) -> (r: &StateInfo)
        ensures
            r@ == self@.state,
            self.wf() ==> r.wf(),
    {
        &self.state
    }

    /// Returns the piece on the given square.
    pub fn piece_at(&self, sq: Square) -> (r: &Option<Piece>)
        ensures
            *r == self@.state.board[sq.idx()],
    {
        self.state.piece_at(sq)
    }

    /// Returns the bitboard of the squares holding pieces of the given player.
    pub fn player_bb(&self, c: Color) -> (r: &Bitboard)
        requires
            self.wf(),
        ensures
            r@ == color_set(self@.state.board, c),
    {
        self.state.player_bb(c)
    }

    /// Returns the number of the given piece in hand.
    pub fn hand(&self, p: Piece) -> (r: u8)
        ensures
            r == hand_count(self@.state.hand, p),
    {
        self.state.hand(p)
    }

    /// Returns the side to make a move next.
    pub fn side_to_move(&self) -> (r: Color)
        ensures
            r == self@.state.stm,
    {
        self.state.side_to_move()
    }

    /// Returns the number of plies already completed.
    pub fn ply(&self) -> (r: u16)
        ensures
            r == self@.state.ply,
    {
        self.state.ply()
    }

    /// Returns the history of the moves made.
    pub fn move_history(&self) -> (r: &[MoveRecord])
        ensures
            r@ == self@.moves,
    {
        self.move_history.as_slice()
    }

    /// Returns true if the player of the given color can declare a win.
    pub fn try_declare_winning(&self, c: Color) -> (r: bool)
        requires
            self.wf(),
        ensures
            r == can_declare(self@.state, c),
    {
        self.state.try_declare_winning(c)
    }

    /// Returns true if the king of the given color is in check.
    pub fn in_check(&self, c: Color) -> (r: bool)
        requires
            self.wf(),
        ensures
            r == in_check(self@.state.board, c),
    {
        self.state.in_check(c)
    }

    /// Returns the square of the king of the given color.
    pub fn find_king(&self, c: Color) -> (r: Option<Square>)
        requires
            self.wf(),
        ensures
            match king_square(self@.state.board, c) {
                Some(k) => r matches Some(s) && s.idx() == k,
                None => r is None,
            },
    {
        self.state.find_king(c)
    }

    /// Returns the squares of pieces of color `c` pinned to their king.
    pub fn pinned_bb(&self, c: Color) -> (r: Bitboard)
        requires
            self.wf(),
        ensures
            r@ == pinned_set(self@.state.board, c),
    {
        self.state.pinned_bb(c)
    }

    /// Returns the squares to which the piece `p` on `sq` can move.
    pub fn move_candidates(&self, sq: Square, p: Piece) -> (r: Bitboard)
        requires
            self.wf(),
        ensures
            r@ == move_targets(self@.state.board, sq.idx(), p, occupied(self@.state.board)),
    {
        self.state.move_candidates(sq, p)
    }

    /// Returns the candidate normal moves of the piece `p` from `from`, by target square:
    /// where it can promote, the move without promotion (if the piece could still move
    /// afterwards) and then the promoting move; otherwise the plain move.
    fn all_normal_move_candidates(&self, from: Square, p: Piece) -> (r: Vec<Move>)
        requires
            self.wf(),
        ensures
            r@ == piece_moves(self@.state.board, from, p),
    {
        let targets = self.move_candidates(from, p);
        let mut moves: Vec<Move> = Vec::new();
        let mut i: u8 = 0;
        while i < 81
            invariant
                i <= 81,
                targets@ == move_targets(self@.state.board, from.idx(), p, occupied(self@.state.board)),
                moves@ == piece_moves_upto(self@.state.board, from, p, i as nat),
            decreases 81 - i,
        {
            let to = Square::from_index(i).unwrap();
            if targets.contains(to) {
                let promotable = from.in_promotion_zone(p.color) || to.in_promotion_zone(p.color);
                if p.piece_type.promote().is_some() && promotable {
                    if p.is_placeable_at(to) {
                        moves.push(Move::Normal { from, to, promote: false });
                    }
                    moves.push(Move::Normal { from, to, promote: true });
                } else {
                    moves.push(Move::Normal { from, to, promote: false });
                }
            }
            i += 1;
        }
        moves
    }

    /// Returns the candidate drops of side `c`: for each piece type it holds, in the order of
    /// the piece types, the empty squares where the piece can stand, in square order.
    fn all_drop_move_candidates(&self, c: Color) -> (r: Vec<Move>)
        requires
            self.wf(),
        ensures
            r@ == drop_moves(self@.state.board, self@.state.hand, c),
    {
        let mut moves: Vec<Move> = Vec::new();
        let mut k: usize = 0;
        while k < 14
            invariant
                k <= 14,
                self.wf(),
                moves@ == drops_upto(self@.state.board, self@.state.hand, c, k as nat),
            decreases 14 - k,
        {
            let pt = PieceType::from_index(k);
            if pt.is_hand_piece() {
                let pc = Piece { piece_type: pt, color: c };
                let n = self.state.hand(pc);
                if n != 0 {
                    let ghost before = moves@;
                    let mut i: u8 = 0;
                    while i < 81
                        invariant
                            i <= 81,
                            self.wf(),
                            pc.piece_type == pt,
                            moves@ == before + square_drops_upto(self@.state.board, pc, i as nat),
                        decreases 81 - i,
                    {
                        let to = Square::from_index(i).unwrap();
                        proof {
                            self.lemma_view_len();
                        }
                        if pc.is_placeable_at(to) && self.state.piece_at(to).is_none() {
                            moves.push(Move::Drop { to, piece_type: pt });
                        }
                        i += 1;
                    }
                }
            }
            k += 1;
        }
        moves
    }

    /// Returns the candidate moves of side `c`: the moves of its pieces on the board, by
    /// square, then its drops. Candidates may still leave the king in check or break
    /// another rule; `is_legal` tells.
    pub fn all_move_candidates(&self, c: Color) -> (r: Vec<Move>)
        requires
            self.wf(),
        ensures
            r@ == candidate_moves(self@.state, c),
    {
        let mut moves: Vec<Move> = Vec::new();
        let mut i: u8 = 0;
        while i < 81
            invariant
                i <= 81,
                self.wf(),
                moves@ == board_moves_upto(self@.state.board, c, i as nat),
            decreases 81 - i,
        {
            let sq = Square::from_index(i).unwrap();
            proof {
                self.lemma_view_len();
            }
            if let Some(pc) = self.state.piece_at(sq) {
                if pc.color == c {
                    let mut ms = self.all_normal_move_candidates(sq, *pc);
                    moves.append(&mut ms);
                }
            }
            i += 1;
        }
        let mut drops = self.all_drop_move_candidates(c);
        moves.append(&mut drops);
        moves
    }

    /// Returns true if the move is legal, checked without changing the position.
    pub fn is_legal(&self, m: Move) -> (r: bool)
        requires
            self.wf(),
        ensures
            r == legal(self@.state, m),
    {
        self.state.is_legal(m)
    }
    /// Returns true if, after the move `m`, the side to move is in check (see `check_after`).
    fn in_check_after_move(&self, m: Option<Move>) -> (r: bool)
        requires
            self.wf(),
        ensures
            r == check_after(self@.state.board, self@.state.stm, m),
    {
        let stm = self.state.side_to_move();
        let king_sq = match self.state.find_king(stm) {
            Some(k) => k,
            None => {
                return false;
            },
        };
        match m {
            None => self.state.is_attacked_by(king_sq, stm.flip()),
            Some(Move::Normal { to, .. }) => {
                match *self.state.piece_at(to) {
                    Some(piece) => {
                        self.state.get_attackers_of_type(PieceType::Lance, king_sq, stm.flip()).is_any()
                            || self.state.get_attackers_of_type(PieceType::Rook, king_sq, stm.flip()).is_any()
                            || self.state.get_attackers_of_type(PieceType::Bishop, king_sq, stm.flip()).is_any()
                            || self.state.get_attackers_of_type(PieceType::ProRook, king_sq, stm.flip()).is_any()
                            || self.state.get_attackers_of_type(PieceType::ProBishop, king_sq, stm.flip()).is_any()
                            || self.state.get_attackers_of_type(piece.piece_type, king_sq, stm.flip()).is_any()
                    },
                    None => false,
                }
            },
            Some(Move::Drop { piece_type, .. }) => self.state.get_attackers_of_type(
                piece_type,
                king_sq,
                stm.flip(),
            ).is_any(),
        }
    }

    /// Records the current hash with the number of consecutive checks.
    fn log_position(&mut self, m: Option<Move>)
        requires
            old(self).wf(),
        ensures
            final(self).wf(),
            final(self).keys() == old(self).keys(),
            final(self)@ == (PositionView {
                hashes: old(self)@.hashes.push(
                    (
                        old(self)@.hash,
                        check_count(
                            old(self)@.hashes,
                            check_after(old(self)@.state.board, old(self)@.state.stm, m),
                        ),
                    ),
                ),
                ..old(self)@
            }),
    {
        let in_check = self.in_check_after_move(m);
        let continuous_check: u16 = if in_check {
            let n = self.hash_history.len();
            let past: u16 = if n >= 2 {
                self.hash_history[n - 2].1
            } else {
                0
            };
            past.wrapping_add(1)
        } else {
            0
        };
        self.hash_history.push((self.hash, continuous_check));
    }

    /// Checks the history for the fourth occurrence of the current position.
    fn detect_repetition(&self) -> (r: Result<(), MoveError>)
        ensures
            r == repetition(self@.hashes),
    {
        let n = self.hash_history.len();
        if n < 9 {
            return Ok(());
        }
        let ghost hs = self@.hashes;
        let cur = self.hash_history[n - 1];
        let mut cnt: u32 = 0;
        let mut d: usize = 0;
        while d < n
            invariant
                n == hs.len(),
                n >= 9,
                hs == self@.hashes,
                cur == hs[n - 1],
                d <= n,
                cnt < 4,
                repetition(hs) == repetition_scan(hs, d as int, cnt as int),
            decreases n - d,
        {
            let entry = self.hash_history[n - 1 - d];
            if entry.0 == cur.0 {
                cnt = cnt + 1;
                if cnt == 4 {
                    let prev = self.hash_history[n - 2];
                    let i = (d % 65536) as u32;
                    if cur.1 as u32 * 2 >= i {
                        return Err(MoveError::PerpetualCheckLose);
                    } else if prev.1 as u32 * 2 >= i {
                        return Err(MoveError::PerpetualCheckWin);
                    } else {
                        return Err(MoveError::Repetition);
                    }
                }
            }
            d = d + 1;
        }
        Ok(())
    }

    /// Makes a normal move (not a drop), updating the hash and the hash history and checking
    /// for repetition; the move history is not updated. On a repetition error the move stays
    /// made and its position stays logged.
    pub fn make_normal_move(&mut self, from: Square, to: Square, promoted: bool) -> (r: Result<MoveRecord, MoveError>)
        requires
            old(self).wf(),
        ensures
            final(self).wf(),
            final(self).keys() == old(self).keys(),
            match normal_move(old(self)@.state, from, to, promoted) {
                Ok((v, rec)) => {
                    &&& final(self)@ == after_move(old(self)@, old(self).keys(), Move::Normal { from, to, promote: promoted }, v)
                    &&& r == (match repetition(final(self)@.hashes) {
                        Ok(()) => Ok::<MoveRecord, MoveError>(rec),
                        Err(e) => Err(e),
                    })
                },
                Err(e) => r == Err::<MoveRecord, MoveError>(e) && final(self)@ == old(self)@,
            },
    {
        let ghost v0 = self@.state;
        let ghost keys = self.keys();
        let moved_cell = *self.state.piece_at(from);
        let captured = *self.state.piece_at(to);
        let gain_info: Option<(Piece, u8)> = match captured {
            Some(cap) => {
                let g = gain_of(cap);
                Some((g, self.state.hand(g)))
            },
            None => None,
        };
        let res = self.state.make_normal_move(from, to, promoted);
        let rec = match res {
            Ok(rec) => rec,
            Err(e) => {
                return Err(e);
            },
        };
        let moved = moved_cell.unwrap();
        let placed = match rec {
            MoveRecord::Normal { placed, .. } => placed,
            MoveRecord::Drop { piece, .. } => piece,
        };
        let cap_key = match captured {
            Some(cap) => self.zobrist.board_hash(cap, to),
            None => 0,
        };
        let db = (self.zobrist.board_hash(moved, from) ^ 0) ^ (cap_key ^ self.zobrist.board_hash(placed, to));
        let dh = match gain_info {
            Some((g, n)) => self.zobrist.hand_hash(g, n) ^ self.zobrist.hand_hash(g, n.wrapping_add(1)),
            None => 0,
        };
        self.hash = self.hash ^ ((db ^ self.zobrist.side_to_move_hash()) ^ dh);
        self.log_position(Some(Move::Normal { from, to, promote: promoted }));
        match self.detect_repetition() {
            Ok(()) => Ok(rec),
            Err(e) => Err(e),
        }
    }
    /// Makes a drop move, updating the hash and the hash history and checking for repetition;
    /// the move history is not updated. On a repetition error the move stays made.
    pub fn make_drop_move(&mut self, to: Square, pt: PieceType) -> (r: Result<MoveRecord, MoveError>)
        requires
            old(self).wf(),
        ensures
            final(self).wf(),
            final(self).keys() == old(self).keys(),
            match drop_move(old(self)@.state, to, pt) {
                Ok((v, rec)) => {
                    &&& final(self)@ == after_move(old(self)@, old(self).keys(), Move::Drop { to, piece_type: pt }, v)
                    &&& r == (match repetition(final(self)@.hashes) {
                        Ok(()) => Ok::<MoveRecord, MoveError>(rec),
                        Err(e) => Err(e),
                    })
                },
                Err(e) => r == Err::<MoveRecord, MoveError>(e) && final(self)@ == old(self)@,
            },
    {
        let pc = Piece { piece_type: pt, color: self.state.side_to_move() };
        let old_count = self.state.hand(pc);
        let res = self.state.make_drop_move(to, pt);
        let rec = match res {
            Ok(rec) => rec,
            Err(e) => {
                return Err(e);
            },
        };
        let db = 0 ^ self.zobrist.board_hash(pc, to);
        let dh = self.zobrist.hand_hash(pc, old_count) ^ self.zobrist.hand_hash(pc, old_count.wrapping_sub(1));
        self.hash = self.hash ^ ((db ^ self.zobrist.side_to_move_hash()) ^ dh);
        self.log_position(Some(Move::Drop { to, piece_type: pt }));
        match self.detect_repetition() {
            Ok(()) => Ok(rec),
            Err(e) => Err(e),
        }
    }

    /// Makes the given move. Returns `Err` if the move is invalid or a special condition
    /// (repetition, perpetual check) is met; the move is added to the move history only on
    /// success.
    pub fn make_move(&mut self, m: Move) -> (r: Result<(), MoveError>)
        requires
            old(self).wf(),
        ensures
            final(self).wf(),
            final(self).keys() == old(self).keys(),
            final(self)@ == make_position(old(self)@, old(self).keys(), m).0,
            r == make_position(old(self)@, old(self).keys(), m).1,
            old(self).is_synced() ==> final(self).is_synced(),
    {
        proof {
            self.lemma_view_len();
            if self.is_synced() {
                lemma_make_keeps_synced(self@, self.keys(), m);
            }
        }
        let res = match m {
            Move::Normal { from, to, promote } => self.make_normal_move(from, to, promote),
            Move::Drop { to, piece_type } => self.make_drop_move(to, piece_type),
        };
        match res {
            Ok(rec) => {
                self.move_history.push(rec);
                Ok(())
            },
            Err(e) => Err(e),
        }
    }

    /// Undoes the last move of the move history (does nothing if it is empty). The move is
    /// taken off the history even if the board does not show it as made, in which case the
    /// error is returned and the board and hash history are left as they were.
    pub fn unmake_move(&mut self) -> (r: Result<(), MoveError>)
        requires
            old(self).wf(),
        ensures
            final(self).wf(),
            final(self).keys() == old(self).keys(),
            final(self)@ == unmake_position(old(self)@, old(self).keys()).0,
            r == unmake_position(old(self)@, old(self).keys()).1,
    {
        if self.move_history.len() == 0 {
            return Ok(());
        }
        let last = self.move_history.pop().unwrap();
        match self.state.unmake_move(last) {
            Ok(()) => {},
            Err(e) => {
                return Err(e);
            },
        }
        self.hash_history.pop();
        let n = self.hash_history.len();
        if n > 0 {
            self.hash = self.hash_history[n - 1].0;
        } else {
            self.hash = self.zobrist.compute_hash(&self.state);
        }
        Ok(())
    }
    /// Parses the given SFEN text and sets the position: board, side to move, hand and ply,
    /// then the moves listed after "moves" (stopping silently at the first refused move).
    /// If one of the four fields is missing or malformed, the fields read before it stay set
    /// and nothing else changes.
    pub fn set_sfen(&mut self, sfen_str: &str) -> (r: Result<(), SfenError>)
        requires
            old(self).wf(),
        ensures
            final(self).wf(),
            final(self).keys() == old(self).keys(),
            final(self)@ == set_position(old(self)@, old(self).keys(), sfen_str@).0,
            r == set_position(old(self)@, old(self).keys(), sfen_str@).1,
            r is Ok ==> final(self).is_synced(),
    {
        let chars = crate::text::chars_of(sfen_str);
        let t = split_whitespace(&chars);
        let ghost toks = tokens(sfen_str@);
        proof {
            assert(tokens_view(&t) =~= toks);
        }
        match state_from_tokens(&t, &mut self.state) {
            Ok(()) => {},
            Err(e) => {
                return Err(e);
            },
        }
        self.hash = self.zobrist.compute_hash(&self.state);
        self.hash_history.clear();
        self.initial_sfen = Some(self.state.generate_sfen());
        self.log_position(None);
        proof {
            assert(self.hash_history@ =~= seq![(self.hash, check_count(seq![], check_after(self@.state.board, self@.state.stm, None)))]);
        }
        let moves_word: [char; 5] = ['m', 'o', 'v', 'e', 's'];
        proof {
            assert(moves_word@ =~= seq!['m', 'o', 'v', 'e', 's']);
        }
        let ghost base = self@;
        proof {
            if t.len() > 4 {
                assert(t@[4]@ == toks[4]);
            }
        }
        if t.len() > 4 && chars_eq(t[4].as_slice(), moves_word.as_slice()) {
            let mut k: usize = 5;
            while k < t.len()
                invariant_except_break
                    set_position(old(self)@, old(self).keys(), sfen_str@) == play_moves(self@, self.keys(), toks, k as int),
                invariant
                    5 <= k <= t.len(),
                    self.wf(),
                    self.is_synced(),
                    self.keys() == old(self).keys(),
                    tokens_view(&t) == toks,
                    toks.len() == t@.len(),
                ensures
                    set_position(old(self)@, old(self).keys(), sfen_str@) == (self@, Ok::<(), SfenError>(())),
                decreases t.len() - k,
            {
                proof {
                    assert(t@[k as int]@ == toks[k as int]);
                }
                match Move::from_sfen_chars(t[k].as_slice()) {
                    Some(m) => {
                        match self.make_move(m) {
                            Ok(()) => {},
                            Err(_) => {
                                break;
                            },
                        }
                    },
                    None => {
                        return Err(SfenError::IllegalMove);
                    },
                }
                k = k + 1;
            }
        }
        Ok(())
    }

    /// Returns the SFEN text of the position: the initial text and the moves made, or the
    /// state's own text if no SFEN was set.
    pub fn to_sfen(&self) -> (r: String)
        ensures
            r@ == position_text(self@),
    {
        match &self.initial_sfen {
            None => self.state.generate_sfen(),
            Some(initial) => {
                if self.move_history.len() == 0 {
                    initial.clone()
                } else {
                    let mut out = crate::text::chars_of(initial.as_str());
                    out.push(' ');
                    out.push('m');
                    out.push('o');
                    out.push('v');
                    out.push('e');
                    out.push('s');
                    let ghost base = out@;
                    let mut k: usize = 0;
                    while k < self.move_history.len()
                        invariant
                            k <= self.move_history.len(),
                            out@ == base + moves_text(self@.moves, k as int),
                            self@.moves == self.move_history@,
                        decreases self.move_history.len() - k,
                    {
                        out.push(' ');
                        self.move_history[k].push_sfen(&mut out);
                        k = k + 1;
                        proof {
                            assert(out@ =~= base + moves_text(self@.moves, k as int));
                        }
                    }
                    proof {
                        assert(out@ =~= position_text(self@));
                    }
                    crate::text::string_of(&out)
                }
            },
        }
    }

    /// Returns the SFEN text of the current board state (board, side to move, hand, ply).
    pub fn generate_sfen(&self) -> (r: String)
        ensures
            r@ == state_text(self@.state.board, self@.state.hand, self@.state.stm, self@.state.ply),
    {
        self.state.generate_sfen()
    }
}

impl Default for Position {
    /// A position with an empty board, Black to move, at ply 1.
    fn default() -> (r: Position)
        ensures
            r.wf(),
            r@.state.board == Seq::new(81, |i: int| None::<Piece>),
            r@.state.hand == Seq::new(14, |i: int| 0u8),
            r@.state.ply == 1,
            r@.state.stm == Color::Black,
            r@.moves.len() == 0,
            r@.hashes.len() == 0,
            r@.hash == r.hash_of(r@.state),
            r@.initial is None,
            r.is_synced(),
    {
        Position::new()
    }
}

} // verus!
