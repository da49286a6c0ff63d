//! Reading back the SFEN text of a board state gives the state.
use vstd::prelude::*;
use crate::color::Color;
use crate::error::SfenError;
use crate::piece::Piece;
use crate::sfen::{
    BoardScan, scan_board, row_from, rows_text, is_digit, digit_value, decimal, board_of_text, scan_hand,
    hand_of_text, hand_text, hand_color_text, hand_piece_text, scan_u16, ply_of_text, is_ws, split_from, tokens,
    state_of_text, state_text, board_scan_start,
};
use crate::rules::StateView;
use crate::hand::{hand_set, hand_count};
use crate::piece_type::{pt_of_index, PieceType};
use crate::square::{Square, index_at, spec_digit_char, file_of, rank_of, square_of_chars};
use crate::moves::{Move, move_text, move_of_text, square_text, record_text, record_matches};
use crate::rules::apply_move;

verus! {

/// One character of the board field read in the state `st`.
pub open spec fn board_step(c: char, st: BoardScan) -> Result<BoardScan, SfenError> {
    if c == '/' {
        if st.row + 1 >= 9 {
            Err(SfenError::IllegalBoardState)
        } else {
            Ok(BoardScan { board: st.board, row: st.row + 1, col: 0, promoted: false })
        }
    } else if c == '+' {
        Ok(BoardScan { promoted: true, ..st })
    } else if is_digit(c) {
        let n = digit_value(c);
        if st.col + n > 9 {
            Err(SfenError::IllegalBoardState)
        } else {
            Ok(
                BoardScan {
                    board: Seq::new(
                        81,
                        |i: int|
                            if i % 9 == st.row && 8 - st.col - n < i / 9 <= 8 - st.col {
                                None
                            } else {
                                st.board[i]
                            },
                    ),
                    col: st.col + n,
                    ..st
                },
            )
        }
    } else {
        match Piece::of_letter(c) {
            None => Err(SfenError::IllegalPieceType),
            Some(piece) => {
                if st.col >= 9 {
                    Err(SfenError::IllegalBoardState)
                } else if st.promoted && piece.piece_type.promoted() is None {
                    Err(SfenError::IllegalPieceType)
                } else {
                    let p = if st.promoted {
                        Piece { piece_type: piece.piece_type.promoted()->0, color: piece.color }
                    } else {
                        piece
                    };
                    Ok(
                        BoardScan {
                            board: st.board.update(index_at(8 - st.col, st.row), Some(p)),
                            row: st.row,
                            col: st.col + 1,
                            promoted: false,
                        },
                    )
                }
            },
        }
    }
}

/// Reading the characters `t` of the board field in turn from the state `st`.
pub open spec fn board_run(t: Seq<char>, st: BoardScan) -> Result<BoardScan, SfenError>
    decreases t.len(),
{
    if t.len() == 0 {
        Ok(st)
    } else {
        match board_step(t[0], st) {
            Ok(st2) => board_run(t.subrange(1, t.len() as int), st2),
            Err(e) => Err(e),
        }
    }
}

/// Reading the board field from position `k` goes a character at a time.
proof fn lemma_scan_board_step(s: Seq<char>, k: int, st: BoardScan)
    requires
        0 <= k < s.len(),
    ensures
        scan_board(s, k, st) == match board_step(s[k], st) {
            Ok(st2) => scan_board(s, k + 1, st2),
            Err(e) => Err(e),
        },
{
}

/// Reading a stretch `t` of the board field in one go.
proof fn lemma_scan_board_run(s: Seq<char>, k: int, t: Seq<char>, st: BoardScan)
    requires
        0 <= k,
        k + t.len() <= s.len(),
        s.subrange(k, k + t.len()) == t,
    ensures
        scan_board(s, k, st) == match board_run(t, st) {
            Ok(st2) => scan_board(s, k + t.len(), st2),
            Err(e) => Err(e),
        },
    decreases t.len(),
{
    if t.len() > 0 {
        assert(s[k] == t[0]);
        lemma_scan_board_step(s, k, st);
        match board_step(t[0], st) {
            Ok(st2) => {
                let t2 = t.subrange(1, t.len() as int);
                assert(s.subrange(k + 1, k + 1 + t2.len()) =~= t2);
                lemma_scan_board_run(s, k + 1, t2, st2);
            },
            Err(e) => {},
        }
    }
}

/// Reading two stretches in turn.
proof fn lemma_board_run_append(t1: Seq<char>, t2: Seq<char>, st: BoardScan)
    ensures
        board_run(t1 + t2, st) == match board_run(t1, st) {
            Ok(m) => board_run(t2, m),
            Err(e) => Err(e),
        },
    decreases t1.len(),
{
    if t1.len() == 0 {
        assert(t1 + t2 =~= t2);
    } else {
        assert((t1 + t2)[0] == t1[0]);
        assert((t1 + t2).subrange(1, (t1 + t2).len() as int) =~= t1.subrange(1, t1.len() as int) + t2);
        match board_step(t1[0], st) {
            Ok(st2) => {
                lemma_board_run_append(t1.subrange(1, t1.len() as int), t2, st2);
            },
            Err(e) => {},
        }
    }
}

/// The upper-case letters of the piece types.
proof fn lemma_upper_letters()
    ensures
        crate::piece::upper('k') == 'K',
        crate::piece::upper('r') == 'R',
        crate::piece::upper('b') == 'B',
        crate::piece::upper('g') == 'G',
        crate::piece::upper('s') == 'S',
        crate::piece::upper('n') == 'N',
        crate::piece::upper('l') == 'L',
        crate::piece::upper('p') == 'P',
        crate::piece::upper('+') == '+',
{
    assert(crate::piece::upper('k') == 'K');
    assert(crate::piece::upper('r') == 'R');
    assert(crate::piece::upper('b') == 'B');
    assert(crate::piece::upper('g') == 'G');
    assert(crate::piece::upper('s') == 'S');
    assert(crate::piece::upper('n') == 'N');
    assert(crate::piece::upper('l') == 'L');
    assert(crate::piece::upper('p') == 'P');
    assert(crate::piece::upper('+') == '+');
}

/// Reading the text of a piece puts the piece on the next square of the row.
proof fn lemma_piece_text_run(pc: Piece, st: BoardScan)
    requires
        !st.promoted,
        0 <= st.col < 9,
    ensures
        board_run(pc.sfen_text(), st) == Ok::<BoardScan, SfenError>(
            BoardScan {
                board: st.board.update(index_at(8 - st.col, st.row), Some(pc)),
                row: st.row,
                col: st.col + 1,
                promoted: false,
            },
        ),
{
    lemma_upper_letters();
    let t = pc.sfen_text();
    reveal_with_fuel(board_run, 3);
    if pc.piece_type.is_promoted_type() {
        assert(t.len() == 2);
        assert(t[0] == '+');
        let st1 = BoardScan { promoted: true, ..st };
        assert(board_step(t[0], st) == Ok::<BoardScan, SfenError>(st1));
        assert(t.subrange(1, 2) =~= seq![t[1]]);
        assert(seq![t[1]].subrange(1, 1) =~= Seq::<char>::empty());
    } else {
        assert(t.len() == 1);
        assert(t.subrange(1, 1) =~= Seq::<char>::empty());
    }
}

/// The digit character of a value below ten is a digit of that value.
proof fn lemma_digit_char(d: int)
    requires
        0 <= d < 10,
    ensures
        is_digit(spec_digit_char(d)),
        digit_value(spec_digit_char(d)) == d,
        spec_digit_char(d) != '/',
        spec_digit_char(d) != '+',
{
    let c = spec_digit_char(d);
    assert(c as int == d + 48);
}

/// The board of `st` with the squares of row `r` from file `g` down taken from `board`.
pub open spec fn with_row(st_board: Seq<Option<Piece>>, board: Seq<Option<Piece>>, r: int, g: int) -> Seq<Option<Piece>> {
    Seq::new(81, |i: int| if i % 9 == r && i / 9 <= g { board[i] } else { st_board[i] })
}

/// Reading the text of row `r` from file `f` down, with `e` empty squares pending, fills the
/// row in from file `f + e` down and ends at the end of the row.
proof fn lemma_row_run(board: Seq<Option<Piece>>, r: int, f: int, e: int, st: BoardScan)
    requires
        board.len() == 81,
        st.board.len() == 81,
        0 <= r < 9,
        -1 <= f <= 8,
        0 <= e,
        f + e <= 8,
        st.row == r,
        st.col == 8 - f - e,
        !st.promoted,
        forall|g: int| f < g <= f + e ==> #[trigger] board[index_at(g, r)] is None,
    ensures
        board_run(row_from(board, r, f, e), st) == Ok::<BoardScan, SfenError>(
            BoardScan { board: with_row(st.board, board, r, f + e), row: r, col: 9, promoted: false },
        ),
    decreases f + 1,
{
    let pending = if e > 0 {
        decimal(e as nat)
    } else {
        seq![]
    };
    let st1 = BoardScan {
        board: Seq::new(
            81,
            |i: int| if i % 9 == r && 8 - st.col - e < i / 9 <= 8 - st.col { None } else { st.board[i] },
        ),
        col: st.col + e,
        ..st
    };
    if e > 0 {
        lemma_digit_char(e);
        assert(pending =~= seq![spec_digit_char(e)]);
        reveal_with_fuel(board_run, 2);
        assert(pending.subrange(1, 1) =~= Seq::<char>::empty());
        assert(board_run(pending, st) == Ok::<BoardScan, SfenError>(st1));
    } else {
        assert(st1.board =~= st.board);
        assert(st1 == st);
        assert(board_run(pending, st) == Ok::<BoardScan, SfenError>(st1));
    }
    if f < 0 {
        assert(row_from(board, r, f, e) == pending);
        assert forall|i: int| 0 <= i < 81 implies #[trigger] st1.board[i] == with_row(st.board, board, r, f + e)[i] by {
            if i % 9 == r && i / 9 <= f + e {
                assert(index_at(i / 9, r) == i);
            }
        }
        assert(st1.board =~= with_row(st.board, board, r, f + e));
    } else {
        match board[index_at(f, r)] {
            Some(pc) => {
                let rest = row_from(board, r, f - 1, 0);
                assert(row_from(board, r, f, e) == pending + pc.sfen_text() + rest);
                lemma_board_run_append(pending + pc.sfen_text(), rest, st);
                lemma_board_run_append(pending, pc.sfen_text(), st);
                lemma_piece_text_run(pc, st1);
                let st2 = BoardScan {
                    board: st1.board.update(index_at(8 - st1.col, st1.row), Some(pc)),
                    row: r,
                    col: st1.col + 1,
                    promoted: false,
                };
                lemma_row_run(board, r, f - 1, 0, st2);
                assert forall|i: int| 0 <= i < 81 implies #[trigger] with_row(st2.board, board, r, f - 1)[i] == with_row(
                    st.board,
                    board,
                    r,
                    f + e,
                )[i] by {
                    if i % 9 == r && f <= i / 9 <= f + e {
                        assert(index_at(i / 9, r) == i);
                    }
                }
                assert(with_row(st2.board, board, r, f - 1) =~= with_row(st.board, board, r, f + e));
            },
            None => {
                lemma_row_run(board, r, f - 1, e + 1, st);
            },
        }
    }
}

/// The first `n` rows of `board`, the rest as in `b0`.
pub open spec fn first_rows(board: Seq<Option<Piece>>, n: int, b0: Seq<Option<Piece>>) -> Seq<Option<Piece>> {
    Seq::new(81, |i: int| if i % 9 < n { board[i] } else { b0[i] })
}

/// Reading the text of the first `n` rows onto `b0` fills them in.
proof fn lemma_rows_run(board: Seq<Option<Piece>>, n: int, b0: Seq<Option<Piece>>)
    requires
        board.len() == 81,
        b0.len() == 81,
        1 <= n <= 9,
    ensures
        board_run(rows_text(board, n), board_scan_start(b0)) == Ok::<BoardScan, SfenError>(
            BoardScan { board: first_rows(board, n, b0), row: n - 1, col: 9, promoted: false },
        ),
    decreases n,
{
    if n == 1 {
        lemma_row_run(board, 0, 8, 0, board_scan_start(b0));
        assert(with_row(b0, board, 0, 8) =~= first_rows(board, 1, b0));
    } else {
        lemma_rows_run(board, n - 1, b0);
        let prev = rows_text(board, n - 1);
        let row = row_from(board, n - 1, 8, 0);
        assert(rows_text(board, n) == prev + seq!['/'] + row);
        lemma_board_run_append(prev + seq!['/'], row, board_scan_start(b0));
        lemma_board_run_append(prev, seq!['/'], board_scan_start(b0));
        let st = BoardScan { board: first_rows(board, n - 1, b0), row: n - 2, col: 9, promoted: false };
        let st1 = BoardScan { board: first_rows(board, n - 1, b0), row: n - 1, col: 0, promoted: false };
        reveal_with_fuel(board_run, 2);
        assert(seq!['/'].subrange(1, 1) =~= Seq::<char>::empty());
        assert(board_run(seq!['/'], st) == Ok::<BoardScan, SfenError>(st1));
        lemma_row_run(board, n - 1, 8, 0, st1);
        assert(with_row(first_rows(board, n - 1, b0), board, n - 1, 8) =~= first_rows(board, n, b0));
    }
}

/// Reading the board text of a board onto any board gives the board back.
pub proof fn lemma_board_text_roundtrip(board: Seq<Option<Piece>>, b0: Seq<Option<Piece>>)
    requires
        board.len() == 81,
        b0.len() == 81,
    ensures
        board_of_text(rows_text(board, 9), b0) == Ok::<Seq<Option<Piece>>, SfenError>(board),
{
    let t = rows_text(board, 9);
    lemma_rows_run(board, 9, b0);
    assert(t.subrange(0, t.len() as int) =~= t);
    lemma_scan_board_run(t, 0, t, board_scan_start(b0));
    assert(first_rows(board, 9, b0) =~= board);
}

/// One character of the hand field read with the hand `h` and the pending count `num`.
pub open spec fn hand_step(c: char, h: Seq<u8>, num: u8) -> Result<(Seq<u8>, u8), SfenError> {
    if is_digit(c) {
        Ok((h, ((num * 10 + digit_value(c)) % 256) as u8))
    } else {
        match Piece::of_letter(c) {
            None => Err(SfenError::IllegalPieceType),
            Some(p) => Ok((hand_set(h, p, if num == 0 { 1 } else { num }), 0)),
        }
    }
}

/// Reading the characters `t` of the hand field in turn.
pub open spec fn hand_run(t: Seq<char>, h: Seq<u8>, num: u8) -> Result<(Seq<u8>, u8), SfenError>
    decreases t.len(),
{
    if t.len() == 0 {
        Ok((h, num))
    } else {
        match hand_step(t[0], h, num) {
            Ok((h2, n2)) => hand_run(t.subrange(1, t.len() as int), h2, n2),
            Err(e) => Err(e),
        }
    }
}

/// Reading a stretch `t` of the hand field in one go.
proof fn lemma_scan_hand_run(s: Seq<char>, k: int, t: Seq<char>, h: Seq<u8>, num: u8)
    requires
        0 <= k,
        k + t.len() <= s.len(),
        s.subrange(k, k + t.len()) == t,
    ensures
        scan_hand(s, k, h, num) == match hand_run(t, h, num) {
            Ok((h2, n2)) => scan_hand(s, k + t.len(), h2, n2),
            Err(e) => Err(e),
        },
    decreases t.len(),
{
    if t.len() > 0 {
        assert(s[k] == t[0]);
        match hand_step(t[0], h, num) {
            Ok((h2, n2)) => {
                let t2 = t.subrange(1, t.len() as int);
                assert(s.subrange(k + 1, k + 1 + t2.len()) =~= t2);
                lemma_scan_hand_run(s, k + 1, t2, h2, n2);
            },
            Err(e) => {},
        }
    }
}

/// Reading two stretches of the hand field in turn.
proof fn lemma_hand_run_append(t1: Seq<char>, t2: Seq<char>, h: Seq<u8>, num: u8)
    ensures
        hand_run(t1 + t2, h, num) == match hand_run(t1, h, num) {
            Ok((h2, n2)) => hand_run(t2, h2, n2),
            Err(e) => Err(e),
        },
    decreases t1.len(),
{
    if t1.len() == 0 {
        assert(t1 + t2 =~= t2);
    } else {
        assert((t1 + t2)[0] == t1[0]);
        assert((t1 + t2).subrange(1, (t1 + t2).len() as int) =~= t1.subrange(1, t1.len() as int) + t2);
        match hand_step(t1[0], h, num) {
            Ok((h2, n2)) => {
                lemma_hand_run_append(t1.subrange(1, t1.len() as int), t2, h2, n2);
            },
            Err(e) => {},
        }
    }
}

/// Reading the decimal text of a count below 256 leaves it pending.
proof fn lemma_decimal_hand_run(n: nat, h: Seq<u8>)
    requires
        n < 256,
    ensures
        hand_run(decimal(n), h, 0) == Ok::<(Seq<u8>, u8), SfenError>((h, n as u8)),
    decreases n,
{
    if n < 10 {
        lemma_digit_char(n as int);
        reveal_with_fuel(hand_run, 2);
        assert(decimal(n).subrange(1, 1) =~= Seq::<char>::empty());
    } else {
        lemma_decimal_hand_run(n / 10, h);
        let d = spec_digit_char((n % 10) as int);
        lemma_digit_char((n % 10) as int);
        lemma_hand_run_append(decimal(n / 10), seq![d], h, 0);
        reveal_with_fuel(hand_run, 2);
        assert(seq![d].subrange(1, 1) =~= Seq::<char>::empty());
        assert(((((n / 10) as u8) * 10 + (n % 10)) % 256) as u8 == n as u8);
    }
}

/// The hand `h` with the slots of color `c` for the hand types with index below `t` set to
/// the counts of `hand` that are not zero.
pub open spec fn hand_filled(hand: Seq<u8>, h: Seq<u8>, c: Color, t: int) -> Seq<u8> {
    Seq::new(
        14,
        |i: int|
            if (i / 7 == c.idx()) && 7 - (i % 7) < t && hand[i] != 0 {
                hand[i]
            } else {
                h[i]
            },
    )
}

/// Reading the hand text of color `c` for the types with index below `t` sets their slots.
#[verifier::spinoff_prover]
#[verifier::rlimit(30)]
proof fn lemma_hand_color_run(hand: Seq<u8>, h: Seq<u8>, c: Color, t: int)
    requires
        hand.len() == 14,
        h.len() == 14,
        1 <= t <= 8,
    ensures
        hand_run(hand_color_text(hand, c, t), h, 0) == Ok::<(Seq<u8>, u8), SfenError>((hand_filled(hand, h, c, t), 0)),
    decreases t,
{
    lemma_upper_letters();
    if t == 1 {
        assert(hand_filled(hand, h, c, 1) =~= h);
    } else {
        lemma_hand_color_run(hand, h, c, t - 1);
        let h1 = hand_filled(hand, h, c, t - 1);
        let pc = Piece { piece_type: pt_of_index(t - 1), color: c };
        let text = hand_piece_text(hand, pc);
        lemma_hand_run_append(hand_color_text(hand, c, t - 1), text, h, 0);
        let n = hand_count(hand, pc);
        let slot = (7 - (t - 1)) + 7 * c.idx();
        assert(crate::hand::hand_slot(pc) == Some(slot));
        assert(n == hand[slot]);
        assert(pc.sfen_text().len() == 1);
        reveal_with_fuel(hand_run, 2);
        assert(pc.sfen_text().subrange(1, 1) =~= Seq::<char>::empty());
        if n == 0 {
            assert(text =~= Seq::<char>::empty());
            assert(hand_filled(hand, h, c, t) =~= h1);
        } else if n == 1 {
            assert(hand_filled(hand, h, c, t) =~= hand_set(h1, pc, 1));
        } else {
            lemma_decimal_hand_run(n as nat, h1);
            lemma_hand_run_append(decimal(n as nat), pc.sfen_text(), h1, 0);
            assert(hand_filled(hand, h, c, t) =~= hand_set(h1, pc, n));
        }
    }
}

/// Reading the hand text of a hand onto empty hands gives the hand back.
pub proof fn lemma_hand_text_roundtrip(hand: Seq<u8>)
    requires
        hand.len() == 14,
    ensures
        hand_of_text(hand_text(hand), Seq::new(14, |i: int| 0u8)) == Ok::<Seq<u8>, SfenError>(hand),
{
    let zeros = Seq::new(14, |i: int| 0u8);
    let tb = hand_color_text(hand, Color::Black, 8);
    let tw = hand_color_text(hand, Color::White, 8);
    lemma_hand_color_run(hand, zeros, Color::Black, 8);
    let hb = hand_filled(hand, zeros, Color::Black, 8);
    lemma_hand_color_run(hand, hb, Color::White, 8);
    let hw = hand_filled(hand, hb, Color::White, 8);
    assert(hw =~= hand);
    lemma_hand_run_append(tb, tw, zeros, 0);
    let t = tb + tw;
    if t.len() == 0 {
        assert(hand_text(hand) == seq!['-']);
        assert(t =~= Seq::<char>::empty());
        assert(hand_run(t, zeros, 0) == Ok::<(Seq<u8>, u8), SfenError>((zeros, 0)));
        assert(hand =~= zeros);
        assert(seq!['-'] =~= seq!['-']);
    } else {
        assert(hand_text(hand) == t);
        assert(t != seq!['-']) by {
            if t == seq!['-'] {
                reveal_with_fuel(hand_run, 2);
                assert(t.subrange(1, 1) =~= Seq::<char>::empty());
            }
        }
        assert(t.subrange(0, t.len() as int) =~= t);
        lemma_scan_hand_run(t, 0, t, zeros, 0);
    }
}

/// Reading the decimal text of a number up to 65535 from position `k`, with nothing read
/// before, reaches the end of that text with the number read.
proof fn lemma_scan_u16_digits(s: Seq<char>, k: int, n: nat)
    requires
        n <= 65535,
        0 <= k,
        k + decimal(n).len() <= s.len(),
        s.subrange(k, k + decimal(n).len()) == decimal(n),
    ensures
        scan_u16(s, k, 0) == scan_u16(s, k + decimal(n).len(), n as int),
        decimal(n).len() >= 1,
        is_digit(decimal(n)[0]),
        forall|i: int| 0 <= i < decimal(n).len() ==> is_digit(#[trigger] decimal(n)[i]),
    decreases n,
{
    let d = spec_digit_char((n % 10) as int);
    lemma_digit_char((n % 10) as int);
    if n < 10 {
        assert(s[k] == decimal(n)[0]);
    } else {
        let q = decimal(n / 10);
        assert(decimal(n) == q + seq![d]);
        assert(s.subrange(k, k + q.len()) =~= q);
        lemma_scan_u16_digits(s, k, n / 10);
        assert(s.subrange(k, k + decimal(n).len())[q.len() as int] == s[k + q.len()]);
        assert((q + seq![d])[q.len() as int] == d);
        assert(s[k + q.len()] == d);
        assert((n / 10) * 10 + (n % 10) == n);
        lemma_scan_u16_step(s, k + q.len(), (n / 10) as int, (n % 10) as int);
        assert forall|i: int| 0 <= i < decimal(n).len() implies is_digit(#[trigger] decimal(n)[i]) by {
            if i < q.len() {
                assert(decimal(n)[i] == q[i]);
            }
        }
    }
}

/// One digit of the ply.
proof fn lemma_scan_u16_step(s: Seq<char>, k: int, acc: int, dv: int)
    requires
        0 <= k < s.len(),
        is_digit(s[k]),
        digit_value(s[k]) == dv,
        acc * 10 + dv <= 65535,
    ensures
        scan_u16(s, k, acc) == scan_u16(s, k + 1, acc * 10 + dv),
{
}

/// Reading the decimal text of a ply gives the ply.
pub proof fn lemma_ply_text_roundtrip(ply: u16)
    ensures
        ply_of_text(decimal(ply as nat)) == Ok::<u16, SfenError>(ply),
{
    let t = decimal(ply as nat);
    assert(t.subrange(0, t.len() as int) =~= t);
    lemma_scan_u16_digits(t, 0, ply as nat);
    assert(t[0] != '+');
}

/// No white space in a text.
pub open spec fn no_ws(t: Seq<char>) -> bool {
    forall|i: int| 0 <= i < t.len() ==> !is_ws(#[trigger] t[i])
}

/// Splitting goes through a stretch without white space by adding it to the current token.
proof fn lemma_split_segment(s: Seq<char>, k: int, j: int, cur: Seq<char>, acc: Seq<Seq<char>>)
    requires
        0 <= k <= j <= s.len(),
        forall|i: int| k <= i < j ==> !is_ws(#[trigger] s[i]),
    ensures
        split_from(s, k, cur, acc) == split_from(s, j, cur + s.subrange(k, j), acc),
    decreases j - k,
{
    if k < j {
        lemma_split_segment(s, k + 1, j, cur.push(s[k]), acc);
        assert(cur.push(s[k]) + s.subrange(k + 1, j) =~= cur + s.subrange(k, j));
    } else {
        assert(cur + s.subrange(k, k) =~= cur);
    }
}

/// The tokens of four fields without white space, separated by single spaces.
proof fn lemma_tokens_four(a: Seq<char>, b: Seq<char>, c: Seq<char>, d: Seq<char>)
    requires
        a.len() > 0,
        b.len() > 0,
        c.len() > 0,
        d.len() > 0,
        no_ws(a),
        no_ws(b),
        no_ws(c),
        no_ws(d),
    ensures
        tokens(a + seq![' '] + b + seq![' '] + c + seq![' '] + d) == seq![a, b, c, d],
{
    let s = a + seq![' '] + b + seq![' '] + c + seq![' '] + d;
    let pa = a.len() as int;
    let pb = pa + 1 + b.len();
    let pc = pb + 1 + c.len();
    let pd = pc + 1 + d.len();
    assert(s.len() == pd);
    assert forall|i: int| 0 <= i < pa implies !is_ws(#[trigger] s[i]) by {
        assert(s[i] == a[i]);
    }
    assert forall|i: int| pa + 1 <= i < pb implies !is_ws(#[trigger] s[i]) by {
        assert(s[i] == b[i - pa - 1]);
    }
    assert forall|i: int| pb + 1 <= i < pc implies !is_ws(#[trigger] s[i]) by {
        assert(s[i] == c[i - pb - 1]);
    }
    assert forall|i: int| pc + 1 <= i < pd implies !is_ws(#[trigger] s[i]) by {
        assert(s[i] == d[i - pc - 1]);
    }
    assert(s[pa] == ' ' && s[pb] == ' ' && s[pc] == ' ');
    assert(is_ws(' '));
    assert(s.subrange(0, pa) =~= a);
    assert(s.subrange(pa + 1, pb) =~= b);
    assert(s.subrange(pb + 1, pc) =~= c);
    assert(s.subrange(pc + 1, pd) =~= d);
    let e = Seq::<char>::empty();
    let acc0 = Seq::<Seq<char>>::empty();
    lemma_split_segment(s, 0, pa, e, acc0);
    assert(e + a =~= a);
    lemma_split_segment(s, pa + 1, pb, e, acc0.push(a));
    assert(e + b =~= b);
    lemma_split_segment(s, pb + 1, pc, e, acc0.push(a).push(b));
    assert(e + c =~= c);
    lemma_split_segment(s, pc + 1, pd, e, acc0.push(a).push(b).push(c));
    assert(e + d =~= d);
    assert(acc0.push(a).push(b).push(c).push(d) =~= seq![a, b, c, d]);
}

/// A board text that reads without error holds no white space.
proof fn lemma_board_run_no_ws(t: Seq<char>, st: BoardScan)
    requires
        board_run(t, st) is Ok,
    ensures
        no_ws(t),
    decreases t.len(),
{
    if t.len() > 0 {
        match board_step(t[0], st) {
            Ok(st2) => {
                let t2 = t.subrange(1, t.len() as int);
                lemma_board_run_no_ws(t2, st2);
                assert forall|i: int| 0 <= i < t.len() implies !is_ws(#[trigger] t[i]) by {
                    if i > 0 {
                        assert(t[i] == t2[i - 1]);
                    }
                }
            },
            Err(e) => {},
        }
    }
}

/// A hand text that reads without error holds no white space.
proof fn lemma_hand_run_no_ws(t: Seq<char>, h: Seq<u8>, num: u8)
    requires
        hand_run(t, h, num) is Ok,
    ensures
        no_ws(t),
    decreases t.len(),
{
    if t.len() > 0 {
        match hand_step(t[0], h, num) {
            Ok((h2, n2)) => {
                let t2 = t.subrange(1, t.len() as int);
                lemma_hand_run_no_ws(t2, h2, n2);
                assert forall|i: int| 0 <= i < t.len() implies !is_ws(#[trigger] t[i]) by {
                    if i > 0 {
                        assert(t[i] == t2[i - 1]);
                    }
                }
            },
            Err(e) => {},
        }
    }
}

/// Reading the SFEN text of a board state onto a state with empty hands (any board, side to
/// move and ply) gives the state back: the board, the side to move, the hands and the ply.
pub proof fn lemma_sfen_roundtrip(v: StateView, v0: StateView)
    requires
        v.board.len() == 81,
        v.hand.len() == 14,
        v0.board.len() == 81,
        v0.hand == Seq::new(14, |i: int| 0u8),
    ensures
        state_of_text(state_text(v.board, v.hand, v.stm, v.ply), v0) == (v, Ok::<(), SfenError>(())),
        tokens(state_text(v.board, v.hand, v.stm, v.ply)) == seq![
            rows_text(v.board, 9),
            seq![if v.stm == Color::Black { 'b' } else { 'w' }],
            hand_text(v.hand),
            decimal(v.ply as nat),
        ],
{
    let zeros = Seq::new(14, |i: int| 0u8);
    let r = rows_text(v.board, 9);
    let sc = seq![if v.stm == Color::Black { 'b' } else { 'w' }];
    let h = hand_text(v.hand);
    let d = decimal(v.ply as nat);
    lemma_board_text_roundtrip(v.board, v0.board);
    lemma_rows_run(v.board, 9, v0.board);
    lemma_board_run_no_ws(r, board_scan_start(v0.board));
    assert(r == rows_text(v.board, 8) + seq!['/'] + row_from(v.board, 8, 8, 0));
    lemma_hand_text_roundtrip(v.hand);
    let tb = hand_color_text(v.hand, Color::Black, 8);
    let tw = hand_color_text(v.hand, Color::White, 8);
    if (tb + tw).len() == 0 {
        assert(h == seq!['-']);
    } else {
        lemma_hand_color_run(v.hand, zeros, Color::Black, 8);
        lemma_hand_color_run(v.hand, hand_filled(v.hand, zeros, Color::Black, 8), Color::White, 8);
        lemma_hand_run_append(tb, tw, zeros, 0);
        lemma_hand_run_no_ws(tb + tw, zeros, 0);
    }
    lemma_ply_text_roundtrip(v.ply);
    assert(d.subrange(0, d.len() as int) =~= d);
    lemma_scan_u16_digits(d, 0, v.ply as nat);
    assert(no_ws(d));
    assert(no_ws(sc));
    lemma_tokens_four(r, sc, h, d);
    let text = state_text(v.board, v.hand, v.stm, v.ply);
    assert(text == r + seq![' '] + sc + seq![' '] + h + seq![' '] + d);
    let t = tokens(text);
    assert(t == seq![r, sc, h, d]);
    assert(t.len() == 4 && t[0] == r && t[1] == sc && t[2] == h && t[3] == d);
    if v.stm == Color::Black {
        assert(sc =~= seq!['b']);
    } else {
        assert(sc =~= seq!['w']);
        assert(sc[0] != seq!['b'][0]);
    }
    assert(crate::sfen::stm_of_text(sc) == Ok::<Color, SfenError>(v.stm));
    assert(crate::sfen::read_state(t, v0) == (
        StateView { board: v.board, hand: v.hand, ply: v.ply, stm: v.stm },
        Ok::<(), SfenError>(()),
    ));
}

/// The two SFEN characters of a square read back as the square.
proof fn lemma_square_text_roundtrip(sq: Square)
    requires
        sq.valid(),
    ensures
        square_of_chars(square_text(sq.idx())[0], square_text(sq.idx())[1]) == Some(sq),
        '1' <= square_text(sq.idx())[0] <= '9',
{
    sq.lemma_valid();
    let i = sq.idx();
    let fc = spec_digit_char(file_of(i) + 1);
    let rc = crate::square::spec_rank_char(rank_of(i));
    assert(fc as int == file_of(i) + 1 + 48);
    assert(rc as int == rank_of(i) + 97);
    assert(index_at(file_of(i), rank_of(i)) == i);
}

/// The SFEN text of a move on the board, or of a drop of an unpromoted piece, reads back as
/// the move.
pub proof fn lemma_move_text_roundtrip(m: Move)
    requires
        m.valid(),
        m matches Move::Drop { piece_type, .. } ==> !piece_type.is_promoted_type(),
    ensures
        move_of_text(move_text(m)) == Some(m),
{
    lemma_upper_letters();
    match m {
        Move::Normal { from, to, promote } => {
            lemma_square_text_roundtrip(from);
            lemma_square_text_roundtrip(to);
            let t = move_text(m);
            assert(t[0] == square_text(from.idx())[0]);
            assert(t[1] == square_text(from.idx())[1]);
            assert(t[2] == square_text(to.idx())[0]);
            assert(t[3] == square_text(to.idx())[1]);
        },
        Move::Drop { to, piece_type } => {
            lemma_square_text_roundtrip(to);
            let t = move_text(m);
            let pc = Piece { piece_type, color: Color::Black };
            assert(pc.sfen_text().len() == 1);
            assert(t[1] == '*');
            assert(t[2] == square_text(to.idx())[0]);
            assert(t[3] == square_text(to.idx())[1]);
            assert(crate::piece_type::PieceType::of_letter(t[0]) == Some(piece_type));
        },
    }
}


/// The record of a move that was made is the move, and its SFEN text reads back as the move.
pub proof fn lemma_record_text_roundtrip(v: StateView, m: Move)
    requires
        m.valid(),
        v.board.len() == 81,
        v.hand.len() == 14,
        apply_move(v, m) is Ok,
    ensures
        record_matches(apply_move(v, m)->Ok_0.1, m),
        record_text(apply_move(v, m)->Ok_0.1) == move_text(m),
        move_of_text(record_text(apply_move(v, m)->Ok_0.1)) == Some(m),
{
    match m {
        Move::Drop { to, piece_type } => {
            assert(!piece_type.is_promoted_type()) by {
                if piece_type.is_promoted_type() {
                    assert(crate::hand::hand_slot(Piece { piece_type, color: v.stm }) is None);
                }
            }
        },
        Move::Normal { .. } => {},
    }
    lemma_move_text_roundtrip(m);
}


/// No two digits stand next to each other at position `i` of `t`.
pub open spec fn digit_pair(t: Seq<char>, i: int) -> bool {
    is_digit(t[i]) && is_digit(t[i + 1])
}

/// No two digits stand next to each other in `t`.
pub open spec fn no_adjacent_digits(t: Seq<char>) -> bool {
    forall|i: int| 0 <= i < t.len() - 1 ==> !#[trigger] digit_pair(t, i)
}

/// Joining two texts without adjacent digits, where the join is not between two digits, gives
/// a text without adjacent digits.
proof fn lemma_no_adjacent_concat(a: Seq<char>, b: Seq<char>)
    requires
        no_adjacent_digits(a),
        no_adjacent_digits(b),
        a.len() == 0 || b.len() == 0 || !is_digit(a[a.len() - 1]) || !is_digit(b[0]),
    ensures
        no_adjacent_digits(a + b),
{
    let t = a + b;
    assert forall|i: int| 0 <= i < t.len() - 1 implies !#[trigger] digit_pair(t, i) by {
        if i < a.len() - 1 {
            assert(digit_pair(a, i) == digit_pair(t, i));
        } else if i >= a.len() {
            assert(t[i] == b[i - a.len()] && t[i + 1] == b[i - a.len() + 1]);
            assert(digit_pair(b, i - a.len()) == digit_pair(t, i));
        } else {
            assert(t[i] == a[a.len() - 1] && t[i + 1] == b[0]);
        }
    }
}

/// The text of a piece is one or two characters, none of them a digit.
proof fn lemma_piece_text_no_digit(pc: Piece)
    ensures
        1 <= pc.sfen_text().len() <= 2,
        forall|i: int| 0 <= i < pc.sfen_text().len() ==> !is_digit(#[trigger] pc.sfen_text()[i]),
{
    lemma_upper_letters();
    let t = pc.piece_type.sfen_text();
    assert(t.len() == 1 || t.len() == 2);
    assert forall|i: int| 0 <= i < pc.sfen_text().len() implies !is_digit(#[trigger] pc.sfen_text()[i]) by {
        assert(t[i] == '+' || t[i] == pc.piece_type.letter());
        match pc.color {
            Color::Black => {
                assert(pc.sfen_text()[i] == crate::piece::upper(t[i]));
            },
            Color::White => {},
        }
    }
}

/// The text of a row has no adjacent digits.
proof fn lemma_row_no_adjacent(board: Seq<Option<Piece>>, r: int, f: int, e: int)
    requires
        board.len() == 81,
        0 <= r < 9,
        -1 <= f <= 8,
        0 <= e,
        f + e <= 8,
    ensures
        no_adjacent_digits(row_from(board, r, f, e)),
    decreases f + 1,
{
    let pending = if e > 0 {
        decimal(e as nat)
    } else {
        seq![]
    };
    if e > 0 {
        lemma_digit_char(e);
        assert(pending =~= seq![spec_digit_char(e)]);
    }
    assert(no_adjacent_digits(pending));
    if f >= 0 {
        match board[index_at(f, r)] {
            Some(pc) => {
                lemma_piece_text_no_digit(pc);
                let t = pc.sfen_text();
                assert(no_adjacent_digits(t));
                lemma_no_adjacent_concat(pending, t);
                lemma_row_no_adjacent(board, r, f - 1, 0);
                let a = pending + t;
                assert(a[a.len() - 1] == t[t.len() - 1]);
                lemma_no_adjacent_concat(a, row_from(board, r, f - 1, 0));
            },
            None => {
                lemma_row_no_adjacent(board, r, f - 1, e + 1);
            },
        }
    }
}

/// The board text has no adjacent digits.
proof fn lemma_rows_no_adjacent(board: Seq<Option<Piece>>, n: int)
    requires
        board.len() == 81,
        1 <= n <= 9,
    ensures
        no_adjacent_digits(rows_text(board, n)),
    decreases n,
{
    lemma_row_no_adjacent(board, n - 1, 8, 0);
    if n > 1 {
        lemma_rows_no_adjacent(board, n - 1);
        let a = rows_text(board, n - 1) + seq!['/'];
        assert(no_adjacent_digits(seq!['/']));
        lemma_no_adjacent_concat(rows_text(board, n - 1), seq!['/']);
        assert(a[a.len() - 1] == '/');
        lemma_no_adjacent_concat(a, row_from(board, n - 1, 8, 0));
    }
}

/// The SFEN text of a board state is canonical: reading it onto a state with empty hands and
/// writing the state read gives the text back; it has four fields (board, side to move, hand,
/// ply); its board field is nine rows joined by '/', each read from the start of a row
/// covering exactly the nine squares of the row, with no two digits next to each other.
pub proof fn lemma_canonical_sfen(v: StateView, v0: StateView)
    requires
        v.board.len() == 81,
        v.hand.len() == 14,
        v0.board.len() == 81,
        v0.hand == Seq::new(14, |i: int| 0u8),
    ensures
        ({
            let s = state_text(v.board, v.hand, v.stm, v.ply);
            let w = state_of_text(s, v0);
            &&& w.1 is Ok
            &&& state_text(w.0.board, w.0.hand, w.0.stm, w.0.ply) == s
            &&& tokens(s) == seq![
                rows_text(v.board, 9),
                seq![if v.stm == Color::Black { 'b' } else { 'w' }],
                hand_text(v.hand),
                decimal(v.ply as nat),
            ]
            &&& no_adjacent_digits(rows_text(v.board, 9))
        }),
        forall|r: int, b: Seq<Option<Piece>>|
            0 <= r < 9 && b.len() == 81 ==> #[trigger] board_run(
                row_from(v.board, r, 8, 0),
                BoardScan { board: b, row: r, col: 0, promoted: false },
            ) == Ok::<BoardScan, SfenError>(
                BoardScan { board: with_row(b, v.board, r, 8), row: r, col: 9, promoted: false },
            ),
{
    lemma_sfen_roundtrip(v, v0);
    lemma_rows_no_adjacent(v.board, 9);
    assert forall|r: int, b: Seq<Option<Piece>>|
        0 <= r < 9 && b.len() == 81 implies #[trigger] board_run(
            row_from(v.board, r, 8, 0),
            BoardScan { board: b, row: r, col: 0, promoted: false },
        ) == Ok::<BoardScan, SfenError>(
            BoardScan { board: with_row(b, v.board, r, 8), row: r, col: 9, promoted: false },
        ) by {
        lemma_row_run(v.board, r, 8, 0, BoardScan { board: b, row: r, col: 0, promoted: false });
    }
}


/// The text of a drop is four characters: the piece letter in upper case (whichever side
/// drops), '*', and the square; and it reads back as the drop.
pub proof fn lemma_drop_text(to: Square, pt: PieceType)
    requires
        to.valid(),
        !pt.is_promoted_type(),
    ensures
        ({
            let t = move_text(Move::Drop { to, piece_type: pt });
            &&& t.len() == 4
            &&& t[0] == crate::piece::upper(pt.letter())
            &&& 'A' <= t[0] <= 'Z'
            &&& t[1] == '*'
            &&& t.subrange(2, 4) == square_text(to.idx())
            &&& move_of_text(t) == Some(Move::Drop { to, piece_type: pt })
        }),
{
    lemma_upper_letters();
    let t = move_text(Move::Drop { to, piece_type: pt });
    let pc = Piece { piece_type: pt, color: Color::Black };
    assert(pc.sfen_text().len() == 1);
    assert(t.subrange(2, 4) =~= square_text(to.idx()));
    lemma_move_text_roundtrip(Move::Drop { to, piece_type: pt });
}

} // verus!
