//! The SFEN text format: spec of the text of a board state, and the pieces used to read it.
use vstd::prelude::*;
use crate::color::Color;
use crate::error::SfenError;
use crate::hand::{hand_count, hand_set};
use crate::piece::Piece;
use crate::piece_type::{PieceType, pt_of_index};
use crate::square::{Square, index_at, spec_digit_char, digit_char};
use crate::state_info::StateInfo;
use crate::rules::StateView;
use crate::hand::Hand;

verus! {

/// Unicode white space, as `char::is_whitespace` defines it.
pub open spec fn is_ws(c: char) -> bool {
    ('\u{9}' <= c <= '\u{d}') || c == ' ' || c == '\u{85}' || c == '\u{a0}' || c == '\u{1680}'
        || ('\u{2000}' <= c <= '\u{200a}') || c == '\u{2028}' || c == '\u{2029}' || c == '\u{202f}'
        || c == '\u{205f}' || c == '\u{3000}'
}

/// Returns true if the character is Unicode white space.
pub fn is_whitespace(c: char) -> (r: bool)
    ensures
        r == is_ws(c),
{
    ('\u{9}' <= c && c <= '\u{d}') || c == ' ' || c == '\u{85}' || c == '\u{a0}' || c == '\u{1680}'
        || ('\u{2000}' <= c && c <= '\u{200a}') || c == '\u{2028}' || c == '\u{2029}' || c == '\u{202f}'
        || c == '\u{205f}' || c == '\u{3000}'
}

/// Whether the character is an ASCII decimal digit.
pub open spec fn is_digit(c: char) -> bool {
    '0' <= c <= '9'
}

/// The value of an ASCII decimal digit.
pub open spec fn digit_value(c: char) -> int {
    c as int - 48
}

/// Splitting text at white space, scanning from position `k` with the current token `cur`
/// and the finished tokens `acc`.
pub open spec fn split_from(s: Seq<char>, k: int, cur: Seq<char>, acc: Seq<Seq<char>>) -> Seq<Seq<char>>
    decreases s.len() - k,
{
    if k >= s.len() {
        if cur.len() > 0 {
            acc.push(cur)
        } else {
            acc
        }
    } else if is_ws(s[k]) {
        split_from(s, k + 1, seq![], if cur.len() > 0 { acc.push(cur) } else { acc })
    } else {
        split_from(s, k + 1, cur.push(s[k]), acc)
    }
}

/// The maximal runs of non-white-space characters of `s` (as `str::split_whitespace`).
pub open spec fn tokens(s: Seq<char>) -> Seq<Seq<char>> {
    split_from(s, 0, seq![], seq![])
}

/// Splits text at white space.
pub fn split_whitespace(s: &Vec<char>) -> (r: Vec<Vec<char>>)
    ensures
        r@.len() == tokens(s@).len(),
        forall|i: int| 0 <= i < r@.len() ==> #[trigger] r@[i]@ == tokens(s@)[i],
{
    let mut acc: Vec<Vec<char>> = Vec::new();
    let mut cur: Vec<char> = Vec::new();
    let mut k: usize = 0;
    let ghost views: Seq<Seq<char>> = seq![];
    while k < s.len()
        invariant
            k <= s.len(),
            views.len() == acc@.len(),
            forall|i: int| 0 <= i < acc@.len() ==> #[trigger] acc@[i]@ == views[i],
            tokens(s@) == split_from(s@, k as int, cur@, views),
        decreases s.len() - k,
    {
        let c = s[k];
        let ghost old_cur = cur@;
        let ghost old_views = views;
        if is_whitespace(c) {
            if cur.len() > 0 {
                proof {
                    views = views.push(cur@);
                }
                acc.push(cur);
                cur = Vec::new();
            }
        } else {
            cur.push(c);
        }
        k = k + 1;
        proof {
            if is_ws(c) {
                assert(cur@ =~= seq![]);
            }
            assert(split_from(s@, (k - 1) as int, old_cur, old_views) == split_from(s@, k as int, cur@, views));
        }
    }
    if cur.len() > 0 {
        proof {
            views = views.push(cur@);
        }
        acc.push(cur);
    }
    proof {
        assert forall|i: int| 0 <= i < acc@.len() implies #[trigger] acc@[i]@ == tokens(s@)[i] by {
        }
    }
    acc
}

/// Decimal text of a natural number, without leading zeros.
pub open spec fn decimal(n: nat) -> Seq<char>
    decreases n,
{
    if n < 10 {
        seq![spec_digit_char(n as int)]
    } else {
        decimal(n / 10) + seq![spec_digit_char((n % 10) as int)]
    }
}

/// Appends the decimal text of a number.
pub fn push_decimal(n: u32, out: &mut Vec<char>)
    ensures
        final(out)@ == old(out)@ + decimal(n as nat),
    decreases n,
{
    if n < 10 {
        out.push(digit_char(n));
    } else {
        push_decimal(n / 10, out);
        out.push(digit_char(n % 10));
    }
    proof {
        assert(out@ =~= old(out)@ + decimal(n as nat));
    }
}

/// Whether two character sequences are equal.
pub fn chars_eq(a: &[char], b: &[char]) -> (r: bool)
    ensures
        r == (a@ == b@),
{
    if a.len() != b.len() {
        return false;
    }
    let mut i: usize = 0;
    while i < a.len()
        invariant
            i <= a.len(),
            a.len() == b.len(),
            forall|j: int| 0 <= j < i ==> a@[j] == b@[j],
        decreases a.len() - i,
    {
        if a[i] != b[i] {
            return false;
        }
        i = i + 1;
    }
    proof {
        assert(a@ =~= b@);
    }
    true
}

/// The state of reading the board field: squares so far, row, column, and a pending '+'.
pub struct BoardScan {
    pub board: Seq<Option<Piece>>,
    pub row: int,
    pub col: int,
    pub promoted: bool,
}

/// Reads the board field of a SFEN text from position `k`. Rows are separated by '/', the
/// first row being rank a; within a row squares go from file 9 to file 1; a digit stands for
/// that many empty squares, a letter for a piece (upper case Black), '+' promotes the next piece.
pub open spec fn scan_board(s: Seq<char>, k: int, st: BoardScan) -> Result<Seq<Option<Piece>>, SfenError>
    decreases s.len() - k,
{
    if k >= s.len() || k < 0 {
        Ok(st.board)
    } else {
        let c = s[k];
        if c == '/' {
            if st.row + 1 >= 9 {
                Err(SfenError::IllegalBoardState)
            } else {
                scan_board(s, k + 1, BoardScan { board: st.board, row: st.row + 1, col: 0, promoted: false })
            }
        } else if c == '+' {
            scan_board(s, k + 1, BoardScan { promoted: true, ..st })
        } else if is_digit(c) {
            let n = digit_value(c);
            if st.col + n > 9 {
                Err(SfenError::IllegalBoardState)
            } else {
                scan_board(
                    s,
                    k + 1,
                    BoardScan {
                        board: Seq::new(
                            81,
                            |i: int|
                                if i % 9 == st.row && 8 - st.col - n < i / 9 <= 8 - st.col {
                                    None
                                } else {
                                    st.board[i]
                                },
                        ),
                        col: st.col + n,
                        ..st
                    },
                )
            }
        } else {
            match Piece::of_letter(c) {
                None => Err(SfenError::IllegalPieceType),
                Some(piece) => {
                    if st.col >= 9 {
                        Err(SfenError::IllegalBoardState)
                    } else if st.promoted && piece.piece_type.promoted() is None {
                        Err(SfenError::IllegalPieceType)
                    } else {
                        let p = if st.promoted {
                            Piece { piece_type: piece.piece_type.promoted()->0, color: piece.color }
                        } else {
                            piece
                        };
                        scan_board(
                            s,
                            k + 1,
                            BoardScan {
                                board: st.board.update(index_at(8 - st.col, st.row), Some(p)),
                                row: st.row,
                                col: st.col + 1,
                                promoted: false,
                            },
                        )
                    }
                },
            }
        }
    }
}

/// The start of reading the board field onto the board `b0`.
pub open spec fn board_scan_start(b0: Seq<Option<Piece>>) -> BoardScan {
    BoardScan { board: b0, row: 0, col: 0, promoted: false }
}

/// The board that the board field of a SFEN text sets up on the board `b0`: the squares it
/// covers are set, the others keep what `b0` has.
pub open spec fn board_of_text(s: Seq<char>, b0: Seq<Option<Piece>>) -> Result<Seq<Option<Piece>>, SfenError> {
    scan_board(s, 0, board_scan_start(b0))
}

/// The board when reading the board field from position `k` stops, at its end or at the first
/// error: squares are set as they are read, so those read before an error keep their new
/// contents (a run of empty squares that overflows the row is cleared up to the row's end).
pub open spec fn scan_board_partial(s: Seq<char>, k: int, st: BoardScan) -> Seq<Option<Piece>>
    decreases s.len() - k,
{
    if k >= s.len() || k < 0 {
        st.board
    } else {
        let c = s[k];
        if c == '/' {
            if st.row + 1 >= 9 {
                st.board
            } else {
                scan_board_partial(s, k + 1, BoardScan { board: st.board, row: st.row + 1, col: 0, promoted: false })
            }
        } else if c == '+' {
            scan_board_partial(s, k + 1, BoardScan { promoted: true, ..st })
        } else if is_digit(c) {
            let n = digit_value(c);
            let cleared = Seq::new(
                81,
                |i: int|
                    if i % 9 == st.row && 8 - st.col - n < i / 9 <= 8 - st.col {
                        None
                    } else {
                        st.board[i]
                    },
            );
            if st.col + n > 9 {
                cleared
            } else {
                scan_board_partial(s, k + 1, BoardScan { board: cleared, col: st.col + n, ..st })
            }
        } else {
            match Piece::of_letter(c) {
                None => st.board,
                Some(piece) => {
                    if st.col >= 9 {
                        st.board
                    } else if st.promoted && piece.piece_type.promoted() is None {
                        st.board
                    } else {
                        let p = if st.promoted {
                            Piece { piece_type: piece.piece_type.promoted()->0, color: piece.color }
                        } else {
                            piece
                        };
                        scan_board_partial(
                            s,
                            k + 1,
                            BoardScan {
                                board: st.board.update(index_at(8 - st.col, st.row), Some(p)),
                                row: st.row,
                                col: st.col + 1,
                                promoted: false,
                            },
                        )
                    }
                },
            }
        }
    }
}

/// The board after reading the board field onto `b0`, whether or not the field is accepted.
pub open spec fn board_after(s: Seq<char>, b0: Seq<Option<Piece>>) -> Seq<Option<Piece>> {
    match board_of_text(s, b0) {
        Ok(b) => b,
        Err(_) => scan_board_partial(s, 0, board_scan_start(b0)),
    }
}

/// The side to move that the second SFEN field names.
pub open spec fn stm_of_text(s: Seq<char>) -> Result<Color, SfenError> {
    if s == seq!['b'] {
        Ok(Color::Black)
    } else if s == seq!['w'] {
        Ok(Color::White)
    } else {
        Err(SfenError::IllegalSideToMove)
    }
}

/// Reads the hand field from position `k`, with the pending count `num` (kept modulo 256).
pub open spec fn scan_hand(s: Seq<char>, k: int, hand: Seq<u8>, num: u8) -> Result<Seq<u8>, SfenError>
    decreases s.len() - k,
{
    if k >= s.len() || k < 0 {
        Ok(hand)
    } else if is_digit(s[k]) {
        scan_hand(s, k + 1, hand, ((num * 10 + digit_value(s[k])) % 256) as u8)
    } else {
        match Piece::of_letter(s[k]) {
            None => Err(SfenError::IllegalPieceType),
            Some(p) => scan_hand(s, k + 1, hand_set(hand, p, if num == 0 { 1 } else { num }), 0),
        }
    }
}

/// The hand after reading the hand field: "-" empties it; otherwise each counted letter sets
/// that piece's count (a missing count meaning one) and other counts are kept.
pub open spec fn hand_of_text(s: Seq<char>, hand: Seq<u8>) -> Result<Seq<u8>, SfenError> {
    if s == seq!['-'] {
        Ok(Seq::new(14, |i: int| 0u8))
    } else {
        scan_hand(s, 0, hand, 0)
    }
}

/// The hand when reading the hand field from position `k` stops, at its end or at the first
/// letter that names no piece; counts set before that are kept.
pub open spec fn scan_hand_partial(s: Seq<char>, k: int, hand: Seq<u8>, num: u8) -> Seq<u8>
    decreases s.len() - k,
{
    if k >= s.len() || k < 0 {
        hand
    } else if is_digit(s[k]) {
        scan_hand_partial(s, k + 1, hand, ((num * 10 + digit_value(s[k])) % 256) as u8)
    } else {
        match Piece::of_letter(s[k]) {
            None => hand,
            Some(p) => scan_hand_partial(s, k + 1, hand_set(hand, p, if num == 0 { 1 } else { num }), 0),
        }
    }
}

/// The hand after reading the hand field onto `hand`, whether or not the field is accepted.
pub open spec fn hand_after(s: Seq<char>, hand: Seq<u8>) -> Seq<u8> {
    match hand_of_text(s, hand) {
        Ok(h) => h,
        Err(_) => scan_hand_partial(s, 0, hand, 0),
    }
}

/// The value of the decimal digits `s[k..]` appended to `acc`, if it stays within `u16`.
pub open spec fn scan_u16(s: Seq<char>, k: int, acc: int) -> Option<u16>
    decreases s.len() - k,
{
    if k >= s.len() || k < 0 {
        Some(acc as u16)
    } else if !is_digit(s[k]) {
        None
    } else if acc * 10 + digit_value(s[k]) > 65535 {
        None
    } else {
        scan_u16(s, k + 1, acc * 10 + digit_value(s[k]))
    }
}

/// The ply that the fourth SFEN field gives, read as `u16` is by `str::parse`
/// (an optional '+' and at least one digit, at most 65535).
pub open spec fn ply_of_text(s: Seq<char>) -> Result<u16, SfenError> {
    let start: int = if s.len() > 0 && s[0] == '+' { 1 } else { 0 };
    if s.len() <= start {
        Err(SfenError::IllegalPlyNumber)
    } else {
        match scan_u16(s, start, 0) {
            Some(v) => Ok(v),
            None => Err(SfenError::IllegalPlyNumber),
        }
    }
}

/// Text of one board row from file index `f` down to 0, with `empties` empty squares pending.
pub open spec fn row_from(board: Seq<Option<Piece>>, r: int, f: int, empties: int) -> Seq<char>
    decreases f + 1,
{
    if f < 0 {
        if empties > 0 {
            decimal(empties as nat)
        } else {
            seq![]
        }
    } else {
        match board[index_at(f, r)] {
            Some(pc) => (if empties > 0 {
                decimal(empties as nat)
            } else {
                seq![]
            }) + pc.sfen_text() + row_from(board, r, f - 1, 0),
            None => row_from(board, r, f - 1, empties + 1),
        }
    }
}

/// Text of the first `n` rows of the board, joined by '/'.
pub open spec fn rows_text(board: Seq<Option<Piece>>, n: int) -> Seq<char>
    decreases n,
{
    if n <= 0 {
        seq![]
    } else if n == 1 {
        row_from(board, 0, 8, 0)
    } else {
        rows_text(board, n - 1) + seq!['/'] + row_from(board, n - 1, 8, 0)
    }
}

/// Text of the count and piece of one hand slot: nothing, the piece, or count then piece.
pub open spec fn hand_piece_text(hand: Seq<u8>, pc: Piece) -> Seq<char> {
    let n = hand_count(hand, pc);
    if n == 0 {
        seq![]
    } else if n == 1 {
        pc.sfen_text()
    } else {
        decimal(n as nat) + pc.sfen_text()
    }
}

/// Text of the hand of color `c` over piece types `1..t` (Rook, Bishop, Gold, Silver,
/// Knight, Lance, Pawn).
pub open spec fn hand_color_text(hand: Seq<u8>, c: Color, t: int) -> Seq<char>
    decreases t,
{
    if t <= 1 {
        seq![]
    } else {
        hand_color_text(hand, c, t - 1) + hand_piece_text(hand, Piece { piece_type: pt_of_index(t - 1), color: c })
    }
}

/// Text of the hand field: Black's pieces then White's, or "-" for an empty hand.
pub open spec fn hand_text(hand: Seq<u8>) -> Seq<char> {
    let t = hand_color_text(hand, Color::Black, 8) + hand_color_text(hand, Color::White, 8);
    if t.len() == 0 {
        seq!['-']
    } else {
        t
    }
}

/// The SFEN text of a board state: board, side to move, hand and ply, separated by spaces.
pub open spec fn state_text(board: Seq<Option<Piece>>, hand: Seq<u8>, stm: Color, ply: u16) -> Seq<char> {
    rows_text(board, 9) + seq![' '] + seq![if stm == Color::Black { 'b' } else { 'w' }] + seq![' ']
        + hand_text(hand) + seq![' '] + decimal(ply as nat)
}

/// Reads the board field of a SFEN text onto the board of `st`, setting squares as they are
/// read: on an error the squares read before it keep their new contents.
pub fn parse_board(s: &[char], st: &mut StateInfo) -> (r: Result<(), SfenError>)
    requires
        old(st).wf(),
    ensures
        final(st).wf(),
        final(st)@ == (StateView { board: board_after(s@, old(st)@.board), ..old(st)@ }),
        r == match board_of_text(s@, old(st)@.board) {
            Ok(_) => Ok::<(), SfenError>(()),
            Err(e) => Err(e),
        },
{
    let ghost v0 = st@;
    proof {
        st.lemma_view_len();
    }
    let mut row: usize = 0;
    let mut col: usize = 0;
    let mut promoted = false;
    let mut k: usize = 0;
    while k < s.len()
        invariant
            k <= s.len(),
            st.wf(),
            row < 9,
            col <= 9,
            st@ == (StateView { board: st@.board, ..v0 }),
            old(st)@ == v0,
            st@.board.len() == 81,
            board_of_text(s@, v0.board) == scan_board(
                s@,
                k as int,
                BoardScan { board: st@.board, row: row as int, col: col as int, promoted },
            ),
            scan_board_partial(s@, 0, board_scan_start(v0.board)) == scan_board_partial(
                s@,
                k as int,
                BoardScan { board: st@.board, row: row as int, col: col as int, promoted },
            ),
        decreases s.len() - k,
    {
        let c = s[k];
        let ghost st0 = BoardScan { board: st@.board, row: row as int, col: col as int, promoted };
        if c == '/' {
            if row + 1 >= 9 {
                return Err(SfenError::IllegalBoardState);
            }
            row = row + 1;
            col = 0;
            promoted = false;
        } else if c == '+' {
            promoted = true;
        } else if '0' <= c && c <= '9' {
            let n = (c as u32 - '0' as u32) as usize;
            let lim: usize = if col + n > 9 { 9 - col } else { n };
            let ghost b0 = st@.board;
            let mut m: usize = 0;
            while m < lim
                invariant
                    m <= lim,
                    lim <= n,
                    col + lim <= 9,
                    lim == n || col + lim == 9,
                    row < 9,
                    st.wf(),
                    st@ == (StateView { board: st@.board, ..v0 }),
                    st@.board == Seq::new(
                        81,
                        |i: int|
                            if i % 9 == row && 8 - col - m < i / 9 <= 8 - col {
                                None
                            } else {
                                b0[i]
                            },
                    ),
                decreases lim - m,
            {
                let sq = Square::new((8 - col - m) as u8, row as u8).unwrap();
                st.replace(sq, None);
                m = m + 1;
                proof {
                    assert(st@.board =~= Seq::new(
                        81,
                        |i: int|
                            if i % 9 == row && 8 - col - m < i / 9 <= 8 - col {
                                None
                            } else {
                                b0[i]
                            },
                    ));
                }
            }
            proof {
                assert(st@.board =~= Seq::new(
                    81,
                    |i: int|
                        if i % 9 == row && 8 - col - n < i / 9 <= 8 - col {
                            None
                        } else {
                            b0[i]
                        },
                ));
            }
            if col + n > 9 {
                return Err(SfenError::IllegalBoardState);
            }
            col = col + n;
        } else {
            match Piece::from_sfen(c) {
                None => {
                    return Err(SfenError::IllegalPieceType);
                },
                Some(piece) => {
                    if col >= 9 {
                        return Err(SfenError::IllegalBoardState);
                    }
                    let p = if promoted {
                        match piece.piece_type.promote() {
                            Some(pt) => Piece { piece_type: pt, color: piece.color },
                            None => {
                                return Err(SfenError::IllegalPieceType);
                            },
                        }
                    } else {
                        piece
                    };
                    let sq = Square::new((8 - col) as u8, row as u8).unwrap();
                    st.replace(sq, Some(p));
                    col = col + 1;
                    promoted = false;
                },
            }
        }
        k = k + 1;
        proof {
            assert(scan_board(s@, (k - 1) as int, st0) == scan_board(
                s@,
                k as int,
                BoardScan { board: st@.board, row: row as int, col: col as int, promoted },
            ));
            assert(scan_board_partial(s@, (k - 1) as int, st0) == scan_board_partial(
                s@,
                k as int,
                BoardScan { board: st@.board, row: row as int, col: col as int, promoted },
            ));
        }
    }
    Ok(())
}

/// Reads the side-to-move field.
pub fn parse_stm(s: &[char]) -> (r: Result<Color, SfenError>)
    ensures
        r == stm_of_text(s@),
{
    if s.len() == 1 && s[0] == 'b' {
        proof {
            assert(s@ =~= seq!['b']);
        }
        Ok(Color::Black)
    } else if s.len() == 1 && s[0] == 'w' {
        proof {
            assert(s@ =~= seq!['w']);
        }
        Ok(Color::White)
    } else {
        proof {
            if s@ == seq!['b'] || s@ == seq!['w'] {
                assert(s@.len() == 1);
            }
        }
        Err(SfenError::IllegalSideToMove)
    }
}

/// Reads the hand field into `hand`.
pub fn parse_hand(s: &[char], hand: &mut Hand) -> (r: Result<(), SfenError>)
    ensures
        final(hand).counts() == hand_after(s@, old(hand).counts()),
        r == match hand_of_text(s@, old(hand).counts()) {
            Ok(_) => Ok::<(), SfenError>(()),
            Err(e) => Err(e),
        },
{
    if s.len() == 1 && s[0] == '-' {
        proof {
            assert(s@ =~= seq!['-']);
        }
        hand.clear();
        return Ok(());
    }
    proof {
        if s@ == seq!['-'] {
            assert(s@.len() == 1);
        }
    }
    let mut num: u8 = 0;
    let mut k: usize = 0;
    while k < s.len()
        invariant
            k <= s.len(),
            s@ != seq!['-'],
            hand_of_text(s@, old(hand).counts()) == scan_hand(s@, k as int, hand.counts(), num),
            scan_hand_partial(s@, 0, old(hand).counts(), 0) == scan_hand_partial(s@, k as int, hand.counts(), num),
        decreases s.len() - k,
    {
        let c = s[k];
        if '0' <= c && c <= '9' {
            let d = (c as u32 - '0' as u32) as u8;
            num = ((num as u32 * 10 + d as u32) % 256) as u8;
        } else {
            match Piece::from_sfen(c) {
                Some(p) => {
                    hand.set(p, if num == 0 { 1 } else { num });
                },
                None => {
                    return Err(SfenError::IllegalPieceType);
                },
            }
            num = 0;
        }
        k = k + 1;
    }
    Ok(())
}

/// Reads the ply field as `str::parse::<u16>` does.
pub fn parse_ply(s: &[char]) -> (r: Result<u16, SfenError>)
    ensures
        r == ply_of_text(s@),
{
    let start: usize = if s.len() > 0 && s[0] == '+' {
        1
    } else {
        0
    };
    if s.len() <= start {
        return Err(SfenError::IllegalPlyNumber);
    }
    let mut acc: u32 = 0;
    let mut k: usize = start;
    while k < s.len()
        invariant
            start <= k <= s.len(),
            acc <= 65535,
            start as int == (if s@.len() > 0 && s@[0] == '+' { 1int } else { 0int }),
            s@.len() > start,
            ply_of_text(s@) == (match scan_u16(s@, k as int, acc as int) {
                Some(v) => Ok(v),
                None => Err(SfenError::IllegalPlyNumber),
            }),
        decreases s.len() - k,
    {
        let c = s[k];
        if !('0' <= c && c <= '9') {
            return Err(SfenError::IllegalPlyNumber);
        }
        let d = c as u32 - '0' as u32;
        if acc * 10 + d > 65535 {
            return Err(SfenError::IllegalPlyNumber);
        }
        acc = acc * 10 + d;
        k = k + 1;
    }
    Ok(acc as u16)
}

/// The outcome of reading the first four fields of split SFEN tokens (board, side to move,
/// hand, ply) onto the state `v`: the fields are read in order and each one that is read sets
/// its part of the state, so on an error the parts read before it keep their new values (and
/// a malformed board or hand field keeps what was read of it).
pub open spec fn read_state(t: Seq<Seq<char>>, v: StateView) -> (StateView, Result<(), SfenError>) {
    if t.len() < 1 {
        (v, Err(SfenError::MissingDataFields))
    } else {
        let v1 = StateView { board: board_after(t[0], v.board), ..v };
        match board_of_text(t[0], v.board) {
            Err(e) => (v1, Err(e)),
            Ok(_) => if t.len() < 2 {
                (v1, Err(SfenError::MissingDataFields))
            } else {
                match stm_of_text(t[1]) {
                    Err(e) => (v1, Err(e)),
                    Ok(stm) => {
                        let v2 = StateView { stm, ..v1 };
                        if t.len() < 3 {
                            (v2, Err(SfenError::MissingDataFields))
                        } else {
                            let v3 = StateView { hand: hand_after(t[2], v.hand), ..v2 };
                            match hand_of_text(t[2], v.hand) {
                                Err(e) => (v3, Err(e)),
                                Ok(_) => if t.len() < 4 {
                                    (v3, Err(SfenError::MissingDataFields))
                                } else {
                                    match ply_of_text(t[3]) {
                                        Err(e) => (v3, Err(e)),
                                        Ok(ply) => (StateView { ply, ..v3 }, Ok(())),
                                    }
                                },
                            }
                        }
                    },
                }
            },
        }
    }
}

/// The outcome of reading the first four fields of a SFEN text onto the state `v`
/// (see `read_state`).
pub open spec fn state_of_text(s: Seq<char>, v: StateView) -> (StateView, Result<(), SfenError>) {
    read_state(tokens(s), v)
}

/// Reads the first four fields of split SFEN tokens into `st` (see `read_state`).
pub fn state_from_tokens(t: &Vec<Vec<char>>, st: &mut StateInfo) -> (r: Result<(), SfenError>)
    requires
        old(st).wf(),
    ensures
        final(st).wf(),
        final(st)@ == read_state(tokens_view(t), old(st)@).0,
        r == read_state(tokens_view(t), old(st)@).1,
{
    let ghost tv = tokens_view(t);
    proof {
        if t.len() >= 1 {
            assert(tv[0] == t@[0]@);
        }
        if t.len() >= 2 {
            assert(tv[1] == t@[1]@);
        }
        if t.len() >= 3 {
            assert(tv[2] == t@[2]@);
        }
        if t.len() >= 4 {
            assert(tv[3] == t@[3]@);
        }
    }
    if t.len() < 1 {
        return Err(SfenError::MissingDataFields);
    }
    match parse_board(t[0].as_slice(), st) {
        Ok(()) => {},
        Err(e) => {
            return Err(e);
        },
    }
    if t.len() < 2 {
        return Err(SfenError::MissingDataFields);
    }
    let stm = match parse_stm(t[1].as_slice()) {
        Ok(c) => c,
        Err(e) => {
            return Err(e);
        },
    };
    st.set_side_to_move(stm);
    if t.len() < 3 {
        return Err(SfenError::MissingDataFields);
    }
    let mut h = st.hand_copy();
    let res = parse_hand(t[2].as_slice(), &mut h);
    st.set_hand(h);
    match res {
        Ok(()) => {},
        Err(e) => {
            return Err(e);
        },
    }
    if t.len() < 4 {
        return Err(SfenError::MissingDataFields);
    }
    let ply = match parse_ply(t[3].as_slice()) {
        Ok(p) => p,
        Err(e) => {
            return Err(e);
        },
    };
    st.set_ply(ply);
    Ok(())
}

/// The views of split tokens.
pub open spec fn tokens_view(t: &Vec<Vec<char>>) -> Seq<Seq<char>> {
    t@.map_values(|v: Vec<char>| v@)
}

impl StateInfo {
    /// Sets the state from the first four fields of a SFEN text (board, side to move, hand,
    /// ply), read in order; on a failure the fields read before it stay set (see `read_state`).
    pub fn set_sfen(&mut self, sfen_str: &str) -> (r: Result<(), SfenError>)
        requires
            old(self).wf(),
        ensures
            final(self).wf(),
            final(self)@ == state_of_text(sfen_str@, old(self)@).0,
            r == state_of_text(sfen_str@, old(self)@).1,
    {
        let chars = crate::text::chars_of(sfen_str);
        let t = split_whitespace(&chars);
        proof {
            assert(tokens_view(&t) =~= tokens(sfen_str@));
        }
        state_from_tokens(&t, self)
    }
}

impl StateInfo {
    /// Appends the text of one board row.
    fn push_row(&self, row: u8, out: &mut Vec<char>)
        requires
            row < 9,
        ensures
            final(out)@ == old(out)@ + row_from(self@.board, row as int, 8, 0),
    {
        let ghost b = self@.board;
        let ghost base = old(out)@;
        let mut num_spaces: u32 = 0;
        let mut fi: u8 = 9;
        while fi > 0
            invariant
                fi <= 9,
                row < 9,
                num_spaces <= 9 - fi,
                b == self@.board,
                out@ + row_from(b, row as int, fi - 1, num_spaces as int) == base + row_from(b, row as int, 8, 0),
            decreases fi,
        {
            let file = fi - 1;
            let ghost before = out@;
            let ghost ns = num_spaces;
            match *self.piece_at(Square::new(file, row).unwrap()) {
                Some(pc) => {
                    if num_spaces > 0 {
                        push_decimal(num_spaces, out);
                    }
                    pc.push_sfen(out);
                    num_spaces = 0;
                    proof {
                        let pre = if ns > 0 { decimal(ns as nat) } else { seq![] };
                        assert(out@ == before + pre + pc.sfen_text());
                        assert(row_from(b, row as int, file as int, ns as int) == pre + pc.sfen_text()
                            + row_from(b, row as int, file - 1, 0));
                        assert(out@ + row_from(b, row as int, file - 1, 0) =~= before + row_from(
                            b,
                            row as int,
                            file as int,
                            ns as int,
                        ));
                    }
                },
                None => {
                    num_spaces = num_spaces + 1;
                },
            }
            fi = fi - 1;
        }
        if num_spaces > 0 {
            push_decimal(num_spaces, out);
        }
        proof {
            assert(out@ =~= base + row_from(b, row as int, 8, 0));
        }
    }

    /// Appends the hand text of one color.
    fn push_hand_color(&self, c: Color, out: &mut Vec<char>)
        ensures
            final(out)@ == old(out)@ + hand_color_text(self@.hand, c, 8),
    {
        let ghost base = old(out)@;
        let mut t: usize = 1;
        while t < 8
            invariant
                1 <= t <= 8,
                out@ == base + hand_color_text(self@.hand, c, t as int),
            decreases 8 - t,
        {
            let pc = Piece { piece_type: PieceType::from_index(t), color: c };
            let n = self.hand(pc);
            let ghost before = out@;
            if n == 0 {
            } else if n == 1 {
                pc.push_sfen(out);
            } else {
                push_decimal(n as u32, out);
                pc.push_sfen(out);
            }
            t = t + 1;
            proof {
                assert(out@ =~= base + hand_color_text(self@.hand, c, t as int));
            }
        }
    }

    /// Returns the SFEN text of the state (board, side to move, hand, ply).
    pub fn generate_sfen_chars(&self) -> (r: Vec<char>)
        ensures
            r@ == state_text(self@.board, self@.hand, self@.stm, self@.ply),
    {
        let mut out: Vec<char> = Vec::new();
        let mut row: u8 = 0;
        while row < 9
            invariant
                row <= 9,
                out@ == rows_text(self@.board, row as int),
            decreases 9 - row,
        {
            if row > 0 {
                out.push('/');
            }
            self.push_row(row, &mut out);
            row = row + 1;
            proof {
                assert(out@ =~= rows_text(self@.board, row as int));
            }
        }
        out.push(' ');
        out.push(
            if self.side_to_move() == Color::Black {
                'b'
            } else {
                'w'
            },
        );
        out.push(' ');
        let mut hand: Vec<char> = Vec::new();
        self.push_hand_color(Color::Black, &mut hand);
        self.push_hand_color(Color::White, &mut hand);
        if hand.len() == 0 {
            hand.push('-');
        }
        proof {
            assert(hand@ =~= hand_text(self@.hand));
        }
        out.append(&mut hand);
        out.push(' ');
        push_decimal(self.ply() as u32, &mut out);
        proof {
            assert(out@ =~= state_text(self@.board, self@.hand, self@.stm, self@.ply));
        }
        out
    }

    /// Returns the SFEN text of the state (board, side to move, hand, ply).
    pub fn generate_sfen(&self) -> (r: String)
        ensures
            r@ == state_text(self@.board, self@.hand, self@.stm, self@.ply),
    {
        let v = self.generate_sfen_chars();
        crate::text::string_of(&v)
    }
}

} // verus!
