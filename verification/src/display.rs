//! The human-readable text of a position: a board diagram, side to move, hands and ply.
use vstd::prelude::*;
use crate::color::Color;
use crate::hand::hand_count;
use crate::piece::Piece;
use crate::piece_type::{PieceType, pt_of_index};
use crate::position::{Position, PositionView};
use crate::sfen::{decimal, push_decimal};
use crate::square::{Square, index_at, spec_rank_char, letter_char};

verus! {

/// Appends the characters of a string slice.
pub fn push_str(out: &mut Vec<char>, s: &str)
    ensures
        final(out)@ == old(out)@ + s@,
{
    let mut v = crate::text::chars_of(s);
    out.append(&mut v);
}

/// A text padded on the left with spaces to three characters.
pub open spec fn pad3(t: Seq<char>) -> Seq<char> {
    Seq::new((3 - t.len()) as nat, |i: int| ' ') + t
}

/// The diagram text of one square.
pub open spec fn cell_text(cell: Option<Piece>) -> Seq<char> {
    match cell {
        Some(pc) => pad3(pc.sfen_text()) + seq!['|'],
        None => seq![' ', ' ', ' ', '|'],
    }
}

/// The diagram text of the squares of row `r` from file index `f` down to 0.
pub open spec fn cells_text(board: Seq<Option<Piece>>, r: int, f: int) -> Seq<char>
    decreases f + 1,
{
    if f < 0 {
        seq![]
    } else {
        cell_text(board[index_at(f, r)]) + cells_text(board, r, f - 1)
    }
}

/// The separator line of the diagram.
pub open spec fn border_text() -> Seq<char> {
    "+---+---+---+---+---+---+---+---+---+\n"@
}

/// The diagram text of the first `n` rows.
pub open spec fn rows_display(board: Seq<Option<Piece>>, n: int) -> Seq<char>
    decreases n,
{
    if n <= 0 {
        seq![]
    } else {
        rows_display(board, n - 1) + seq!['|'] + cells_text(board, n - 1, 8) + seq![' ', spec_rank_char(n - 1), '\n']
            + border_text()
    }
}

/// The text of the hand of color `c` over piece types `1..t`: each held piece and its count.
pub open spec fn hand_display(hand: Seq<u8>, c: Color, t: int) -> Seq<char>
    decreases t,
{
    if t <= 1 {
        seq![]
    } else {
        let pc = Piece { piece_type: pt_of_index(t - 1), color: c };
        let n = hand_count(hand, pc);
        hand_display(hand, c, t - 1) + if n > 0 {
            pc.sfen_text() + decimal(n as nat) + seq![' ']
        } else {
            seq![]
        }
    }
}

/// The text of a position: file numbers, the board diagram with rank letters, side to move,
/// both hands and the ply.
pub open spec fn display_text(pv: PositionView) -> Seq<char> {
    let v = pv.state;
    "   9   8   7   6   5   4   3   2   1\n"@ + border_text() + rows_display(v.board, 9) + "Side to move: "@
        + (if v.stm == Color::Black {
        "Black"@
    } else {
        "White"@
    }) + seq!['\n'] + "Hand (Black): "@ + hand_display(v.hand, Color::Black, 8) + seq!['\n']
        + "Hand (White): "@ + hand_display(v.hand, Color::White, 8) + seq!['\n'] + "Ply: "@ + decimal(
        v.ply as nat,
    )
}

impl Position {
    /// Appends the diagram text of one row.
    fn push_display_row(&self, row: u8, out: &mut Vec<char>)
        requires
            row < 9,
        ensures
            final(out)@ == old(out)@ + seq!['|'] + cells_text(self@.state.board, row as int, 8) + seq![
                ' ',
                spec_rank_char(row as int),
                '\n',
            ] + border_text(),
    {
        let ghost b = self@.state.board;
        out.push('|');
        let ghost base = out@;
        let mut fi: u8 = 9;
        while fi > 0
            invariant
                fi <= 9,
                row < 9,
                b == self@.state.board,
                out@ + cells_text(b, row as int, fi - 1) == base + cells_text(b, row as int, 8),
            decreases fi,
        {
            let file = fi - 1;
            let ghost before = out@;
            match *self.piece_at(Square::new(file, row).unwrap()) {
                Some(pc) => {
                    let mut t: Vec<char> = Vec::new();
                    pc.push_sfen(&mut t);
                    let ghost tv = t@;
                    let mut pad: usize = t.len();
                    proof {
                        assert(t@ =~= pc.sfen_text());
                    }
                    while pad < 3
                        invariant
                            pad <= 3,
                            out@ == before + Seq::new((pad - tv.len()) as nat, |i: int| ' '),
                            tv.len() <= pad,
                        decreases 3 - pad,
                    {
                        out.push(' ');
                        pad = pad + 1;
                        proof {
                            assert(out@ =~= before + Seq::new((pad - tv.len()) as nat, |i: int| ' '));
                        }
                    }
                    out.append(&mut t);
                    out.push('|');
                },
                None => {
                    out.push(' ');
                    out.push(' ');
                    out.push(' ');
                    out.push('|');
                },
            }
            fi = fi - 1;
            proof {
                assert(out@ =~= before + cell_text(b[index_at(file as int, row as int)]));
                assert(out@ + cells_text(b, row as int, fi - 1) =~= before + cells_text(b, row as int, file as int));
            }
        }
        out.push(' ');
        out.push(letter_char(row as u32));
        out.push('\n');
        push_str(out, "+---+---+---+---+---+---+---+---+---+\n");
        proof {
            assert(out@ =~= old(out)@ + seq!['|'] + cells_text(b, row as int, 8) + seq![
                ' ',
                spec_rank_char(row as int),
                '\n',
            ] + border_text());
        }
    }

    /// Appends the hand text of one color.
    fn push_display_hand(&self, c: Color, out: &mut Vec<char>)
        ensures
            final(out)@ == old(out)@ + hand_display(self@.state.hand, c, 8),
    {
        let ghost base = old(out)@;
        let mut t: usize = 1;
        while t < 8
            invariant
                1 <= t <= 8,
                out@ == base + hand_display(self@.state.hand, c, t as int),
            decreases 8 - t,
        {
            let pc = Piece { piece_type: PieceType::from_index(t), color: c };
            let n = self.hand(pc);
            if n > 0 {
                pc.push_sfen(out);
                push_decimal(n as u32, out);
                out.push(' ');
            }
            t = t + 1;
            proof {
                assert(out@ =~= base + hand_display(self@.state.hand, c, t as int));
            }
        }
    }

    /// Returns the text of the position: a board diagram, side to move, hands and ply.
    pub fn display(&self) -> (r: String)
        ensures
            r@ == display_text(self@),
    {
        let mut out: Vec<char> = Vec::new();
        push_str(&mut out, "   9   8   7   6   5   4   3   2   1\n");
        push_str(&mut out, "+---+---+---+---+---+---+---+---+---+\n");
        let mut row: u8 = 0;
        let ghost head = out@;
        while row < 9
            invariant
                row <= 9,
                out@ == head + rows_display(self@.state.board, row as int),
            decreases 9 - row,
        {
            self.push_display_row(row, &mut out);
            row = row + 1;
            proof {
                assert(out@ =~= head + rows_display(self@.state.board, row as int));
            }
        }
        push_str(&mut out, "Side to move: ");
        if self.side_to_move() == Color::Black {
            push_str(&mut out, "Black");
        } else {
            push_str(&mut out, "White");
        }
        out.push('\n');
        push_str(&mut out, "Hand (Black): ");
        self.push_display_hand(Color::Black, &mut out);
        out.push('\n');
        push_str(&mut out, "Hand (White): ");
        self.push_display_hand(Color::White, &mut out);
        out.push('\n');
        push_str(&mut out, "Ply: ");
        push_decimal(self.ply() as u32, &mut out);
        proof {
            assert(out@ =~= display_text(self@));
        }
        crate::text::string_of(&out)
    }
}

} // verus!
