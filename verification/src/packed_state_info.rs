use vstd::prelude::*;
use crate::bitboard::{Bitboard, bit, set_rank, lo_word, hi_word, pext81, lemma_bit_and, lemma_bit_bound, lemma_bit_xor, lemma_bit_single, lemma_subset_bound, lemma_bound_ops, lemma_lowest_bit, lemma_pow_consts};
use crate::bits::{rank, popcount, pdep_spec, pext_spec, deposit, extract, count_ones, lemma_pdep_bit, lemma_rank_bound, lemma_rank_top};
use crate::color::Color;
use crate::hand::{Hand, hand_set, hand_count};
use crate::piece::Piece;
use crate::piece_type::{PieceType, pt_of_index};
use crate::rules::{StateView, occupied, type_set, color_set, king_square};
use crate::square::Square;
use crate::state_info::{PieceGrid, StateInfo};
use crate::sfen::state_text;

verus! {

broadcast use vstd::std_specs::bits::axiom_u64_trailing_zeros;

/// A board state packed into 256 bits (four words).
///
/// Bits by offset:
///
/// | bits     | field                                                              |
/// |----------|--------------------------------------------------------------------|
/// | 0..63    | occupied squares 0..63 (inverted when White is to move)            |
/// | 63       | 1 when the Black king stands on the lower square                   |
/// | 64..82   | occupied squares 63..81 (inverted when White is to move)           |
/// | 82..90   | among silvers and golds on the board: is it a silver               |
/// | 90..128  | colors: pieces on the board but kings, then pieces in hand         |
/// | 128..168 | for each piece on the board: is it a pawn                          |
/// | 168..182 | among kings, bishops, rooks, silvers, golds: is it a silver or gold |
/// | 182..188 | among kings, bishops and rooks: is it a bishop or rook             |
/// | 188..192 | among bishops and rooks: is it a bishop                            |
/// | 192..226 | among pieces on the board but kings and golds: is it promoted      |
/// | 226..248 | among pieces on the board but pawns: is it a lance or knight        |
/// | 248..256 | among lances and knights: is it a lance                            |
///
/// A piece of the board is placed by the order of its square among the occupied squares;
/// promoted pieces count as their unpromoted kind. With White to move more than 40 bits of
/// the occupied field are set, with Black to move at most 40. The colors of the pieces in
/// hand come per kind, pawn first and rook last: one set bit for each Black piece, then a
/// clear bit for each White piece.
#[derive(Clone, Copy, Debug, PartialEq, Eq)]
pub struct PackedStateInfo(pub(crate) [u64; 4]);

/// The squares held by a low word (squares 0..63) and a high word (squares 63..81).
pub open spec fn squares_of_words(lo: u64, hi: u64) -> Set<int> {
    Set::new(|sq: int| (0 <= sq < 63 && bit(lo, sq as u64)) || (63 <= sq < 81 && bit(hi, (sq - 63) as u64)))
}

/// The squares of `occ` whose rank among the squares of `occ` is a set bit of `x` (below 63).
pub open spec fn spread(x: u64, occ: Set<int>) -> Set<int> {
    Set::new(|sq: int| occ.contains(sq) && set_rank(occ, sq) < 63 && bit(x, set_rank(occ, sq) as u64))
}

/// The lowest set bit of `x` alone (zero for zero).
pub open spec fn lowest_bit(x: u64) -> u64 {
    if x == 0 {
        0
    } else {
        1u64 << (x.trailing_zeros() as u64)
    }
}

/// The occupied words (low, high) and side to move of packed words.
pub open spec fn unpacked_occupied(w: Seq<u64>) -> (u64, u64, Color) {
    let lo = w[0] & 0x7fff_ffff_ffff_ffffu64;
    let hi = w[1] & 0x3_ffffu64;
    if popcount(lo) + popcount(hi) > 40 {
        (!lo & 0x7fff_ffff_ffff_ffffu64, !hi & 0x3_ffffu64, Color::White)
    } else {
        (lo, hi, Color::Black)
    }
}

/// Bishops and rooks, among kings, bishops and rooks.
pub open spec fn unpacked_bishop_rook(w: Seq<u64>) -> (u64, u64) {
    let bor = (w[2] >> 54u64) & 0x3fu64;
    let b = (w[2] >> 60u64) & 0x0fu64;
    (pdep_spec(b, bor), pdep_spec(!b, bor))
}

/// Lances and knights, among pieces other than pawns.
pub open spec fn unpacked_lance_knight(w: Seq<u64>) -> (u64, u64) {
    let l = (w[3] >> 56u64) & 0xffu64;
    let lon = (w[3] >> 34u64) & 0x3f_ffffu64;
    (pdep_spec(l, lon), pdep_spec(!l, lon))
}

/// Silvers and golds, among kings, bishops, rooks, silvers and golds.
pub open spec fn unpacked_silver_gold(w: Seq<u64>) -> (u64, u64) {
    let s = (w[1] >> 18u64) & 0xffu64;
    let sog = (w[2] >> 40u64) & 0x3fffu64;
    (pdep_spec(s, sog), pdep_spec(!s, sog))
}

/// Kings, bishops and rooks, among kings, bishops, rooks, silvers and golds.
pub open spec fn unpacked_king_bishop_rook(w: Seq<u64>) -> (u64, u64, u64) {
    let (b, r) = unpacked_bishop_rook(w);
    let kbr = !((w[2] >> 40u64) & 0x3fffu64) & 0x3fffu64;
    let bor = (w[2] >> 54u64) & 0x3fu64;
    (pdep_spec(!bor, kbr), pdep_spec(b, kbr), pdep_spec(r, kbr))
}

/// Kings, bishops, rooks, silvers and golds, among pieces other than pawns.
pub open spec fn unpacked_kbrsg(w: Seq<u64>) -> (u64, u64, u64, u64, u64) {
    let (k, b, r) = unpacked_king_bishop_rook(w);
    let (s, g) = unpacked_silver_gold(w);
    let m = !((w[3] >> 34u64) & 0x3f_ffffu64) & 0x3f_ffffu64;
    (pdep_spec(k, m), pdep_spec(b, m), pdep_spec(r, m), pdep_spec(s, m), pdep_spec(g, m))
}

/// Kings, rooks, bishops, golds, silvers, knights and lances, among the pieces of the board.
pub open spec fn unpacked_non_pawn(w: Seq<u64>) -> Seq<u64> {
    let (k, b, r, s, g) = unpacked_kbrsg(w);
    let (l, n) = unpacked_lance_knight(w);
    let m = !w[2] & 0xff_ffff_ffffu64;
    seq![pdep_spec(k, m), pdep_spec(r, m), pdep_spec(b, m), pdep_spec(g, m), pdep_spec(s, m), pdep_spec(n, m), pdep_spec(l, m)]
}

/// The pawns among the pieces of the board.
pub open spec fn unpacked_pawn(w: Seq<u64>) -> u64 {
    w[2] & 0xff_ffff_ffffu64
}

/// The promoted pieces among the pieces of the board.
pub open spec fn unpacked_promoted(w: Seq<u64>) -> u64 {
    let np = unpacked_non_pawn(w);
    pdep_spec(w[3] & 0x3_ffff_ffffu64, !np[0] & !np[3])
}

/// The pieces of the board of each of the fourteen types, by type index.
pub open spec fn unpacked_types(w: Seq<u64>) -> Seq<u64> {
    let np = unpacked_non_pawn(w);
    let prom = unpacked_promoted(w);
    let pawn = unpacked_pawn(w);
    seq![
        np[0],
        np[1] & !prom,
        np[2] & !prom,
        np[3],
        np[4] & !prom,
        np[5] & !prom,
        np[6] & !prom,
        pawn & !prom,
        np[1] & prom,
        np[2] & prom,
        np[4] & prom,
        np[5] & prom,
        np[6] & prom,
        pawn & prom,
    ]
}

/// `a - b`, or zero where `b` exceeds `a`.
pub open spec fn minus_or_zero(a: u8, b: nat) -> u8 {
    if b <= a {
        (a - b) as u8
    } else {
        0
    }
}

/// The number of pieces in hand of each kind (pawn, lance, knight, silver, gold, bishop,
/// rook): the full set of the kind less those on the board.
pub open spec fn unpacked_counts(w: Seq<u64>) -> Seq<u8> {
    let np = unpacked_non_pawn(w);
    seq![
        minus_or_zero(18, popcount(unpacked_pawn(w))),
        minus_or_zero(4, popcount(np[6])),
        minus_or_zero(4, popcount(np[5])),
        minus_or_zero(4, popcount(np[4])),
        minus_or_zero(4, popcount(np[3])),
        minus_or_zero(2, popcount(np[2])),
        minus_or_zero(2, popcount(np[1])),
    ]
}

/// The colors of the pieces of the board (a set bit for Black), and the color bits of the
/// pieces in hand, given the kings and the number of pieces of the board.
pub open spec fn unpacked_colors(w: Seq<u64>, king: u64, count: nat) -> (u64, u64) {
    let black_first = (w[0] >> 63u64) & 1u64 == 1u64;
    let colors = (w[1] >> 26u64) & 0x3f_ffff_ffffu64;
    let low = lowest_bit(king);
    let high = king ^ low;
    let king_colors = if black_first {
        low
    } else {
        high
    };
    let non_king = !king & (((1u64 << (count as u64)) - 1u64) as u64);
    let nb: u64 = if count >= 2 {
        (count - 2) as u64
    } else {
        0
    };
    let board = colors & (((1u64 << nb) - 1u64) as u64);
    (pdep_spec(board, non_king) | king_colors, colors >> nb)
}

/// The kinds of hand pieces in the order of the packed hand colors.
pub open spec fn hand_kind(i: int) -> PieceType {
    if i == 0 {
        PieceType::Pawn
    } else if i == 1 {
        PieceType::Lance
    } else if i == 2 {
        PieceType::Knight
    } else if i == 3 {
        PieceType::Silver
    } else if i == 4 {
        PieceType::Gold
    } else if i == 5 {
        PieceType::Bishop
    } else {
        PieceType::Rook
    }
}

/// The hand counts after the first `k` kinds, and the color bits still to read.
pub open spec fn unpacked_hand_upto(counts: Seq<u8>, colors: u64, k: nat) -> (Seq<u8>, u64)
    decreases k,
{
    if k == 0 {
        (Seq::new(14, |i: int| 0u8), colors)
    } else {
        let (h, c) = unpacked_hand_upto(counts, colors, (k - 1) as nat);
        let count = counts[k - 1];
        let pt = hand_kind(k - 1);
        let nb = popcount(c & (((1u64 << (count as u64)) - 1u64) as u64)) as u8;
        let nw = (count - nb) as u8;
        let h1 = if nb > 0 {
            hand_set(h, Piece { piece_type: pt, color: Color::Black }, nb)
        } else {
            h
        };
        let h2 = if nw > 0 {
            hand_set(h1, Piece { piece_type: pt, color: Color::White }, nw)
        } else {
            h1
        };
        (h2, c >> (count as u64))
    }
}

/// The piece on `sq` given the squares of each type and the Black squares: that of the last
/// type (below `k`) holding the square.
pub open spec fn grid_cell(types: Seq<Set<int>>, black: Set<int>, sq: int, k: nat) -> Option<Piece>
    decreases k,
{
    if k == 0 {
        None
    } else if types[k - 1].contains(sq) {
        Some(
            Piece {
                piece_type: pt_of_index(k - 1),
                color: if black.contains(sq) {
                    Color::Black
                } else {
                    Color::White
                },
            },
        )
    } else {
        grid_cell(types, black, sq, (k - 1) as nat)
    }
}

/// The board given the squares of each type and the Black squares.
pub open spec fn unpacked_grid(types: Seq<Set<int>>, black: Set<int>) -> Seq<Option<Piece>> {
    Seq::new(81, |sq: int| grid_cell(types, black, sq, 14))
}

/// The state that packed words stand for, at the given ply.
pub open spec fn unpacked_state(w: Seq<u64>, ply: u16) -> StateView {
    let (lo, hi, stm) = unpacked_occupied(w);
    let occ = squares_of_words(lo, hi);
    let count = popcount(lo) + popcount(hi);
    let types = unpacked_types(w);
    let (board_colors, hand_colors) = unpacked_colors(w, types[0], count);
    let black = spread(board_colors, occ);
    let type_sets = Seq::new(14, |t: int| spread(types[t], occ));
    StateView {
        board: unpacked_grid(type_sets, black),
        hand: unpacked_hand_upto(unpacked_counts(w), hand_colors, 7).0,
        ply,
        stm,
    }
}

/// The type index of the promoted form of the kind with index `g`.
pub open spec fn promoted_index(g: int) -> int {
    if g == 1 {
        8
    } else if g == 2 {
        9
    } else if g == 4 {
        10
    } else if g == 5 {
        11
    } else if g == 6 {
        12
    } else {
        13
    }
}

/// The squares of the kind with index `g` in the order king, rook, bishop, gold, silver,
/// knight, lance, pawn; promoted pieces count as their unpromoted kind.
pub open spec fn kind_set(board: Seq<Option<Piece>>, g: int) -> Set<int> {
    if g == 0 || g == 3 {
        type_set(board, g)
    } else {
        type_set(board, g).union(type_set(board, promoted_index(g)))
    }
}

/// The squares of promoted pieces.
pub open spec fn promoted_set(board: Seq<Option<Piece>>) -> Set<int> {
    Set::new(|i: int| 0 <= i < 81 && (board[i] matches Some(p) && p.piece_type.idx() >= 8))
}

/// For each kind, its pieces among the pieces of the board, in square order.
pub open spec fn packed_kinds(board: Seq<Option<Piece>>) -> Seq<u64> {
    Seq::new(8, |g: int| pext81(kind_set(board, g), occupied(board)))
}

/// The occupied words as packed: inverted within their 63 and 18 bits when White is to move.
pub open spec fn packed_occupied(v: StateView) -> (u64, u64) {
    let occ = occupied(v.board);
    if v.stm == Color::White {
        (!lo_word(occ) & 0x7fff_ffff_ffff_ffffu64, !hi_word(occ) & 0x3_ffffu64)
    } else {
        (lo_word(occ), hi_word(occ))
    }
}

/// The words after adding the piece-kind fields of the kinds `pk` to the words `d`.
pub open spec fn with_piece_fields(pk: Seq<u64>, d: Seq<u64>) -> Seq<u64> {
    let k = pk[0];
    let r = pk[1];
    let b = pk[2];
    let g = pk[3];
    let s = pk[4];
    let n = pk[5];
    let l = pk[6];
    let p = pk[7];
    let lon = l | n;
    let sog = s | g;
    let bor = b | r;
    let kbr = k | bor;
    let kbrsg = kbr | sog;
    seq![
        d[0],
        d[1] ^ (pext_spec(s, sog) << 18u64),
        (((d[2] ^ p) ^ (pext_spec(sog, kbrsg) << 40u64)) ^ (pext_spec(bor, kbr) << 54u64)) ^ (pext_spec(b, bor) << 60u64),
        (d[3] ^ (pext_spec(lon, !p) << 34u64)) ^ (pext_spec(l, lon) << 56u64),
    ]
}

/// The hand kinds in the order in which their colors are packed, from the high bits down:
/// rook, bishop, gold, silver, knight, lance, pawn.
pub open spec fn packed_hand_kind(i: int) -> PieceType {
    hand_kind(6 - i)
}

/// The number of pieces of each hand kind in a full set.
pub open spec fn full_count(pt: PieceType) -> int {
    match pt {
        PieceType::Pawn => 18,
        PieceType::Rook | PieceType::Bishop => 2,
        _ => 4,
    }
}

/// The pieces of a hand kind in both hands and on the board, given the packed kinds.
pub open spec fn kind_total(hand: Seq<u8>, pk: Seq<u64>, pt: PieceType) -> int {
    hand_count(hand, Piece { piece_type: pt, color: Color::Black }) + hand_count(
        hand,
        Piece { piece_type: pt, color: Color::White },
    ) + popcount(pk[pt.idx()])
}

/// The first `k` hand kinds (in packing order) are complete sets.
pub open spec fn hand_fits(hand: Seq<u8>, pk: Seq<u64>, k: int) -> bool {
    forall|i: int| 0 <= i < k ==> #[trigger] kind_total(hand, pk, packed_hand_kind(i)) == full_count(packed_hand_kind(i))
}

/// The color bits of the first `k` hand kinds (in packing order): per kind, as many bits as
/// pieces, the low ones set for the Black pieces.
pub open spec fn hand_color_bits(hand: Seq<u8>, k: nat) -> u64
    decreases k,
{
    if k == 0 {
        0
    } else {
        let prev = hand_color_bits(hand, (k - 1) as nat);
        let pt = packed_hand_kind(k - 1);
        let nb = hand_count(hand, Piece { piece_type: pt, color: Color::Black });
        let nw = hand_count(hand, Piece { piece_type: pt, color: Color::White });
        (prev << ((nb + nw) as u64)) | (((1u64 << (nb as u64)) - 1u64) as u64)
    }
}

/// Whether a state cannot be packed: more than 40 pieces on the board, a king missing, not
/// exactly two kings, or a kind of hand piece whose count in the hands and on the board is
/// not that of a full set.
pub open spec fn pack_fails(v: StateView) -> bool {
    let pk = packed_kinds(v.board);
    ||| occupied(v.board).len() > 40
    ||| king_square(v.board, Color::Black) is None
    ||| king_square(v.board, Color::White) is None
    ||| popcount(pk[0]) != 2
    ||| !hand_fits(v.hand, pk, 7)
}

/// The packed words of a state that can be packed.
pub open spec fn packed_words(v: StateView) -> Seq<u64> {
    let occ = occupied(v.board);
    let pk = packed_kinds(v.board);
    let k = pk[0];
    let g = pk[3];
    let (ol, oh) = packed_occupied(v);
    let d = with_piece_fields(pk, seq![0u64, 0u64, 0u64, 0u64]);
    let promoted = pext_spec(pext81(promoted_set(v.board), occ), !(k | g));
    let color_board = pext_spec(pext81(color_set(v.board, Color::Black), occ), !k);
    let color = color_board | (hand_color_bits(v.hand, 7) << ((occ.len() - 2) as u64));
    let king_order: u64 = if king_square(v.board, Color::Black)->Some_0 < king_square(v.board, Color::White)->Some_0 {
        1
    } else {
        0
    };
    seq![(d[0] ^ ol) ^ (king_order << 63u64), (d[1] ^ oh) ^ (color << 26u64), d[2], d[3] ^ promoted]
}

/// Facts about the masks and shifts of the packed words.
pub proof fn lemma_word_masks()
    by (bit_vector)
    ensures
        (1u64 << 40u64) == 0x100_0000_0000u64,
        (1u64 << 38u64) == 0x40_0000_0000u64,
        (1u64 << 34u64) == 0x4_0000_0000u64,
        (1u64 << 22u64) == 0x40_0000u64,
        (1u64 << 18u64) == 0x4_0000u64,
        (1u64 << 14u64) == 0x4000u64,
        (1u64 << 8u64) == 0x100u64,
        (1u64 << 6u64) == 0x40u64,
        (1u64 << 4u64) == 0x10u64,
        (1u64 << 63u64) == 0x8000_0000_0000_0000u64,
        forall|n: u64| n <= 40 ==> #[trigger] (1u64 << n) >= 1u64,
        forall|x: u64| #[trigger] (x & 0x7fff_ffff_ffff_ffffu64) < 0x8000_0000_0000_0000u64,
        forall|x: u64| #[trigger] (x & 0x3_ffffu64) < 0x4_0000u64,
        forall|x: u64| #[trigger] (x & 0xff_ffff_ffffu64) < 0x100_0000_0000u64,
        forall|x: u64, y: u64| x < 0x100_0000_0000u64 ==> #[trigger] (x & y) < 0x100_0000_0000u64,
        forall|x: u64| #[trigger] ((x & 0x7fff_ffff_ffff_ffffu64) & 0x7fff_ffff_ffff_ffffu64) == (x & 0x7fff_ffff_ffff_ffffu64),
        forall|x: u64| #[trigger] ((x & 0x3_ffffu64) & 0x3_ffffu64) == (x & 0x3_ffffu64),
        forall|x: u64, n: u64| n <= 40 ==> #[trigger] (x & (((1u64 << n) - 1u64) as u64)) < 0x100_0000_0000u64,
        forall|x: u64| x < 0x8000_0000_0000_0000u64 ==> #[trigger] (!(!x & 0x7fff_ffff_ffff_ffffu64) & 0x7fff_ffff_ffff_ffffu64) == x,
        forall|x: u64| x < 0x4_0000u64 ==> #[trigger] (!(!x & 0x3_ffffu64) & 0x3_ffffu64) == x,
        forall|x: u64| x < 0x8000_0000_0000_0000u64 ==> #[trigger] (x & 0x7fff_ffff_ffff_ffffu64) == x,
        forall|x: u64| x < 0x4_0000u64 ==> #[trigger] (x & 0x3_ffffu64) == x,
{
}

/// A deposit stays within the set bits of its mask.
pub proof fn lemma_pdep_within(x: u64, m: u64)
    ensures
        forall|i: u64| i < 64 ==> !bit(pdep_spec(x, m), i) || bit(m, i),
{
    assert forall|i: u64| i < 64 implies !bit(pdep_spec(x, m), i) || bit(m, i) by {
        lemma_pdep_bit(x, m, i);
    }
}

/// A value within a mask below `2^n` stays below `2^n`; so does its `&` with anything.
pub proof fn lemma_pdep_bound(x: u64, m: u64, n: u64)
    requires
        n < 64,
        m < (1u64 << n),
    ensures
        pdep_spec(x, m) < (1u64 << n),
{
    lemma_pdep_within(x, m);
    lemma_subset_bound(pdep_spec(x, m), m, n);
}

/// The number of set bits of `x` within a mask of the bits below `n` is at most `n`.
pub proof fn lemma_popcount_low(x: u64, n: u64)
    requires
        n < 64,
    ensures
        popcount(x & (((1u64 << n) - 1u64) as u64)) <= n,
{
    let y = x & (((1u64 << n) - 1u64) as u64);
    assert forall|i: u64| n <= i < 64 implies !#[trigger] bit(y, i) by {
        lemma_bit_and(x, ((1u64 << n) - 1u64) as u64, i);
        lemma_bit_bound(x, n, i);
    }
    lemma_rank_top(y, n as int, 64);
    lemma_rank_bound(y, n as int);
}

/// Complementing within the bits below `n` complements the count.
pub proof fn lemma_popcount_complement(x: u64, m: u64, n: int, k: int)
    requires
        0 <= k <= n <= 64,
        forall|i: u64| i < 64 ==> (#[trigger] bit(m, i) == ((i as int) < n)),
    ensures
        rank(!x & m, k) + rank(x & m, k) == k,
    decreases k,
{
    if k > 0 {
        lemma_popcount_complement(x, m, n, k - 1);
        let i = (k - 1) as u64;
        crate::bitboard::lemma_bit_not_and(x, m, i);
        lemma_bit_and(x, m, i);
    }
}

/// The masks of the low 63 and 18 bits.
pub proof fn lemma_low_masks()
    ensures
        forall|i: u64| i < 64 ==> (#[trigger] bit(0x7fff_ffff_ffff_ffffu64, i) == ((i as int) < 63)),
        forall|i: u64| i < 64 ==> (#[trigger] bit(0x3_ffffu64, i) == ((i as int) < 18)),
{
    assert forall|i: u64| i < 64 implies (#[trigger] bit(0x7fff_ffff_ffff_ffffu64, i) == ((i as int) < 63)) by {
        lemma_pow_consts();
        lemma_bit_bound(0, 63, i);
    }
    assert forall|i: u64| i < 64 implies (#[trigger] bit(0x3_ffffu64, i) == ((i as int) < 18)) by {
        lemma_pow_consts();
        lemma_bit_bound(0, 18, i);
    }
}

/// Masking with the bits below `n` leaves the number of set bits below `n`.
pub proof fn lemma_masked_popcount(x: u64, m: u64, n: int)
    requires
        0 <= n <= 64,
        forall|i: u64| i < 64 ==> (#[trigger] bit(m, i) == ((i as int) < n)),
    ensures
        popcount(x & m) == rank(x & m, n),
{
    assert forall|i: u64| n <= i < 64 implies !#[trigger] bit(x & m, i) by {
        lemma_bit_and(x, m, i);
    }
    lemma_rank_top(x & m, n, 64);
}

/// The squares of a bitboard are the squares of its words.
proof fn lemma_squares_of_words(b: Bitboard)
    ensures
        b@ == squares_of_words(b.lo(), b.hi()),
{
    assert(b@ =~= squares_of_words(b.lo(), b.hi()));
}

impl View for PackedStateInfo {
    type V = Seq<u64>;

    closed spec fn view(&self) -> Seq<u64> {
        self.0@
    }
}

impl PackedStateInfo {
    /// There are always four words.
    pub proof fn lemma_len(&self)
        ensures
            self@.len() == 4,
    {
    }

    /// Builds the board from the squares of each type and the Black squares; a square held
    /// by several types gets the last of them.
    fn type_bb_to_piece_grid(bbs: &[Bitboard; 14], color_bb: &Bitboard) -> (r: PieceGrid)
        ensures
            r.cells() == unpacked_grid(Seq::new(14, |t: int| bbs@[t]@), color_bb@),
    {
        let ghost types = Seq::new(14, |t: int| bbs@[t]@);
        let mut board = PieceGrid::empty();
        let not_color = color_bb.not();
        let mut t: usize = 0;
        while t < 14
            invariant
                t <= 14,
                types == Seq::new(14, |t: int| bbs@[t]@),
                not_color@ == vstd::set_lib::set_int_range(0, 81).difference(color_bb@),
                board.cells().len() == 81,
                forall|sq: int| 0 <= sq < 81 ==> board.cells()[sq] == grid_cell(types, color_bb@, sq, t as nat),
            decreases 14 - t,
        {
            let pt = PieceType::from_index(t);
            let mut black_bb = bbs[t].and(color_bb);
            let mut white_bb = bbs[t].and(&not_color);
            let ghost b0 = board.cells();
            let ghost all_black = black_bb@;
            let ghost all_white = white_bb@;
            proof {
                black_bb.lemma_view_finite();
                white_bb.lemma_view_finite();
            }
            while black_bb.is_any()
                invariant
                    black_bb@.subset_of(all_black),
                    black_bb@.finite(),
                    all_black.subset_of(vstd::set_lib::set_int_range(0, 81)),
                    board.cells().len() == 81,
                    forall|sq: int|
                        0 <= sq < 81 ==> board.cells()[sq] == if all_black.contains(sq) && !black_bb@.contains(sq) {
                            Some(Piece { piece_type: pt, color: Color::Black })
                        } else {
                            b0[sq]
                        },
                decreases black_bb@.len(),
            {
                let sq = black_bb.pop();
                proof {
                    sq.lemma_idx_bound();
                }
                board.set(sq, Some(Piece { piece_type: pt, color: Color::Black }));
            }
            let ghost b1 = board.cells();
            while white_bb.is_any()
                invariant
                    white_bb@.subset_of(all_white),
                    white_bb@.finite(),
                    all_white.subset_of(vstd::set_lib::set_int_range(0, 81)),
                    board.cells().len() == 81,
                    forall|sq: int|
                        0 <= sq < 81 ==> board.cells()[sq] == if all_white.contains(sq) && !white_bb@.contains(sq) {
                            Some(Piece { piece_type: pt, color: Color::White })
                        } else {
                            b1[sq]
                        },
                decreases white_bb@.len(),
            {
                let sq = white_bb.pop();
                proof {
                    sq.lemma_idx_bound();
                }
                board.set(sq, Some(Piece { piece_type: pt, color: Color::White }));
            }
            proof {
                assert forall|sq: int| 0 <= sq < 81 implies board.cells()[sq] == grid_cell(
                    types,
                    color_bb@,
                    sq,
                    (t + 1) as nat,
                ) by {
                    assert(!white_bb@.contains(sq));
                    assert(!black_bb@.contains(sq));
                    assert(types[t as int] == bbs@[t as int]@);
                    assert(all_black == bbs@[t as int]@.intersect(color_bb@));
                    assert(all_white == bbs@[t as int]@.intersect(not_color@));
                    if bbs@[t as int]@.contains(sq) {
                        if color_bb@.contains(sq) {
                            assert(all_black.contains(sq));
                            assert(!all_white.contains(sq));
                        } else {
                            assert(all_white.contains(sq));
                        }
                    } else {
                        assert(!all_black.contains(sq));
                        assert(!all_white.contains(sq));
                    }
                }
            }
            t += 1;
        }
        proof {
            assert(board.cells() =~= unpacked_grid(types, color_bb@));
        }
        board
    }

    /// Sets the hand counts from the number of pieces in hand of each kind and their color
    /// bits: per kind, pawn first, as many bits as pieces, each set bit a Black piece.
    fn counts_to_hand(counts: [u8; 7], colors: u64) -> (r: Hand)
        requires
            forall|i: int| 0 <= i < 7 ==> counts@[i] <= 18,
        ensures
            r.counts() == unpacked_hand_upto(counts@, colors, 7).0,
    {
        let mut hand = Hand::new();
        let mut rest = colors;
        let mut k: usize = 0;
        while k < 7
            invariant
                k <= 7,
                forall|i: int| 0 <= i < 7 ==> counts@[i] <= 18,
                (hand.counts(), rest) == unpacked_hand_upto(counts@, colors, k as nat),
            decreases 7 - k,
        {
            let count = counts[k];
            let pt = if k == 0 {
                PieceType::Pawn
            } else if k == 1 {
                PieceType::Lance
            } else if k == 2 {
                PieceType::Knight
            } else if k == 3 {
                PieceType::Silver
            } else if k == 4 {
                PieceType::Gold
            } else if k == 5 {
                PieceType::Bishop
            } else {
                PieceType::Rook
            };
            proof {
                lemma_word_masks();
                lemma_popcount_low(rest, count as u64);
            }
            let bits = rest & ((1u64 << count as u64) - 1);
            let num_black = count_ones(bits) as u8;
            let num_white = count - num_black;
            if num_black > 0 {
                hand.set(Piece { piece_type: pt, color: Color::Black }, num_black);
            }
            if num_white > 0 {
                hand.set(Piece { piece_type: pt, color: Color::White }, num_white);
            }
            rest = rest >> count as u64;
            k += 1;
        }
        hand
    }

    /// Bishops and rooks, among kings, bishops and rooks.
    fn decode_bishop_rook(&self) -> (r: (u64, u64))
        ensures
            r == unpacked_bishop_rook(self@),
    {
        let bishop_or_rook_packed = (self.0[2] >> 54) & 0x3f;
        let bishop_packed = (self.0[2] >> 60) & 0x0f;
        let rook_packed = deposit(!bishop_packed, bishop_or_rook_packed);
        let bishop_packed = deposit(bishop_packed, bishop_or_rook_packed);
        (bishop_packed, rook_packed)
    }

    /// Lances and knights, among pieces other than pawns.
    fn decode_lance_knight(&self) -> (r: (u64, u64))
        ensures
            r == unpacked_lance_knight(self@),
    {
        let lance_packed = (self.0[3] >> 56) & 0xff;
        let lance_or_knight_packed = (self.0[3] >> 34) & 0x3f_ffff;
        let knight_packed = deposit(!lance_packed, lance_or_knight_packed);
        let lance_packed = deposit(lance_packed, lance_or_knight_packed);
        (lance_packed, knight_packed)
    }

    /// Silvers and golds, among kings, bishops, rooks, silvers and golds.
    fn decode_silver_gold(&self) -> (r: (u64, u64))
        ensures
            r == unpacked_silver_gold(self@),
    {
        let silver_packed = (self.0[1] >> 18) & 0xff;
        let silver_or_gold_packed = (self.0[2] >> 40) & 0x3fff;
        let gold_packed = deposit(!silver_packed, silver_or_gold_packed);
        let silver_packed = deposit(silver_packed, silver_or_gold_packed);
        (silver_packed, gold_packed)
    }

    /// Kings, bishops and rooks, among kings, bishops, rooks, silvers and golds.
    fn decode_king_bishop_rook(&self) -> (r: (u64, u64, u64))
        ensures
            r == unpacked_king_bishop_rook(self@),
    {
        let (bishop_packed, rook_packed) = self.decode_bishop_rook();
        let silver_or_gold_packed = (self.0[2] >> 40) & 0x3fff;
        let kbr_packed = !silver_or_gold_packed & 0x3fff;
        let bishop_or_rook_packed = (self.0[2] >> 54) & 0x3f;
        let king_packed = deposit(!bishop_or_rook_packed, kbr_packed);
        let bishop_packed = deposit(bishop_packed, kbr_packed);
        let rook_packed = deposit(rook_packed, kbr_packed);
        (king_packed, bishop_packed, rook_packed)
    }

    /// Kings, bishops, rooks, silvers and golds, among pieces other than pawns.
    fn decode_kbrgs(&self) -> (r: (u64, u64, u64, u64, u64))
        ensures
            r == unpacked_kbrsg(self@),
    {
        let (king_packed, bishop_packed, rook_packed) = self.decode_king_bishop_rook();
        let (silver_packed, gold_packed) = self.decode_silver_gold();
        let lance_or_knight_packed = (self.0[3] >> 34) & 0x3f_ffff;
        let kbrsg_packed = !lance_or_knight_packed & 0x3f_ffff;
        let king_packed = deposit(king_packed, kbrsg_packed);
        let bishop_packed = deposit(bishop_packed, kbrsg_packed);
        let rook_packed = deposit(rook_packed, kbrsg_packed);
        let silver_packed = deposit(silver_packed, kbrsg_packed);
        let gold_packed = deposit(gold_packed, kbrsg_packed);
        (king_packed, bishop_packed, rook_packed, silver_packed, gold_packed)
    }

    /// Kings, rooks, bishops, golds, silvers, knights and lances, among the pieces of the
    /// board.
    fn decode_non_pawn_pieces(&self) -> (r: [u64; 7])
        ensures
            r@ == unpacked_non_pawn(self@),
            forall|i: int| 0 <= i < 7 ==> #[trigger] r@[i] < 0x100_0000_0000u64,
    {
        let (king_packed, bishop_packed, rook_packed, silver_packed, gold_packed) = self.decode_kbrgs();
        let (lance_packed, knight_packed) = self.decode_lance_knight();
        let w2 = self.0[2];
        let non_pawn_packed = !w2 & 0x0000_00ff_ffff_ffff;
        let r = [
            deposit(king_packed, non_pawn_packed),
            deposit(rook_packed, non_pawn_packed),
            deposit(bishop_packed, non_pawn_packed),
            deposit(gold_packed, non_pawn_packed),
            deposit(silver_packed, non_pawn_packed),
            deposit(knight_packed, non_pawn_packed),
            deposit(lance_packed, non_pawn_packed),
        ];
        proof {
            let m = non_pawn_packed;
            lemma_word_masks();
            lemma_pdep_bound(king_packed, m, 40);
            lemma_pdep_bound(rook_packed, m, 40);
            lemma_pdep_bound(bishop_packed, m, 40);
            lemma_pdep_bound(gold_packed, m, 40);
            lemma_pdep_bound(silver_packed, m, 40);
            lemma_pdep_bound(knight_packed, m, 40);
            lemma_pdep_bound(lance_packed, m, 40);
            assert(r@ =~= unpacked_non_pawn(self@));
        }
        r
    }

    /// The pieces of the board of each type, and the number of pieces in hand of each kind.
    fn decode_pieces(&self) -> (r: ([u64; 14], [u8; 7]))
        ensures
            r.0@ == unpacked_types(self@),
            r.1@ == unpacked_counts(self@),
            forall|t: int| 0 <= t < 14 ==> #[trigger] r.0@[t] < 0x100_0000_0000u64,
            forall|i: int| 0 <= i < 7 ==> #[trigger] r.1@[i] <= 18,
    {
        let np = self.decode_non_pawn_pieces();
        let king_packed = np[0];
        let rook_packed = np[1];
        let bishop_packed = np[2];
        let gold_packed = np[3];
        let silver_packed = np[4];
        let knight_packed = np[5];
        let lance_packed = np[6];
        let promoted_packed = self.0[3] & 0x0000_0003_ffff_ffff;
        let promoted_packed = deposit(promoted_packed, !king_packed & !gold_packed);
        let w2 = self.0[2];
        let pawn_packed = w2 & 0x0000_00ff_ffff_ffff;
        let types = [
            king_packed,
            rook_packed & !promoted_packed,
            bishop_packed & !promoted_packed,
            gold_packed,
            silver_packed & !promoted_packed,
            knight_packed & !promoted_packed,
            lance_packed & !promoted_packed,
            pawn_packed & !promoted_packed,
            rook_packed & promoted_packed,
            bishop_packed & promoted_packed,
            silver_packed & promoted_packed,
            knight_packed & promoted_packed,
            lance_packed & promoted_packed,
            pawn_packed & promoted_packed,
        ];
        let counts = [
            18u8.saturating_sub(count_ones(pawn_packed) as u8),
            4u8.saturating_sub(count_ones(lance_packed) as u8),
            4u8.saturating_sub(count_ones(knight_packed) as u8),
            4u8.saturating_sub(count_ones(silver_packed) as u8),
            4u8.saturating_sub(count_ones(gold_packed) as u8),
            2u8.saturating_sub(count_ones(bishop_packed) as u8),
            2u8.saturating_sub(count_ones(rook_packed) as u8),
        ];
        proof {
            lemma_word_masks();
            assert(types@ =~= unpacked_types(self@));
            assert(counts@ =~= unpacked_counts(self@));
        }
        (types, counts)
    }

    /// The occupied squares, their number and the side to move.
    fn decode_occupied(&self) -> (r: (Bitboard, u32, Color))
        ensures
            r.0@ == squares_of_words(unpacked_occupied(self@).0, unpacked_occupied(self@).1),
            r.1 == popcount(unpacked_occupied(self@).0) + popcount(unpacked_occupied(self@).1),
            r.1 <= 40,
            r.2 == unpacked_occupied(self@).2,
    {
        let w0 = self.0[0];
        let w1 = self.0[1];
        let occupied_low = w0 & 0x7fff_ffff_ffff_ffff;
        let occupied_high = w1 & 0x0000_0000_0003_ffff;
        let count = count_ones(occupied_low) + count_ones(occupied_high);
        proof {
            lemma_word_masks();
        }
        if count > 40 {
            let occupied_low2 = !occupied_low & 0x7fff_ffff_ffff_ffff;
            let occupied_high2 = !occupied_high & 0x0000_0000_0003_ffff;
            let count2 = count_ones(occupied_low2) + count_ones(occupied_high2);
            proof {
                lemma_low_masks();
                lemma_popcount_complement(occupied_low, 0x7fff_ffff_ffff_ffffu64, 63, 63);
                lemma_popcount_complement(occupied_high, 0x3_ffffu64, 18, 18);
                lemma_masked_popcount(occupied_low, 0x7fff_ffff_ffff_ffffu64, 63);
                lemma_masked_popcount(occupied_high, 0x3_ffffu64, 18);
                lemma_masked_popcount(!occupied_low, 0x7fff_ffff_ffff_ffffu64, 63);
                lemma_masked_popcount(!occupied_high, 0x3_ffffu64, 18);
                assert(occupied_low & 0x7fff_ffff_ffff_ffffu64 == occupied_low);
                assert(occupied_high & 0x3_ffffu64 == occupied_high);
            }
            let occupied_bb = Bitboard::new(occupied_low2, occupied_high2);
            proof {
                lemma_squares_of_words(occupied_bb);
            }
            (occupied_bb, count2, Color::White)
        } else {
            let occupied_bb = Bitboard::new(occupied_low, occupied_high);
            proof {
                lemma_squares_of_words(occupied_bb);
            }
            (occupied_bb, count, Color::Black)
        }
    }

    /// The colors of the pieces of the board, as bits in the order of the occupied squares
    /// (set for Black), and the color bits of the pieces in hand, given the kings' bits and
    /// the number of pieces of the board.
    fn decode_color(&self, king_packed: u64, count: u32) -> (r: (u64, u64))
        requires
            count <= 40,
            king_packed < 0x100_0000_0000u64,
        ensures
            r == unpacked_colors(self@, king_packed, count as nat),
            r.0 < 0x100_0000_0000u64,
    {
        let w0 = self.0[0];
        let w1 = self.0[1];
        let king_black_index_less = (w0 >> 63) & 0x1 == 1;
        let color_packed = (w1 >> 26) & 0x3f_ffff_ffff;
        let king_bit_low = if king_packed == 0 {
            0
        } else {
            proof {
                lemma_lowest_bit(king_packed);
            }
            1u64 << (king_packed.trailing_zeros() as u64)
        };
        let king_bit_high = king_packed ^ king_bit_low;
        let king_color_packed = if king_black_index_less {
            king_bit_low
        } else {
            king_bit_high
        };
        proof {
            lemma_word_masks();
            assert forall|i: u64| i < 64 implies !bit(king_bit_low, i) || bit(king_packed, i) by {
                if king_packed != 0 {
                    lemma_bit_single(king_packed.trailing_zeros() as u64, i);
                } else {
                    crate::bitboard::lemma_bit_zero(i);
                }
            }
            assert forall|i: u64| i < 64 implies !bit(king_bit_high, i) || bit(king_packed, i) by {
                lemma_bit_xor(king_packed, king_bit_low, i);
            }
            lemma_subset_bound(king_bit_low, king_packed, 40);
            lemma_subset_bound(king_bit_high, king_packed, 40);
            assert(1u64 << (count as u64) >= 1u64);
        }
        let mask = (1u64 << count as u64) - 1;
        let non_king_packed = !king_packed & mask;
        let nb: u64 = if count >= 2 {
            (count - 2) as u64
        } else {
            0
        };
        proof {
            assert(1u64 << nb >= 1u64);
            assert(non_king_packed < (1u64 << 40u64));
        }
        let color_packed_board = color_packed & ((1u64 << nb) - 1);
        let color_packed_hand = color_packed >> nb;
        let deposited = deposit(color_packed_board, non_king_packed);
        proof {
            lemma_pdep_bound(color_packed_board, non_king_packed, 40);
            lemma_bound_ops(deposited, king_color_packed, 40);
        }
        let color_packed_board = deposited | king_color_packed;
        (color_packed_board, color_packed_hand)
    }

    /// The squares of `occ` whose rank among them is a set bit of `x`.
    fn spread_bits(x: u64, occ: &Bitboard) -> (r: Bitboard)
        requires
            x < 0x100_0000_0000u64,
        ensures
            r@ == spread(x, occ@),
    {
        let b = Bitboard::new(x, 0);
        let r = b.pdep(occ);
        proof {
            assert forall|k: int| 0 <= k < 81 && #[trigger] b@.contains(k) implies k < 63 by {
                if k >= 63 {
                    crate::bitboard::lemma_bit_zero((k - 63) as u64);
                }
            }
            assert forall|sq: int| #[trigger] r@.contains(sq) == spread(x, occ@).contains(sq) by {
                let k = set_rank(occ@, sq) as int;
                if 63 <= k < 81 {
                    crate::bitboard::lemma_bit_zero((k - 63) as u64);
                }
            }
            assert(r@ =~= spread(x, occ@));
        }
        r
    }

    /// Unpacks the state, at the given ply.
    pub fn to_state_info(&self, ply: u16) -> (r: StateInfo)
        ensures
            r.wf(),
            r@ == unpacked_state(self@, ply),
    {
        let (occupied_bb, count, side_to_move) = self.decode_occupied();
        let (board_pieces, hand_counts) = self.decode_pieces();
        let (color_packed_board, color_packed_hand) = self.decode_color(board_pieces[0], count);
        let color_bb = Self::spread_bits(color_packed_board, &occupied_bb);
        let mut type_bb = [color_bb; 14];
        let mut t: usize = 0;
        while t < 14
            invariant
                t <= 14,
                forall|i: int| 0 <= i < 14 ==> #[trigger] board_pieces@[i] < 0x100_0000_0000u64,
                forall|i: int| 0 <= i < t ==> #[trigger] type_bb@[i]@ == spread(board_pieces@[i], occupied_bb@),
            decreases 14 - t,
        {
            type_bb[t] = Self::spread_bits(board_pieces[t], &occupied_bb);
            t += 1;
        }
        let board = Self::type_bb_to_piece_grid(&type_bb, &color_bb);
        let hand = Self::counts_to_hand(hand_counts, color_packed_hand);
        let mut state = StateInfo::new();
        let mut i: u8 = 0;
        proof {
            board.lemma_len();
        }
        while i < 81
            invariant
                i <= 81,
                state.wf(),
                board.cells().len() == 81,
                state@.board.len() == 81,
                forall|j: int| 0 <= j < i ==> #[trigger] state@.board[j] == board.cells()[j],
                forall|j: int| i <= j < 81 ==> #[trigger] state@.board[j] == None::<Piece>,
                state@.hand == Seq::new(14, |k: int| 0u8),
                state@.ply == 1,
                state@.stm == Color::Black,
            decreases 81 - i,
        {
            let sq = Square::from_index(i).unwrap();
            state.replace(sq, *board.get(sq));
            i += 1;
        }
        state.set_hand(hand);
        state.set_side_to_move(side_to_move);
        state.set_ply(ply);
        proof {
            let types = unpacked_types(self@);
            assert(Seq::new(14, |t: int| type_bb@[t]@) =~= Seq::new(14, |t: int| spread(types[t], occupied_bb@)));
            assert(state@.board =~= board.cells());
        }
        state
    }

    /// The occupied words, inverted within their bits when White is to move.
    fn encode_occupied_and_turn(state: &StateInfo) -> (r: (u64, u64))
        requires
            state.wf(),
        ensures
            r == packed_occupied(state@),
    {
        proof {
            state.lemma_bitboards();
        }
        let mut occupied_low = state.occupied_bb.low();
        let mut occupied_high = state.occupied_bb.high();
        proof {
            state.occupied_bb.lemma_words();
        }
        if state.side_to_move() == Color::White {
            occupied_low = !occupied_low & 0x7fff_ffff_ffff_ffff;
            occupied_high = !occupied_high & 0x0000_0000_0003_ffff;
        }
        (occupied_low, occupied_high)
    }

    /// Which pieces of the board are promoted, in square order.
    fn encode_promoted(state: &StateInfo) -> (r: u64)
        requires
            state.wf(),
        ensures
            r == pext81(promoted_set(state@.board), occupied(state@.board)),
    {
        proof {
            state.lemma_bitboards();
        }
        let promoted_bb = state.type_bb[13].or(&state.type_bb[12]).or(&state.type_bb[11]).or(&state.type_bb[10]).or(
            &state.type_bb[9],
        ).or(&state.type_bb[8]);
        proof {
            assert(promoted_bb@ =~= promoted_set(state@.board));
        }
        promoted_bb.pext_u64(&state.occupied_bb)
    }

    /// For each kind (king, rook, bishop, gold, silver, knight, lance, pawn), which pieces of
    /// the board are of that kind, in square order.
    fn pack_board_pieces(state: &StateInfo) -> (r: [u64; 8])
        requires
            state.wf(),
        ensures
            r@ == packed_kinds(state@.board),
    {
        proof {
            state.lemma_bitboards();
        }
        let occ = &state.occupied_bb;
        let r = [
            state.type_bb[0].pext_u64(occ),
            state.type_bb[1].or(&state.type_bb[8]).pext_u64(occ),
            state.type_bb[2].or(&state.type_bb[9]).pext_u64(occ),
            state.type_bb[3].pext_u64(occ),
            state.type_bb[4].or(&state.type_bb[10]).pext_u64(occ),
            state.type_bb[5].or(&state.type_bb[11]).pext_u64(occ),
            state.type_bb[6].or(&state.type_bb[12]).pext_u64(occ),
            state.type_bb[7].or(&state.type_bb[13]).pext_u64(occ),
        ];
        proof {
            assert(r@ =~= packed_kinds(state@.board));
        }
        r
    }

    /// Adds the piece-kind fields to the words, and returns the packed kinds.
    fn encode_board_pieces(state: &StateInfo, data: &mut [u64; 4]) -> (r: [u64; 8])
        requires
            state.wf(),
        ensures
            r@ == packed_kinds(state@.board),
            final(data)@ == with_piece_fields(r@, old(data)@),
    {
        let pieces_packed = Self::pack_board_pieces(state);
        let king_packed = pieces_packed[0];
        let rook_packed = pieces_packed[1];
        let bishop_packed = pieces_packed[2];
        let gold_packed = pieces_packed[3];
        let silver_packed = pieces_packed[4];
        let knight_packed = pieces_packed[5];
        let lance_packed = pieces_packed[6];
        let pawn_packed = pieces_packed[7];
        let lance_or_knight = lance_packed | knight_packed;
        let silver_or_gold = silver_packed | gold_packed;
        let bishop_or_rook = bishop_packed | rook_packed;
        let kbr_packed = king_packed | bishop_or_rook;
        let kbrsg_packed = kbr_packed | silver_or_gold;
        data[1] = data[1] ^ (extract(silver_packed, silver_or_gold) << 18);
        data[2] = data[2] ^ pawn_packed;
        data[2] = data[2] ^ (extract(silver_or_gold, kbrsg_packed) << 40);
        data[2] = data[2] ^ (extract(bishop_or_rook, kbr_packed) << 54);
        data[2] = data[2] ^ (extract(bishop_packed, bishop_or_rook) << 60);
        data[3] = data[3] ^ (extract(lance_or_knight, !pawn_packed) << 34);
        data[3] = data[3] ^ (extract(lance_packed, lance_or_knight) << 56);
        proof {
            assert(data@ =~= with_piece_fields(pieces_packed@, old(data)@));
        }
        pieces_packed
    }

    /// The color bits of the pieces in hand, kind by kind from rook to pawn, each kind taking
    /// as many bits as pieces, the low ones set for the Black pieces; `None` where a kind's
    /// pieces in the hands and on the board do not make a full set.
    fn encode_hand_colors(state: &StateInfo, packed_pieces: [u64; 8]) -> (r: Option<u64>)
        ensures
            r is Some <==> hand_fits(state@.hand, packed_pieces@, 7),
            r matches Some(a) ==> a == hand_color_bits(state@.hand, 7),
    {
        let mut accum = 0u64;
        let mut k: usize = 0;
        while k < 7
            invariant
                k <= 7,
                hand_fits(state@.hand, packed_pieces@, k as int),
                accum == hand_color_bits(state@.hand, k as nat),
            decreases 7 - k,
        {
            let (pt, num_pieces): (PieceType, u32) = if k == 0 {
                (PieceType::Rook, 2)
            } else if k == 1 {
                (PieceType::Bishop, 2)
            } else if k == 2 {
                (PieceType::Gold, 4)
            } else if k == 3 {
                (PieceType::Silver, 4)
            } else if k == 4 {
                (PieceType::Knight, 4)
            } else if k == 5 {
                (PieceType::Lance, 4)
            } else {
                (PieceType::Pawn, 18)
            };
            assert(pt == packed_hand_kind(k as int) && num_pieces == full_count(pt));
            let num_black = state.hand(Piece { piece_type: pt, color: Color::Black });
            let num_white = state.hand(Piece { piece_type: pt, color: Color::White });
            if num_black as u32 + num_white as u32 + count_ones(packed_pieces[pt.index()]) != num_pieces {
                proof {
                    assert(kind_total(state@.hand, packed_pieces@, packed_hand_kind(k as int)) != full_count(
                        packed_hand_kind(k as int),
                    ));
                }
                return None;
            }
            accum = accum << ((num_black + num_white) as u64);
            proof {
                lemma_word_masks();
                assert(1u64 << (num_black as u64) >= 1u64);
            }
            accum = accum | ((1u64 << (num_black as u64)) - 1);
            proof {
                assert forall|i: int| 0 <= i < k + 1 implies #[trigger] kind_total(
                    state@.hand,
                    packed_pieces@,
                    packed_hand_kind(i),
                ) == full_count(packed_hand_kind(i)) by {
                    if i < k {
                        assert(hand_fits(state@.hand, packed_pieces@, k as int));
                    }
                }
            }
            k += 1;
        }
        Some(accum)
    }

    /// Packs a state; `None` where it cannot be packed (see `pack_fails`).
    pub fn from_state_info(state: &StateInfo) -> (r: Option<PackedStateInfo>)
        requires
            state.wf(),
        ensures
            r is None <==> pack_fails(state@),
            r matches Some(p) ==> p@ == packed_words(state@),
    {
        proof {
            state.lemma_bitboards();
            state.lemma_view_len();
        }
        if state.occupied_bb.count() > 40 {
            return None;
        }
        let mut data = [0u64; 4];
        let (occupied_low, occupied_high) = Self::encode_occupied_and_turn(state);
        let black_king_index = match state.find_king(Color::Black) {
            Some(sq) => sq.index() as u8,
            None => {
                return None;
            },
        };
        let white_king_index = match state.find_king(Color::White) {
            Some(sq) => sq.index() as u8,
            None => {
                return None;
            },
        };
        let promoted_packed = Self::encode_promoted(state);
        let pieces_packed = Self::encode_board_pieces(state, &mut data);
        let king_packed = pieces_packed[0];
        let gold_packed = pieces_packed[3];
        if count_ones(king_packed) != 2 {
            return None;
        }
        let promoted_packed = extract(promoted_packed, !(king_packed | gold_packed));
        let color_packed_board = extract(state.color_bb[0].pext_u64(&state.occupied_bb), !king_packed);
        let color_packed_hand = match Self::encode_hand_colors(state, pieces_packed) {
            Some(h) => h,
            None => {
                return None;
            },
        };
        let n = state.occupied_bb.count();
        proof {
            let b = state@.board;
            let occ = occupied(b);
            let kb = king_square(b, Color::Black)->Some_0;
            let kw = king_square(b, Color::White)->Some_0;
            assert(occ.contains(kb) && occ.contains(kw) && kb != kw);
            state.occupied_bb.lemma_view_finite();
            assert(occ.remove(kb).contains(kw));
        }
        let color_packed = color_packed_board | (color_packed_hand << ((n - count_ones(king_packed)) as u64));
        let king_order: u64 = if black_king_index < white_king_index {
            1
        } else {
            0
        };
        data[0] = data[0] ^ occupied_low;
        data[0] = data[0] ^ (king_order << 63);
        data[1] = data[1] ^ occupied_high;
        data[1] = data[1] ^ (color_packed << 26);
        data[3] = data[3] ^ promoted_packed;
        let r = PackedStateInfo(data);
        proof {
            assert(r@ =~= packed_words(state@));
        }
        Some(r)
    }
}

/// The position of the third space of `s` at or after `i`, given `seen` spaces before `i`
/// (the length of `s` if there is none).
pub open spec fn third_space(s: Seq<char>, i: int, seen: nat) -> int
    decreases s.len() - i,
{
    if i >= s.len() || i < 0 {
        s.len() as int
    } else if s[i] == ' ' {
        if seen >= 2 {
            i
        } else {
            third_space(s, i + 1, seen + 1)
        }
    } else {
        third_space(s, i + 1, seen)
    }
}

/// The first three space-separated fields of a text, with the spaces between them: the
/// text before its third space, or all of it.
pub open spec fn first_fields(s: Seq<char>) -> Seq<char> {
    s.take(third_space(s, 0, 0))
}

proof fn lemma_third_space_bound(s: Seq<char>, i: int, seen: nat)
    requires
        0 <= i <= s.len(),
    ensures
        i <= third_space(s, i, seen) <= s.len(),
    decreases s.len() - i,
{
    if i < s.len() {
        if s[i] == ' ' {
            if seen < 2 {
                lemma_third_space_bound(s, i + 1, seen + 1);
            }
        } else {
            lemma_third_space_bound(s, i + 1, seen);
        }
    }
}

/// Returns the first three space-separated fields of a text, with the spaces between them.
fn first_fields_of(s: &Vec<char>) -> (r: Vec<char>)
    ensures
        r@ == first_fields(s@),
{
    let mut out: Vec<char> = Vec::new();
    let mut seen: u8 = 0;
    let mut i: usize = 0;
    proof {
        lemma_third_space_bound(s@, 0, 0);
    }
    while i < s.len()
        invariant_except_break
            i <= s.len(),
            seen <= 2,
            third_space(s@, 0, 0) == third_space(s@, i as int, seen as nat),
            out@ == s@.take(i as int),
        ensures
            out@ == first_fields(s@),
        decreases s.len() - i,
    {
        let c = s[i];
        if c == ' ' {
            if seen >= 2 {
                break;
            }
            seen += 1;
        }
        out.push(c);
        i += 1;
        proof {
            assert(out@ =~= s@.take(i as int));
        }
    }
    out
}

/// A board state stored compactly: packed where it can be, else as the first three fields
/// of its SFEN text (board, side to move, hand).
#[derive(Clone, Debug)]
pub enum SerializedStateInfo {
    Packed(PackedStateInfo),
    FallbackedSfen(String),
}

impl SerializedStateInfo {
    /// Stores a state: packed where it can be, else as SFEN text without the ply.
    pub fn from_state_info(state: &StateInfo) -> (r: SerializedStateInfo)
        requires
            state.wf(),
        ensures
            match r {
                SerializedStateInfo::Packed(p) => !pack_fails(state@) && p@ == packed_words(state@),
                SerializedStateInfo::FallbackedSfen(s) => pack_fails(state@) && s@ == first_fields(
                    state_text(state@.board, state@.hand, state@.stm, state@.ply),
                ),
            },
    {
        match PackedStateInfo::from_state_info(state) {
            Some(packed) => SerializedStateInfo::Packed(packed),
            None => {
                let text = state.generate_sfen_chars();
                let head = first_fields_of(&text);
                SerializedStateInfo::FallbackedSfen(crate::text::string_of(&head))
            },
        }
    }

    /// Restores a packed state at the given ply. The stored SFEN text lacks the ply field,
    /// which reading SFEN requires, so only packed states are restored.
    pub fn to_state_info(&self, ply: u16) -> (r: StateInfo)
        requires
            self is Packed,
        ensures
            r.wf(),
            match self {
                SerializedStateInfo::Packed(p) => r@ == unpacked_state(p@, ply),
                SerializedStateInfo::FallbackedSfen(_) => false,
            },
    {
        match self {
            SerializedStateInfo::Packed(packed) => packed.to_state_info(ply),
            SerializedStateInfo::FallbackedSfen(_) => {
                proof {
                    assert(false);
                }
                StateInfo::new()
            },
        }
    }

    /// Returns the first three SFEN fields (board, side to move, hand) of the stored state.
    pub fn to_sfen(&self) -> (r: String)
        ensures
            match self {
                SerializedStateInfo::Packed(p) => {
                    let v = unpacked_state(p@, 1);
                    r@ == first_fields(state_text(v.board, v.hand, v.stm, v.ply))
                },
                SerializedStateInfo::FallbackedSfen(s) => r@ == s@,
            },
    {
        match self {
            SerializedStateInfo::Packed(packed) => {
                let text = packed.to_state_info(1).generate_sfen_chars();
                let head = first_fields_of(&text);
                crate::text::string_of(&head)
            },
            SerializedStateInfo::FallbackedSfen(sfen) => sfen.clone(),
        }
    }
}

} // verus!
