//! Unpacking a packed state gives the state back.
use vstd::prelude::*;
use crate::bitboard::{bit, set_rank, set_select, pext81, lo_word, hi_word, lemma_word_bits, lemma_set_rank_words, lemma_pext81_bit, lemma_set_select, lemma_set_rank_len, lemma_set_rank_lt, lemma_bit_and};
use crate::bits::{rank, popcount, pext_spec, pdep_spec, within, agree, below, lemma_u64_ext};
use crate::color::Color;
use crate::piece::Piece;
use crate::piece_type::PieceType;
use crate::rules::{StateView, occupied, color_set, type_set, king_square, king_at};
use crate::packed_state_info::{
    packed_kinds, promoted_set, kind_set, packed_occupied, squares_of_words, lemma_word_masks,
    lemma_low_masks, lemma_popcount_complement, lemma_masked_popcount, hand_color_bits, packed_hand_kind,
    full_count, kind_total, pack_fails, packed_words, unpacked_bishop_rook, unpacked_silver_gold,
    unpacked_king_bishop_rook, unpacked_kbrsg, unpacked_lance_knight, unpacked_non_pawn, unpacked_promoted,
    unpacked_pawn, unpacked_types, unpacked_counts, unpacked_colors, unpacked_occupied, unpacked_state,
    unpacked_hand_upto, unpacked_grid, grid_cell, spread, lowest_bit, hand_kind,
};
use crate::hand::hand_count;

verus! {

/// The kind of a piece type in the packing order (king, rook, bishop, gold, silver, knight,
/// lance, pawn); promoted types share the kind of their unpromoted type.
pub open spec fn kind_of(pt: PieceType) -> int {
    match pt {
        PieceType::King => 0,
        PieceType::Rook | PieceType::ProRook => 1,
        PieceType::Bishop | PieceType::ProBishop => 2,
        PieceType::Gold => 3,
        PieceType::Silver | PieceType::ProSilver => 4,
        PieceType::Knight | PieceType::ProKnight => 5,
        PieceType::Lance | PieceType::ProLance => 6,
        PieceType::Pawn | PieceType::ProPawn => 7,
    }
}

/// The number of occupied squares.
pub open spec fn piece_count(v: StateView) -> int {
    occupied(v.board).len() as int
}

/// The piece on the occupied square of rank `j`.
pub open spec fn piece_of_rank(v: StateView, j: int) -> Piece {
    v.board[set_select(occupied(v.board), j)]->Some_0
}

/// The packed bits of the squares `s` among the occupied squares.
pub open spec fn packed_set(v: StateView, s: Set<int>) -> u64 {
    pext81(s, occupied(v.board))
}

/// The occupied squares are counted by their ranks.
pub proof fn lemma_occupied_rank(v: StateView)
    requires
        v.board.len() == 81,
    ensures
        set_rank(occupied(v.board), 81) == piece_count(v),
        occupied(v.board).finite(),
        piece_count(v) <= 81,
{
    let occ = occupied(v.board);
    let range = vstd::set_lib::set_int_range(0, 81);
    vstd::set_lib::lemma_int_range(0, 81);
    assert(occ.subset_of(range));
    lemma_set_rank_len(occ, 81);
    assert(occ.intersect(range) =~= occ);
    vstd::set_lib::lemma_len_subset(occ, range);
}

/// The bit of rank `j` of the packed squares `s`: whether the occupied square of rank `j`
/// is in `s`.
pub proof fn lemma_packed_bit(v: StateView, s: Set<int>, j: u64)
    requires
        v.board.len() == 81,
        piece_count(v) <= 40,
        j < 64,
    ensures
        bit(packed_set(v, s), j) == ((j as int) < piece_count(v) && s.contains(set_select(occupied(v.board), j as int))),
        (j as int) < piece_count(v) ==> 0 <= set_select(occupied(v.board), j as int) < 81 && v.board[set_select(
            occupied(v.board),
            j as int,
        )] is Some,
{
    lemma_occupied_rank(v);
    lemma_pext81_bit(s, occupied(v.board), j);
    if (j as int) < piece_count(v) {
        lemma_set_select(occupied(v.board), j as int);
    }
}

/// The bits of rank `j` of the packed kinds, promoted pieces and Black pieces.
pub proof fn lemma_bit_table(v: StateView, j: u64)
    requires
        v.board.len() == 81,
        piece_count(v) <= 40,
        j < 64,
    ensures
        forall|g: int|
            0 <= g < 8 ==> #[trigger] bit(packed_kinds(v.board)[g], j) == ((j as int) < piece_count(v) && kind_of(
                piece_of_rank(v, j as int).piece_type,
            ) == g),
        bit(packed_set(v, promoted_set(v.board)), j) == ((j as int) < piece_count(v) && piece_of_rank(
            v,
            j as int,
        ).piece_type.idx() >= 8),
        bit(packed_set(v, color_set(v.board, Color::Black)), j) == ((j as int) < piece_count(v) && piece_of_rank(
            v,
            j as int,
        ).color == Color::Black),
{
    let pk = packed_kinds(v.board);
    assert forall|g: int| 0 <= g < 8 implies #[trigger] bit(pk[g], j) == ((j as int) < piece_count(v) && kind_of(
        piece_of_rank(v, j as int).piece_type,
    ) == g) by {
        lemma_packed_bit(v, kind_set(v.board, g), j);
    }
    lemma_packed_bit(v, promoted_set(v.board), j);
    lemma_packed_bit(v, color_set(v.board, Color::Black), j);
}

/// Lances and knights.
pub open spec fn lon_of(pk: Seq<u64>) -> u64 {
    pk[6] | pk[5]
}

/// Silvers and golds.
pub open spec fn sog_of(pk: Seq<u64>) -> u64 {
    pk[4] | pk[3]
}

/// Bishops and rooks.
pub open spec fn bor_of(pk: Seq<u64>) -> u64 {
    pk[2] | pk[1]
}

/// Kings, bishops and rooks.
pub open spec fn kbr_of(pk: Seq<u64>) -> u64 {
    pk[0] | bor_of(pk)
}

/// Kings, bishops, rooks, silvers and golds.
pub open spec fn kbrsg_of(pk: Seq<u64>) -> u64 {
    kbr_of(pk) | sog_of(pk)
}

/// The pieces other than pawns.
pub open spec fn np_of(pk: Seq<u64>) -> u64 {
    kbrsg_of(pk) | lon_of(pk)
}

/// The pieces other than kings and golds.
pub open spec fn q_of(pk: Seq<u64>) -> u64 {
    ((((pk[1] | pk[2]) | pk[4]) | pk[5]) | pk[6]) | pk[7]
}

/// The pieces other than kings.
pub open spec fn kc_of(pk: Seq<u64>) -> u64 {
    q_of(pk) | pk[3]
}

/// The distribution of bits over the combinations of kinds.
proof fn lemma_combination_bits(pk: Seq<u64>)
    ensures
        forall|i: u64| i < 64 ==> #[trigger] bit(lon_of(pk), i) == (bit(pk[6], i) || bit(pk[5], i)),
        forall|i: u64| i < 64 ==> #[trigger] bit(sog_of(pk), i) == (bit(pk[4], i) || bit(pk[3], i)),
        forall|i: u64| i < 64 ==> #[trigger] bit(bor_of(pk), i) == (bit(pk[2], i) || bit(pk[1], i)),
        forall|i: u64| i < 64 ==> #[trigger] bit(kbr_of(pk), i) == (bit(pk[0], i) || bit(bor_of(pk), i)),
        forall|i: u64| i < 64 ==> #[trigger] bit(kbrsg_of(pk), i) == (bit(kbr_of(pk), i) || bit(sog_of(pk), i)),
        forall|i: u64| i < 64 ==> #[trigger] bit(np_of(pk), i) == (bit(kbrsg_of(pk), i) || bit(lon_of(pk), i)),
        forall|i: u64|
            i < 64 ==> #[trigger] bit(q_of(pk), i) == (bit(pk[1], i) || bit(pk[2], i) || bit(pk[4], i) || bit(pk[5], i)
                || bit(pk[6], i) || bit(pk[7], i)),
        forall|i: u64| i < 64 ==> #[trigger] bit(kc_of(pk), i) == (bit(q_of(pk), i) || bit(pk[3], i)),
{
    crate::bits::lemma_bits_or(pk[6], pk[5]);
    crate::bits::lemma_bits_or(pk[4], pk[3]);
    crate::bits::lemma_bits_or(pk[2], pk[1]);
    crate::bits::lemma_bits_or(pk[0], bor_of(pk));
    crate::bits::lemma_bits_or(kbr_of(pk), sog_of(pk));
    crate::bits::lemma_bits_or(kbrsg_of(pk), lon_of(pk));
    crate::bits::lemma_bits_or(pk[1], pk[2]);
    crate::bits::lemma_bits_or(pk[1] | pk[2], pk[4]);
    crate::bits::lemma_bits_or((pk[1] | pk[2]) | pk[4], pk[5]);
    crate::bits::lemma_bits_or(((pk[1] | pk[2]) | pk[4]) | pk[5], pk[6]);
    crate::bits::lemma_bits_or((((pk[1] | pk[2]) | pk[4]) | pk[5]) | pk[6], pk[7]);
    crate::bits::lemma_bits_or(q_of(pk), pk[3]);
}

/// The kinds are parts of the combinations that the packing nests, and each combination
/// less one of its parts is the other.
pub proof fn lemma_kind_nesting(v: StateView)
    requires
        v.board.len() == 81,
        piece_count(v) <= 40,
    ensures
        within(packed_kinds(v.board)[2], bor_of(packed_kinds(v.board))),
        within(bor_of(packed_kinds(v.board)), kbr_of(packed_kinds(v.board))),
        within(packed_kinds(v.board)[4], sog_of(packed_kinds(v.board))),
        within(sog_of(packed_kinds(v.board)), kbrsg_of(packed_kinds(v.board))),
        within(kbr_of(packed_kinds(v.board)), kbrsg_of(packed_kinds(v.board))),
        within(packed_kinds(v.board)[6], lon_of(packed_kinds(v.board))),
        within(lon_of(packed_kinds(v.board)), np_of(packed_kinds(v.board))),
        within(kbrsg_of(packed_kinds(v.board)), np_of(packed_kinds(v.board))),
        bor_of(packed_kinds(v.board)) & !packed_kinds(v.board)[2] == packed_kinds(v.board)[1],
        kbr_of(packed_kinds(v.board)) & !bor_of(packed_kinds(v.board)) == packed_kinds(v.board)[0],
        sog_of(packed_kinds(v.board)) & !packed_kinds(v.board)[4] == packed_kinds(v.board)[3],
        kbrsg_of(packed_kinds(v.board)) & !sog_of(packed_kinds(v.board)) == kbr_of(packed_kinds(v.board)),
        lon_of(packed_kinds(v.board)) & !packed_kinds(v.board)[6] == packed_kinds(v.board)[5],
        np_of(packed_kinds(v.board)) & !lon_of(packed_kinds(v.board)) == kbrsg_of(packed_kinds(v.board)),
{
    let pk = packed_kinds(v.board);
    lemma_combination_bits(pk);
    assert forall|j: u64| j < 64 implies #[trigger] bit(pk[0], j) == ((j as int) < piece_count(v) && kind_of(
        piece_of_rank(v, j as int).piece_type,
    ) == 0) && bit(pk[1], j) == ((j as int) < piece_count(v) && kind_of(piece_of_rank(v, j as int).piece_type) == 1)
        && bit(pk[2], j) == ((j as int) < piece_count(v) && kind_of(piece_of_rank(v, j as int).piece_type) == 2)
        && bit(pk[3], j) == ((j as int) < piece_count(v) && kind_of(piece_of_rank(v, j as int).piece_type) == 3)
        && bit(pk[4], j) == ((j as int) < piece_count(v) && kind_of(piece_of_rank(v, j as int).piece_type) == 4)
        && bit(pk[5], j) == ((j as int) < piece_count(v) && kind_of(piece_of_rank(v, j as int).piece_type) == 5)
        && bit(pk[6], j) == ((j as int) < piece_count(v) && kind_of(piece_of_rank(v, j as int).piece_type) == 6)
        && bit(pk[7], j) == ((j as int) < piece_count(v) && kind_of(piece_of_rank(v, j as int).piece_type) == 7) by {
        lemma_bit_table(v, j);
    }
    crate::bits::lemma_bits_and(bor_of(pk), !pk[2]);
    crate::bits::lemma_bits_not(pk[2]);
    crate::bits::lemma_bits_and(kbr_of(pk), !bor_of(pk));
    crate::bits::lemma_bits_not(bor_of(pk));
    crate::bits::lemma_bits_and(sog_of(pk), !pk[4]);
    crate::bits::lemma_bits_not(pk[4]);
    crate::bits::lemma_bits_and(kbrsg_of(pk), !sog_of(pk));
    crate::bits::lemma_bits_not(sog_of(pk));
    crate::bits::lemma_bits_and(lon_of(pk), !pk[6]);
    crate::bits::lemma_bits_not(pk[6]);
    crate::bits::lemma_bits_and(np_of(pk), !lon_of(pk));
    crate::bits::lemma_bits_not(lon_of(pk));
    assert forall|j: u64| j < 64 implies bit(bor_of(pk) & !pk[2], j) == bit(pk[1], j) by {
        lemma_bit_table(v, j);
    }
    lemma_u64_ext(bor_of(pk) & !pk[2], pk[1]);
    assert forall|j: u64| j < 64 implies bit(kbr_of(pk) & !bor_of(pk), j) == bit(pk[0], j) by {
        lemma_bit_table(v, j);
    }
    lemma_u64_ext(kbr_of(pk) & !bor_of(pk), pk[0]);
    assert forall|j: u64| j < 64 implies bit(sog_of(pk) & !pk[4], j) == bit(pk[3], j) by {
        lemma_bit_table(v, j);
    }
    lemma_u64_ext(sog_of(pk) & !pk[4], pk[3]);
    assert forall|j: u64| j < 64 implies bit(kbrsg_of(pk) & !sog_of(pk), j) == bit(kbr_of(pk), j) by {
        lemma_bit_table(v, j);
    }
    lemma_u64_ext(kbrsg_of(pk) & !sog_of(pk), kbr_of(pk));
    assert forall|j: u64| j < 64 implies bit(lon_of(pk) & !pk[6], j) == bit(pk[5], j) by {
        lemma_bit_table(v, j);
    }
    lemma_u64_ext(lon_of(pk) & !pk[6], pk[5]);
    assert forall|j: u64| j < 64 implies bit(np_of(pk) & !lon_of(pk), j) == bit(kbrsg_of(pk), j) by {
        lemma_bit_table(v, j);
    }
    lemma_u64_ext(np_of(pk) & !lon_of(pk), kbrsg_of(pk));
}

/// A value whose bits are exactly those below `n` has `n` set bits.
proof fn lemma_popcount_low_bits(x: u64, n: int, k: int)
    requires
        0 <= k <= n <= 64,
        forall|i: u64| i < 64 ==> (#[trigger] bit(x, i) == ((i as int) < n)),
    ensures
        rank(x, k) == k,
        popcount(x) == n,
    decreases k,
{
    if k > 0 {
        lemma_popcount_low_bits(x, n, k - 1);
        assert(bit(x, (k - 1) as u64));
    }
    lemma_popcount_low_bits_top(x, n);
}

proof fn lemma_popcount_low_bits_top(x: u64, n: int)
    requires
        0 <= n <= 64,
        forall|i: u64| i < 64 ==> (#[trigger] bit(x, i) == ((i as int) < n)),
    ensures
        popcount(x) == n,
    decreases n,
{
    lemma_rank_low(x, n, n);
    assert forall|i: u64| n <= i < 64 implies !#[trigger] bit(x, i) by {}
    crate::bits::lemma_rank_top(x, n, 64);
}

proof fn lemma_rank_low(x: u64, n: int, k: int)
    requires
        0 <= k <= n <= 64,
        forall|i: u64| i < 64 ==> (#[trigger] bit(x, i) == ((i as int) < n)),
    ensures
        rank(x, k) == k,
    decreases k,
{
    if k > 0 {
        lemma_rank_low(x, n, k - 1);
        assert(bit(x, (k - 1) as u64));
    }
}

/// No rank holds two kinds.
proof fn lemma_kinds_disjoint(v: StateView)
    requires
        v.board.len() == 81,
        piece_count(v) <= 40,
    ensures
        forall|g1: int, g2: int, i: u64|
            0 <= g1 < 8 && 0 <= g2 < 8 && g1 != g2 && i < 64 ==> !(#[trigger] bit(packed_kinds(v.board)[g1], i)
                && #[trigger] bit(packed_kinds(v.board)[g2], i)),
{
    assert forall|g1: int, g2: int, i: u64|
        0 <= g1 < 8 && 0 <= g2 < 8 && g1 != g2 && i < 64 implies !(#[trigger] bit(packed_kinds(v.board)[g1], i)
            && #[trigger] bit(packed_kinds(v.board)[g2], i)) by {
        lemma_bit_table(v, i);
    }
}

/// Where the kinds, the promoted pieces and the Black pieces lie in rank space, and how
/// their numbers add up.
pub proof fn lemma_kind_ranges(v: StateView)
    requires
        v.board.len() == 81,
        piece_count(v) <= 40,
    ensures
        forall|g: int| 0 <= g < 8 ==> below(#[trigger] packed_kinds(v.board)[g], piece_count(v)),
        below(np_of(packed_kinds(v.board)), piece_count(v)),
        agree(!packed_kinds(v.board)[7], np_of(packed_kinds(v.board)), piece_count(v)),
        below(q_of(packed_kinds(v.board)), piece_count(v)),
        agree(!(packed_kinds(v.board)[0] | packed_kinds(v.board)[3]), q_of(packed_kinds(v.board)), piece_count(v)),
        below(kc_of(packed_kinds(v.board)), piece_count(v)),
        agree(!packed_kinds(v.board)[0], kc_of(packed_kinds(v.board)), piece_count(v)),
        within(packed_set(v, promoted_set(v.board)), q_of(packed_kinds(v.board))),
        below(packed_set(v, promoted_set(v.board)), piece_count(v)),
        below(packed_set(v, color_set(v.board, Color::Black)), piece_count(v)),
        packed_set(v, color_set(v.board, Color::Black)) & !packed_kinds(v.board)[0] == packed_set(
            v,
            color_set(v.board, Color::Black),
        ) & kc_of(packed_kinds(v.board)),
        within(packed_set(v, color_set(v.board, Color::Black)) & kc_of(packed_kinds(v.board)), kc_of(packed_kinds(v.board))),
        popcount(lon_of(packed_kinds(v.board))) == popcount(packed_kinds(v.board)[6]) + popcount(packed_kinds(v.board)[5]),
        popcount(sog_of(packed_kinds(v.board))) == popcount(packed_kinds(v.board)[4]) + popcount(packed_kinds(v.board)[3]),
        popcount(bor_of(packed_kinds(v.board))) == popcount(packed_kinds(v.board)[2]) + popcount(packed_kinds(v.board)[1]),
        popcount(kbr_of(packed_kinds(v.board))) == popcount(packed_kinds(v.board)[0]) + popcount(bor_of(packed_kinds(v.board))),
        popcount(kbrsg_of(packed_kinds(v.board))) == popcount(kbr_of(packed_kinds(v.board))) + popcount(sog_of(packed_kinds(v.board))),
        popcount(np_of(packed_kinds(v.board))) == popcount(kbrsg_of(packed_kinds(v.board))) + popcount(lon_of(packed_kinds(v.board))),
        popcount(q_of(packed_kinds(v.board))) == popcount(packed_kinds(v.board)[1]) + popcount(packed_kinds(v.board)[2])
            + popcount(packed_kinds(v.board)[4]) + popcount(packed_kinds(v.board)[5]) + popcount(packed_kinds(v.board)[6])
            + popcount(packed_kinds(v.board)[7]),
        popcount(kc_of(packed_kinds(v.board))) == popcount(q_of(packed_kinds(v.board))) + popcount(packed_kinds(v.board)[3]),
        popcount(kc_of(packed_kinds(v.board))) + popcount(packed_kinds(v.board)[0]) == piece_count(v),
{
    let pk = packed_kinds(v.board);
    let n = piece_count(v);
    let pr = packed_set(v, promoted_set(v.board));
    let bl = packed_set(v, color_set(v.board, Color::Black));
    lemma_combination_bits(pk);
    crate::bits::lemma_bits_not(pk[7]);
    crate::bits::lemma_bits_or(pk[0], pk[3]);
    crate::bits::lemma_bits_not(pk[0] | pk[3]);
    crate::bits::lemma_bits_not(pk[0]);
    crate::bits::lemma_bits_and(bl, !pk[0]);
    crate::bits::lemma_bits_and(bl, kc_of(pk));
    crate::bits::lemma_bits_or(kc_of(pk), pk[0]);
    assert forall|j: u64| j < 64 implies #[trigger] bit(pk[0], j) == ((j as int) < n && kind_of(
        piece_of_rank(v, j as int).piece_type,
    ) == 0) && bit(pk[1], j) == ((j as int) < n && kind_of(piece_of_rank(v, j as int).piece_type) == 1)
        && bit(pk[2], j) == ((j as int) < n && kind_of(piece_of_rank(v, j as int).piece_type) == 2)
        && bit(pk[3], j) == ((j as int) < n && kind_of(piece_of_rank(v, j as int).piece_type) == 3)
        && bit(pk[4], j) == ((j as int) < n && kind_of(piece_of_rank(v, j as int).piece_type) == 4)
        && bit(pk[5], j) == ((j as int) < n && kind_of(piece_of_rank(v, j as int).piece_type) == 5)
        && bit(pk[6], j) == ((j as int) < n && kind_of(piece_of_rank(v, j as int).piece_type) == 6)
        && bit(pk[7], j) == ((j as int) < n && kind_of(piece_of_rank(v, j as int).piece_type) == 7)
        && bit(pr, j) == ((j as int) < n && piece_of_rank(v, j as int).piece_type.idx() >= 8)
        && bit(bl, j) == ((j as int) < n && piece_of_rank(v, j as int).color == Color::Black) by {
        lemma_bit_table(v, j);
    }
    assert forall|g: int| 0 <= g < 8 implies below(#[trigger] pk[g], n) by {
        assert forall|i: u64| n <= (i as int) && i < 64 implies !#[trigger] bit(pk[g], i) by {
            lemma_bit_table(v, i);
        }
    }
    assert(below(np_of(pk), n));
    assert(below(q_of(pk), n));
    assert(below(kc_of(pk), n));
    assert forall|i: u64| n <= (i as int) && i < 64 implies !#[trigger] bit(pr, i) by {
        lemma_bit_table(v, i);
    }
    assert forall|i: u64| n <= (i as int) && i < 64 implies !#[trigger] bit(bl, i) by {
        lemma_bit_table(v, i);
    }
    assert forall|i: u64| i < 64 implies (#[trigger] bit(pr, i) ==> bit(q_of(pk), i)) by {
        lemma_bit_table(v, i);
    }
    assert forall|j: u64| j < 64 implies bit(bl & !pk[0], j) == bit(bl & kc_of(pk), j) by {
        lemma_bit_table(v, j);
    }
    lemma_u64_ext(bl & !pk[0], bl & kc_of(pk));
    lemma_kinds_disjoint(v);
    crate::bits::lemma_popcount_or(pk[6], pk[5]);
    crate::bits::lemma_popcount_or(pk[4], pk[3]);
    crate::bits::lemma_popcount_or(pk[2], pk[1]);
    crate::bits::lemma_popcount_or(pk[0], bor_of(pk));
    crate::bits::lemma_popcount_or(kbr_of(pk), sog_of(pk));
    crate::bits::lemma_popcount_or(kbrsg_of(pk), lon_of(pk));
    crate::bits::lemma_bits_or(pk[1], pk[2]);
    crate::bits::lemma_bits_or(pk[1] | pk[2], pk[4]);
    crate::bits::lemma_bits_or((pk[1] | pk[2]) | pk[4], pk[5]);
    crate::bits::lemma_bits_or(((pk[1] | pk[2]) | pk[4]) | pk[5], pk[6]);
    crate::bits::lemma_popcount_or(pk[1], pk[2]);
    crate::bits::lemma_popcount_or(pk[1] | pk[2], pk[4]);
    crate::bits::lemma_popcount_or((pk[1] | pk[2]) | pk[4], pk[5]);
    crate::bits::lemma_popcount_or(((pk[1] | pk[2]) | pk[4]) | pk[5], pk[6]);
    crate::bits::lemma_popcount_or((((pk[1] | pk[2]) | pk[4]) | pk[5]) | pk[6], pk[7]);
    crate::bits::lemma_popcount_or(q_of(pk), pk[3]);
    crate::bits::lemma_popcount_or(kc_of(pk), pk[0]);
    assert forall|i: u64| i < 64 implies (#[trigger] bit(kc_of(pk) | pk[0], i) == ((i as int) < n)) by {
        lemma_bit_table(v, i);
        if (i as int) < n {
            let k = kind_of(piece_of_rank(v, i as int).piece_type);
            assert(0 <= k < 8);
        }
    }
    lemma_popcount_low_bits_top(kc_of(pk) | pk[0], n);
}

/// The fields of the packed words, given that each fits its width.
proof fn lemma_word_fields(
    p: u64,
    sg: u64,
    br: u64,
    b: u64,
    ln: u64,
    l: u64,
    prom: u64,
    s: u64,
    oh: u64,
    color: u64,
    ol: u64,
    ko: u64,
)
    by (bit_vector)
    requires
        p < 0x100_0000_0000u64,
        sg < 0x4000u64,
        br < 0x40u64,
        b < 0x10u64,
        ln < 0x40_0000u64,
        l < 0x100u64,
        prom < 0x4_0000_0000u64,
        s < 0x100u64,
        oh < 0x4_0000u64,
        color < 0x40_0000_0000u64,
        ol < 0x8000_0000_0000_0000u64,
        ko <= 1,
    ensures
        ((((0u64 ^ p) ^ (sg << 40u64)) ^ (br << 54u64)) ^ (b << 60u64)) & 0xff_ffff_ffffu64 == p,
        !((((0u64 ^ p) ^ (sg << 40u64)) ^ (br << 54u64)) ^ (b << 60u64)) & 0xff_ffff_ffffu64 == !p & 0xff_ffff_ffffu64,
        (((((0u64 ^ p) ^ (sg << 40u64)) ^ (br << 54u64)) ^ (b << 60u64)) >> 40u64) & 0x3fffu64 == sg,
        (((((0u64 ^ p) ^ (sg << 40u64)) ^ (br << 54u64)) ^ (b << 60u64)) >> 54u64) & 0x3fu64 == br,
        (((((0u64 ^ p) ^ (sg << 40u64)) ^ (br << 54u64)) ^ (b << 60u64)) >> 60u64) & 0x0fu64 == b,
        (((0u64 ^ (ln << 34u64)) ^ (l << 56u64)) ^ prom) & 0x3_ffff_ffffu64 == prom,
        ((((0u64 ^ (ln << 34u64)) ^ (l << 56u64)) ^ prom) >> 34u64) & 0x3f_ffffu64 == ln,
        ((((0u64 ^ (ln << 34u64)) ^ (l << 56u64)) ^ prom) >> 56u64) & 0xffu64 == l,
        (((0u64 ^ (s << 18u64)) ^ oh) ^ (color << 26u64)) & 0x3_ffffu64 == oh,
        ((((0u64 ^ (s << 18u64)) ^ oh) ^ (color << 26u64)) >> 18u64) & 0xffu64 == s,
        ((((0u64 ^ (s << 18u64)) ^ oh) ^ (color << 26u64)) >> 26u64) & 0x3f_ffff_ffffu64 == color,
        ((0u64 ^ ol) ^ (ko << 63u64)) & 0x7fff_ffff_ffff_ffffu64 == ol,
        ((((0u64 ^ ol) ^ (ko << 63u64)) >> 63u64) & 1u64 == 1u64) == (ko == 1),
{
}

/// The occupied words of a state with at most 40 pieces on the board, as packed and as read
/// back: the side to move shows in how many of their bits are set.
pub proof fn lemma_occupancy(v: StateView)
    requires
        v.board.len() == 81,
        piece_count(v) <= 40,
    ensures
        lo_word(occupied(v.board)) < 0x8000_0000_0000_0000u64,
        hi_word(occupied(v.board)) < 0x4_0000u64,
        popcount(lo_word(occupied(v.board))) + popcount(hi_word(occupied(v.board))) == piece_count(v),
        squares_of_words(lo_word(occupied(v.board)), hi_word(occupied(v.board))) == occupied(v.board),
        packed_occupied(v).0 < 0x8000_0000_0000_0000u64,
        packed_occupied(v).1 < 0x4_0000u64,
        (popcount(packed_occupied(v).0) + popcount(packed_occupied(v).1) > 40) == (v.stm == Color::White),
        v.stm == Color::White ==> (!packed_occupied(v).0 & 0x7fff_ffff_ffff_ffffu64) == lo_word(occupied(v.board))
            && (!packed_occupied(v).1 & 0x3_ffffu64) == hi_word(occupied(v.board)),
        v.stm == Color::Black ==> packed_occupied(v).0 == lo_word(occupied(v.board)) && packed_occupied(v).1 == hi_word(
            occupied(v.board),
        ),
{
    let occ = occupied(v.board);
    let lo = lo_word(occ);
    let hi = hi_word(occ);
    lemma_occupied_rank(v);
    lemma_word_masks();
    lemma_low_masks();
    assert forall|i: u64| 63 <= (i as int) && i < 64 implies !#[trigger] bit(lo, i) by {
        lemma_word_bits(occ, i);
    }
    assert forall|i: u64| 18 <= (i as int) && i < 64 implies !#[trigger] bit(hi, i) by {
        lemma_word_bits(occ, i);
    }
    crate::bits::lemma_below_bound(lo, 63);
    crate::bits::lemma_below_bound(hi, 18);
    crate::bitboard::lemma_pow_consts();
    lemma_set_rank_words(occ, 81);
    crate::bits::lemma_rank_below(lo, 63);
    crate::bits::lemma_rank_below(hi, 18);
    assert forall|sq: int| #[trigger] squares_of_words(lo, hi).contains(sq) == occ.contains(sq) by {
        if 0 <= sq < 63 {
            lemma_word_bits(occ, sq as u64);
        } else if 63 <= sq < 81 {
            lemma_word_bits(occ, (sq - 63) as u64);
        }
    }
    assert(squares_of_words(lo, hi) =~= occ);
    if v.stm == Color::White {
        lemma_popcount_complement(lo, 0x7fff_ffff_ffff_ffffu64, 63, 63);
        lemma_popcount_complement(hi, 0x3_ffffu64, 18, 18);
        lemma_masked_popcount(!lo, 0x7fff_ffff_ffff_ffffu64, 63);
        lemma_masked_popcount(!hi, 0x3_ffffu64, 18);
        lemma_masked_popcount(lo, 0x7fff_ffff_ffff_ffffu64, 63);
        lemma_masked_popcount(hi, 0x3_ffffu64, 18);
    }
}

/// One step of the hand color bits: shifting in a block of `c` bits whose low `nb` are set.
proof fn lemma_hand_bits_step(x: u64, c: u64, nb: u64, t: u64)
    by (bit_vector)
    requires
        nb <= c,
        t + c <= 38,
        x < (1u64 << t),
    ensures
        ((x << c) | (((1u64 << nb) - 1u64) as u64)) < (1u64 << ((t + c) as u64)),
        ((x << c) | (((1u64 << nb) - 1u64) as u64)) & (((1u64 << c) - 1u64) as u64) == (((1u64 << nb) - 1u64) as u64),
        ((x << c) | (((1u64 << nb) - 1u64) as u64)) >> c == x,
        (1u64 << nb) >= 1u64,
        (1u64 << c) >= 1u64,
{
}

/// The color bits: those of the board below `s`, those of the hands above.
proof fn lemma_color_split(cb: u64, hb: u64, s: u64)
    by (bit_vector)
    requires
        s <= 38,
        cb < (1u64 << s),
        hb < (1u64 << ((38 - s) as u64)),
    ensures
        (cb | (hb << s)) < 0x40_0000_0000u64,
        (cb | (hb << s)) & (((1u64 << s) - 1u64) as u64) == cb,
        (cb | (hb << s)) >> s == hb,
        (1u64 << s) >= 1u64,
{
}

/// The pieces of a kind in both hands.
pub open spec fn hand_pieces(hand: Seq<u8>, pt: PieceType) -> int {
    hand_count(hand, Piece { piece_type: pt, color: Color::Black }) + hand_count(
        hand,
        Piece { piece_type: pt, color: Color::White },
    )
}

/// The pieces in hand of the first `k` kinds in packing order.
pub open spec fn hand_total_upto(hand: Seq<u8>, k: nat) -> int
    decreases k,
{
    if k == 0 {
        0
    } else {
        hand_total_upto(hand, (k - 1) as nat) + hand_pieces(hand, packed_hand_kind(k - 1))
    }
}

/// The hand color bits fit in as many bits as there are pieces in hand.
proof fn lemma_hand_color_bound(hand: Seq<u8>, k: nat)
    requires
        k <= 7,
        hand_total_upto(hand, 7) <= 38,
    ensures
        0 <= hand_total_upto(hand, k) <= hand_total_upto(hand, 7),
        hand_color_bits(hand, k) < (1u64 << (hand_total_upto(hand, k) as u64)),
    decreases k,
{
    lemma_hand_total_mono(hand, k, 7);
    if k == 0 {
        assert(0u64 < (1u64 << 0u64)) by (bit_vector);
    } else {
        lemma_hand_color_bound(hand, (k - 1) as nat);
        let pt = packed_hand_kind(k - 1);
        let nb = hand_count(hand, Piece { piece_type: pt, color: Color::Black });
        let nw = hand_count(hand, Piece { piece_type: pt, color: Color::White });
        lemma_hand_bits_step(
            hand_color_bits(hand, (k - 1) as nat),
            (nb + nw) as u64,
            nb as u64,
            hand_total_upto(hand, (k - 1) as nat) as u64,
        );
    }
}

/// The running total of pieces in hand only grows.
proof fn lemma_hand_total_mono(hand: Seq<u8>, k: nat, m: nat)
    requires
        k <= m,
    ensures
        0 <= hand_total_upto(hand, k) <= hand_total_upto(hand, m),
    decreases m,
{
    if k < m {
        lemma_hand_total_mono(hand, k, (m - 1) as nat);
    } else if k > 0 {
        lemma_hand_total_mono(hand, (k - 1) as nat, (k - 1) as nat);
    }
}

/// The numbers of pieces on the board, by kind, of a state that packs; and the pieces in
/// hand of each kind make up the rest of a full set.
pub proof fn lemma_kind_counts(v: StateView)
    requires
        v.board.len() == 81,
        v.hand.len() == 14,
        !pack_fails(v),
    ensures
        piece_count(v) <= 40,
        popcount(packed_kinds(v.board)[0]) == 2,
        popcount(packed_kinds(v.board)[1]) <= 2,
        popcount(packed_kinds(v.board)[2]) <= 2,
        popcount(packed_kinds(v.board)[3]) <= 4,
        popcount(packed_kinds(v.board)[4]) <= 4,
        popcount(packed_kinds(v.board)[5]) <= 4,
        popcount(packed_kinds(v.board)[6]) <= 4,
        popcount(packed_kinds(v.board)[7]) <= 18,
        forall|i: int|
            0 <= i < 7 ==> #[trigger] hand_pieces(v.hand, packed_hand_kind(i)) == full_count(packed_hand_kind(i)) - popcount(
                packed_kinds(v.board)[i + 1],
            ),
        hand_total_upto(v.hand, 7) == 40 - piece_count(v),
        piece_count(v) >= 2,
{
    let pk = packed_kinds(v.board);
    assert forall|i: int| 0 <= i < 7 implies #[trigger] hand_pieces(v.hand, packed_hand_kind(i)) == full_count(
        packed_hand_kind(i),
    ) - popcount(pk[i + 1]) by {
        assert(kind_total(v.hand, pk, packed_hand_kind(i)) == full_count(packed_hand_kind(i)));
        assert(packed_hand_kind(i).idx() == i + 1);
    }
    assert(hand_pieces(v.hand, packed_hand_kind(0)) == 2 - popcount(pk[1]));
    assert(hand_pieces(v.hand, packed_hand_kind(1)) == 2 - popcount(pk[2]));
    assert(hand_pieces(v.hand, packed_hand_kind(2)) == 4 - popcount(pk[3]));
    assert(hand_pieces(v.hand, packed_hand_kind(3)) == 4 - popcount(pk[4]));
    assert(hand_pieces(v.hand, packed_hand_kind(4)) == 4 - popcount(pk[5]));
    assert(hand_pieces(v.hand, packed_hand_kind(5)) == 4 - popcount(pk[6]));
    assert(hand_pieces(v.hand, packed_hand_kind(6)) == 18 - popcount(pk[7]));
    lemma_kind_ranges(v);
    reveal_with_fuel(hand_total_upto, 8);
}

/// The fields of the packed words of a state that packs.
pub proof fn lemma_fields(v: StateView)
    requires
        v.board.len() == 81,
        v.hand.len() == 14,
        !pack_fails(v),
    ensures
        ({
            let w = packed_words(v);
            let pk = packed_kinds(v.board);
            let n = piece_count(v);
            let cb = pext_spec(packed_set(v, color_set(v.board, Color::Black)), !pk[0]);
            let hb = hand_color_bits(v.hand, 7);
            &&& w[2] & 0xff_ffff_ffffu64 == pk[7]
            &&& !w[2] & 0xff_ffff_ffffu64 == !pk[7] & 0xff_ffff_ffffu64
            &&& (w[2] >> 40u64) & 0x3fffu64 == pext_spec(sog_of(pk), kbrsg_of(pk))
            &&& (w[2] >> 54u64) & 0x3fu64 == pext_spec(bor_of(pk), kbr_of(pk))
            &&& (w[2] >> 60u64) & 0x0fu64 == pext_spec(pk[2], bor_of(pk))
            &&& w[3] & 0x3_ffff_ffffu64 == pext_spec(packed_set(v, promoted_set(v.board)), q_of(pk))
            &&& (w[3] >> 34u64) & 0x3f_ffffu64 == pext_spec(lon_of(pk), np_of(pk))
            &&& (w[3] >> 56u64) & 0xffu64 == pext_spec(pk[6], lon_of(pk))
            &&& w[1] & 0x3_ffffu64 == packed_occupied(v).1
            &&& (w[1] >> 18u64) & 0xffu64 == pext_spec(pk[4], sog_of(pk))
            &&& (w[1] >> 26u64) & 0x3f_ffff_ffffu64 == (cb | (hb << ((n - 2) as u64)))
            &&& w[0] & 0x7fff_ffff_ffff_ffffu64 == packed_occupied(v).0
            &&& (((w[0] >> 63u64) & 1u64 == 1u64) == (king_square(v.board, Color::Black)->Some_0 < king_square(
                v.board,
                Color::White,
            )->Some_0))
            &&& cb == pext_spec(packed_set(v, color_set(v.board, Color::Black)) & kc_of(pk), kc_of(pk))
            &&& (cb | (hb << ((n - 2) as u64))) & (((1u64 << ((n - 2) as u64)) - 1u64) as u64) == cb
            &&& (cb | (hb << ((n - 2) as u64))) >> ((n - 2) as u64) == hb
        }),
{
    let w = packed_words(v);
    let pk = packed_kinds(v.board);
    let n = piece_count(v);
    let occ = occupied(v.board);
    let pr = packed_set(v, promoted_set(v.board));
    let bl = packed_set(v, color_set(v.board, Color::Black));
    lemma_kind_counts(v);
    lemma_kind_ranges(v);
    lemma_kind_nesting(v);
    lemma_occupancy(v);
    lemma_word_masks();
    // The extracts that the words hold, over masks with junk above the pieces.
    crate::bits::lemma_pext_junk(lon_of(pk), !pk[7], np_of(pk), n);
    crate::bits::lemma_pext_junk(pr, !(pk[0] | pk[3]), q_of(pk), n);
    crate::bits::lemma_pext_mask(bl, !pk[0]);
    crate::bits::lemma_pext_junk(bl & kc_of(pk), !pk[0], kc_of(pk), n);
    let cb = pext_spec(bl, !pk[0]);
    let hb = hand_color_bits(v.hand, 7);
    // Their widths.
    crate::bits::lemma_pext_below(sog_of(pk), kbrsg_of(pk));
    crate::bits::lemma_pext_below(bor_of(pk), kbr_of(pk));
    crate::bits::lemma_pext_below(pk[2], bor_of(pk));
    crate::bits::lemma_pext_below(lon_of(pk), np_of(pk));
    crate::bits::lemma_pext_below(pk[6], lon_of(pk));
    crate::bits::lemma_pext_below(pr, q_of(pk));
    crate::bits::lemma_pext_below(pk[4], sog_of(pk));
    crate::bits::lemma_pext_below(bl & kc_of(pk), kc_of(pk));
    crate::bits::lemma_below_bound(pk[7], 40);
    crate::bits::lemma_below_bound(pext_spec(sog_of(pk), kbrsg_of(pk)), 14);
    crate::bits::lemma_below_bound(pext_spec(bor_of(pk), kbr_of(pk)), 6);
    crate::bits::lemma_below_bound(pext_spec(pk[2], bor_of(pk)), 4);
    crate::bits::lemma_below_bound(pext_spec(lon_of(pk), np_of(pk)), 22);
    crate::bits::lemma_below_bound(pext_spec(pk[6], lon_of(pk)), 8);
    crate::bits::lemma_below_bound(pext_spec(pr, q_of(pk)), 34);
    crate::bits::lemma_below_bound(pext_spec(pk[4], sog_of(pk)), 8);
    crate::bits::lemma_below_bound(cb, (n - 2) as u64);
    lemma_hand_color_bound(v.hand, 7);
    lemma_color_split(cb, hb, (n - 2) as u64);
    let color = cb | (hb << ((n - 2) as u64));
    let ko: u64 = if king_square(v.board, Color::Black)->Some_0 < king_square(v.board, Color::White)->Some_0 {
        1
    } else {
        0
    };
    lemma_word_fields(
        pk[7],
        pext_spec(sog_of(pk), kbrsg_of(pk)),
        pext_spec(bor_of(pk), kbr_of(pk)),
        pext_spec(pk[2], bor_of(pk)),
        pext_spec(lon_of(pk), np_of(pk)),
        pext_spec(pk[6], lon_of(pk)),
        pext_spec(pr, q_of(pk)),
        pext_spec(pk[4], sog_of(pk)),
        packed_occupied(v).1,
        color,
        packed_occupied(v).0,
        ko,
    );
}

/// Each kind lies within the combinations that hold it.
pub proof fn lemma_kind_within(v: StateView)
    requires
        v.board.len() == 81,
        piece_count(v) <= 40,
    ensures
        within(packed_kinds(v.board)[0], kbr_of(packed_kinds(v.board))),
        within(packed_kinds(v.board)[1], kbr_of(packed_kinds(v.board))),
        within(packed_kinds(v.board)[2], kbr_of(packed_kinds(v.board))),
        within(packed_kinds(v.board)[0], kbrsg_of(packed_kinds(v.board))),
        within(packed_kinds(v.board)[1], kbrsg_of(packed_kinds(v.board))),
        within(packed_kinds(v.board)[2], kbrsg_of(packed_kinds(v.board))),
        within(packed_kinds(v.board)[3], kbrsg_of(packed_kinds(v.board))),
        within(packed_kinds(v.board)[4], kbrsg_of(packed_kinds(v.board))),
        within(packed_kinds(v.board)[5], lon_of(packed_kinds(v.board))),
        forall|g: int| 0 <= g < 7 ==> within(#[trigger] packed_kinds(v.board)[g], np_of(packed_kinds(v.board))),
{
    let pk = packed_kinds(v.board);
    lemma_combination_bits(pk);
    assert forall|j: u64| j < 64 implies #[trigger] bit(pk[0], j) == ((j as int) < piece_count(v) && kind_of(
        piece_of_rank(v, j as int).piece_type,
    ) == 0) && bit(pk[1], j) == ((j as int) < piece_count(v) && kind_of(piece_of_rank(v, j as int).piece_type) == 1)
        && bit(pk[2], j) == ((j as int) < piece_count(v) && kind_of(piece_of_rank(v, j as int).piece_type) == 2)
        && bit(pk[3], j) == ((j as int) < piece_count(v) && kind_of(piece_of_rank(v, j as int).piece_type) == 3)
        && bit(pk[4], j) == ((j as int) < piece_count(v) && kind_of(piece_of_rank(v, j as int).piece_type) == 4)
        && bit(pk[5], j) == ((j as int) < piece_count(v) && kind_of(piece_of_rank(v, j as int).piece_type) == 5)
        && bit(pk[6], j) == ((j as int) < piece_count(v) && kind_of(piece_of_rank(v, j as int).piece_type) == 6)
        && bit(pk[7], j) == ((j as int) < piece_count(v) && kind_of(piece_of_rank(v, j as int).piece_type) == 7) by {
        lemma_bit_table(v, j);
    }
    assert forall|g: int| 0 <= g < 7 implies within(#[trigger] pk[g], np_of(pk)) by {
        assert forall|i: u64| i < 64 implies (#[trigger] bit(pk[g], i) ==> bit(np_of(pk), i)) by {
            lemma_bit_table(v, i);
        }
    }
    assert(within(pk[0], kbr_of(pk)));
    assert(within(pk[1], kbr_of(pk)));
    assert(within(pk[2], kbr_of(pk)));
    assert(within(pk[0], kbrsg_of(pk)));
    assert(within(pk[1], kbrsg_of(pk)));
    assert(within(pk[2], kbrsg_of(pk)));
    assert(within(pk[3], kbrsg_of(pk)));
    assert(within(pk[4], kbrsg_of(pk)));
    assert(within(pk[5], lon_of(pk)));
}

/// The low `w` bits of `!x & (2^w - 1)` are those of `!x`.
proof fn lemma_masked_not_agree(x: u64, w: u64, c: int)
    requires
        w < 64,
        0 <= c <= w,
    ensures
        agree(!x & (((1u64 << w) - 1u64) as u64), !x, c),
{
    assert forall|i: u64| (i as int) < c && i < 64 implies #[trigger] bit(!x & (((1u64 << w) - 1u64) as u64), i) == bit(
        !x,
        i,
    ) by {
        lemma_bit_and(!x, ((1u64 << w) - 1u64) as u64, i);
        crate::bitboard::lemma_bit_bound(0, w, i);
    }
}

/// Read back, the kings, bishops, rooks, silvers and golds among kings, bishops, rooks,
/// silvers and golds: exact but for kings, which may carry bits past the count.
#[verifier::spinoff_prover]
pub proof fn lemma_decode_kbrsg_space(v: StateView)
    requires
        v.board.len() == 81,
        v.hand.len() == 14,
        !pack_fails(v),
    ensures
        ({
            let w = packed_words(v);
            let pk = packed_kinds(v.board);
            let kbrsg = kbrsg_of(pk);
            &&& unpacked_king_bishop_rook(w).1 == pext_spec(pk[2], kbrsg)
            &&& unpacked_king_bishop_rook(w).2 == pext_spec(pk[1], kbrsg)
            &&& agree(unpacked_king_bishop_rook(w).0, pext_spec(pk[0], kbrsg), popcount(kbrsg) as int)
            &&& unpacked_silver_gold(w).0 == pext_spec(pk[4], kbrsg)
            &&& unpacked_silver_gold(w).1 == pext_spec(pk[3], kbrsg)
        }),
{
    let w = packed_words(v);
    let pk = packed_kinds(v.board);
    let bor = bor_of(pk);
    let kbr = kbr_of(pk);
    let sog = sog_of(pk);
    let kbrsg = kbrsg_of(pk);
    let c1 = popcount(kbrsg) as int;
    lemma_fields(v);
    lemma_kind_nesting(v);
    lemma_kind_within(v);
    lemma_kind_counts(v);
    lemma_kind_ranges(v);
    lemma_word_masks();
    let sg = pext_spec(sog, kbrsg);
    let br6 = pext_spec(bor, kbr);
    let b4 = pext_spec(pk[2], bor);
    let s8 = pext_spec(pk[4], sog);
    // Bishops and rooks among kings, bishops and rooks.
    crate::bits::lemma_pdep_pext_comp(pk[2], bor, kbr);
    crate::bits::lemma_pdep_not_comp(pk[2], bor, kbr);
    assert(unpacked_bishop_rook(w) == (pext_spec(pk[2], kbr), pext_spec(pk[1], kbr)));
    // Silvers and golds.
    crate::bits::lemma_pdep_pext_comp(pk[4], sog, kbrsg);
    crate::bits::lemma_pdep_not_comp(pk[4], sog, kbrsg);
    // The mask of kings, bishops and rooks, with bits past the count.
    let kbr14 = !sg & 0x3fffu64;
    let m0 = pext_spec(kbr, kbrsg);
    assert(((1u64 << 14u64) - 1u64) as u64 == 0x3fffu64);
    lemma_masked_not_agree(sg, 14, c1);
    crate::bits::lemma_not_pext(sog, kbrsg);
    assert(agree(kbr14, m0, c1));
    crate::bits::lemma_pext_below(kbr, kbrsg);
    crate::bits::lemma_popcount_pext(kbr, kbrsg);
    // Bishops.
    let xb = pext_spec(pk[2], kbr);
    crate::bits::lemma_pext_below(pk[2], kbr);
    crate::bits::lemma_pdep_junk(xb, kbr14, m0, c1);
    crate::bits::lemma_pdep_pext_comp(pk[2], kbr, kbrsg);
    crate::bits::lemma_pext_below(pk[2], kbrsg);
    crate::bits::lemma_agree_below_eq(pdep_spec(xb, kbr14), pext_spec(pk[2], kbrsg), c1);
    // Rooks.
    let xr = pext_spec(pk[1], kbr);
    crate::bits::lemma_pext_below(pk[1], kbr);
    crate::bits::lemma_pdep_junk(xr, kbr14, m0, c1);
    crate::bits::lemma_pdep_pext_comp(pk[1], kbr, kbrsg);
    crate::bits::lemma_pext_below(pk[1], kbrsg);
    crate::bits::lemma_agree_below_eq(pdep_spec(xr, kbr14), pext_spec(pk[1], kbrsg), c1);
    // Kings.
    crate::bits::lemma_pdep_junk(!br6, kbr14, m0, c1);
    crate::bits::lemma_pdep_not_comp(bor, kbr, kbrsg);
}

/// Read back, the kinds among the pieces other than pawns: exact but for kings, which may
/// carry bits past the count.
#[verifier::spinoff_prover]
pub proof fn lemma_decode_np_space(v: StateView)
    requires
        v.board.len() == 81,
        v.hand.len() == 14,
        !pack_fails(v),
    ensures
        ({
            let w = packed_words(v);
            let pk = packed_kinds(v.board);
            let np = np_of(pk);
            &&& unpacked_kbrsg(w).1 == pext_spec(pk[2], np)
            &&& unpacked_kbrsg(w).2 == pext_spec(pk[1], np)
            &&& unpacked_kbrsg(w).3 == pext_spec(pk[4], np)
            &&& unpacked_kbrsg(w).4 == pext_spec(pk[3], np)
            &&& agree(unpacked_kbrsg(w).0, pext_spec(pk[0], np), popcount(np) as int)
            &&& unpacked_lance_knight(w).0 == pext_spec(pk[6], np)
            &&& unpacked_lance_knight(w).1 == pext_spec(pk[5], np)
        }),
{
    let w = packed_words(v);
    let pk = packed_kinds(v.board);
    let lon = lon_of(pk);
    let kbrsg = kbrsg_of(pk);
    let np = np_of(pk);
    let c1 = popcount(kbrsg) as int;
    let c2 = popcount(np) as int;
    lemma_fields(v);
    lemma_kind_nesting(v);
    lemma_kind_within(v);
    lemma_kind_counts(v);
    lemma_kind_ranges(v);
    lemma_word_masks();
    lemma_decode_kbrsg_space(v);
    let lon22 = pext_spec(lon, np);
    let m22 = !lon22 & 0x3f_ffffu64;
    let m1 = pext_spec(kbrsg, np);
    assert(((1u64 << 22u64) - 1u64) as u64 == 0x3f_ffffu64);
    lemma_masked_not_agree(lon22, 22, c2);
    crate::bits::lemma_not_pext(lon, np);
    assert(agree(m22, m1, c2));
    crate::bits::lemma_pext_below(kbrsg, np);
    crate::bits::lemma_popcount_pext(kbrsg, np);
    // Bishops, rooks, silvers and golds.
    crate::bits::lemma_pext_below(pk[2], kbrsg);
    crate::bits::lemma_pdep_junk(pext_spec(pk[2], kbrsg), m22, m1, c2);
    crate::bits::lemma_pdep_pext_comp(pk[2], kbrsg, np);
    crate::bits::lemma_pext_below(pk[2], np);
    crate::bits::lemma_agree_below_eq(pdep_spec(pext_spec(pk[2], kbrsg), m22), pext_spec(pk[2], np), c2);
    crate::bits::lemma_pext_below(pk[1], kbrsg);
    crate::bits::lemma_pdep_junk(pext_spec(pk[1], kbrsg), m22, m1, c2);
    crate::bits::lemma_pdep_pext_comp(pk[1], kbrsg, np);
    crate::bits::lemma_pext_below(pk[1], np);
    crate::bits::lemma_agree_below_eq(pdep_spec(pext_spec(pk[1], kbrsg), m22), pext_spec(pk[1], np), c2);
    crate::bits::lemma_pext_below(pk[4], kbrsg);
    crate::bits::lemma_pdep_junk(pext_spec(pk[4], kbrsg), m22, m1, c2);
    crate::bits::lemma_pdep_pext_comp(pk[4], kbrsg, np);
    crate::bits::lemma_pext_below(pk[4], np);
    crate::bits::lemma_agree_below_eq(pdep_spec(pext_spec(pk[4], kbrsg), m22), pext_spec(pk[4], np), c2);
    crate::bits::lemma_pext_below(pk[3], kbrsg);
    crate::bits::lemma_pdep_junk(pext_spec(pk[3], kbrsg), m22, m1, c2);
    crate::bits::lemma_pdep_pext_comp(pk[3], kbrsg, np);
    crate::bits::lemma_pext_below(pk[3], np);
    crate::bits::lemma_agree_below_eq(pdep_spec(pext_spec(pk[3], kbrsg), m22), pext_spec(pk[3], np), c2);
    // Kings.
    let k_ks = unpacked_king_bishop_rook(w).0;
    crate::bits::lemma_pdep_junk(k_ks, m22, m1, c2);
    crate::bits::lemma_pdep_low(k_ks, pext_spec(pk[0], kbrsg), m1);
    crate::bits::lemma_pdep_pext_comp(pk[0], kbrsg, np);
    // Lances and knights.
    crate::bits::lemma_pdep_pext_comp(pk[6], lon, np);
    crate::bits::lemma_pdep_not_comp(pk[6], lon, np);
}

/// Read back, the kinds among the pieces of the board (but pawns): exact but for kings,
/// which may carry bits past the number of pieces.
#[verifier::spinoff_prover]
pub proof fn lemma_decode_board_space(v: StateView)
    requires
        v.board.len() == 81,
        v.hand.len() == 14,
        !pack_fails(v),
    ensures
        ({
            let w = packed_words(v);
            let pk = packed_kinds(v.board);
            let np40 = unpacked_non_pawn(w);
            &&& agree(np40[0], pk[0], piece_count(v))
            &&& np40[1] == pk[1]
            &&& np40[2] == pk[2]
            &&& np40[3] == pk[3]
            &&& np40[4] == pk[4]
            &&& np40[5] == pk[5]
            &&& np40[6] == pk[6]
            &&& unpacked_pawn(w) == pk[7]
        }),
{
    let w = packed_words(v);
    let pk = packed_kinds(v.board);
    let np = np_of(pk);
    let n = piece_count(v);
    let c2 = popcount(np) as int;
    lemma_fields(v);
    lemma_kind_within(v);
    lemma_kind_counts(v);
    lemma_kind_ranges(v);
    lemma_word_masks();
    lemma_decode_np_space(v);
    let m = !w[2] & 0xff_ffff_ffffu64;
    assert(((1u64 << 40u64) - 1u64) as u64 == 0xff_ffff_ffffu64);
    lemma_masked_not_agree(pk[7], 40, n);
    assert(agree(m, np, n));
    assert forall|g: int| 1 <= g < 7 implies pdep_spec(pext_spec(#[trigger] pk[g], np), m) == pk[g] by {
        crate::bits::lemma_pext_below(pk[g], np);
        crate::bits::lemma_pdep_junk(pext_spec(pk[g], np), m, np, n);
        crate::bits::lemma_pdep_pext(pk[g], np);
        crate::bits::lemma_agree_below_eq(pdep_spec(pext_spec(pk[g], np), m), pk[g], n);
    }
    assert(pdep_spec(pext_spec(pk[1], np), m) == pk[1]);
    assert(pdep_spec(pext_spec(pk[2], np), m) == pk[2]);
    assert(pdep_spec(pext_spec(pk[3], np), m) == pk[3]);
    assert(pdep_spec(pext_spec(pk[4], np), m) == pk[4]);
    assert(pdep_spec(pext_spec(pk[5], np), m) == pk[5]);
    assert(pdep_spec(pext_spec(pk[6], np), m) == pk[6]);
    let k_np = unpacked_kbrsg(w).0;
    crate::bits::lemma_pdep_junk(k_np, m, np, n);
    crate::bits::lemma_pdep_low(k_np, pext_spec(pk[0], np), np);
    crate::bits::lemma_pdep_pext(pk[0], np);
}

/// The squares of the type with index `t`, packed.
pub open spec fn type_bits(v: StateView, t: int) -> u64 {
    packed_set(v, type_set(v.board, t))
}

/// The bit of rank `j` of the squares of a type: whether the piece of rank `j` has that type.
proof fn lemma_type_bit(v: StateView, t: int, j: u64)
    requires
        v.board.len() == 81,
        piece_count(v) <= 40,
        j < 64,
    ensures
        bit(type_bits(v, t), j) == ((j as int) < piece_count(v) && piece_of_rank(v, j as int).piece_type.idx() == t),
{
    lemma_packed_bit(v, type_set(v.board, t), j);
}

/// Read back, the promoted pieces, the pieces of each type and the numbers in hand.
#[verifier::spinoff_prover]
pub proof fn lemma_decode_types(v: StateView)
    requires
        v.board.len() == 81,
        v.hand.len() == 14,
        !pack_fails(v),
    ensures
        unpacked_promoted(packed_words(v)) == packed_set(v, promoted_set(v.board)),
        forall|t: int| 0 <= t < 14 ==> agree(#[trigger] unpacked_types(packed_words(v))[t], type_bits(v, t), piece_count(v)),
        forall|i: int| 0 <= i < 7 ==> #[trigger] unpacked_counts(packed_words(v))[i] == hand_pieces(v.hand, hand_kind(i)),
{
    let w = packed_words(v);
    let pk = packed_kinds(v.board);
    let n = piece_count(v);
    let pr = packed_set(v, promoted_set(v.board));
    let q = q_of(pk);
    lemma_fields(v);
    lemma_kind_counts(v);
    lemma_kind_ranges(v);
    lemma_decode_board_space(v);
    let np40 = unpacked_non_pawn(w);
    // Promoted pieces.
    let mask = !np40[0] & !np40[3];
    crate::bits::lemma_bits_and(!np40[0], !np40[3]);
    crate::bits::lemma_bits_not(np40[0]);
    crate::bits::lemma_bits_not(np40[3]);
    crate::bits::lemma_bits_not(pk[0] | pk[3]);
    crate::bits::lemma_bits_or(pk[0], pk[3]);
    assert forall|i: u64| (i as int) < n && i < 64 implies #[trigger] bit(mask, i) == bit(q, i) by {
        assert(bit(np40[0], i) == bit(pk[0], i));
        assert(bit(!(pk[0] | pk[3]), i) == bit(q, i));
        assert(bit(np40[3], i) == bit(pk[3], i));
    }
    assert(agree(mask, q, n));
    crate::bits::lemma_pext_below(pr, q);
    crate::bits::lemma_pdep_junk(pext_spec(pr, q), mask, q, n);
    crate::bits::lemma_pdep_pext(pr, q);
    crate::bits::lemma_agree_below_eq(unpacked_promoted(w), pr, n);
    // The types.
    let types = unpacked_types(w);
    crate::bits::lemma_bits_not(pr);
    assert forall|t: int| 0 <= t < 14 implies agree(#[trigger] types[t], type_bits(v, t), n) by {
        assert forall|j: u64| (j as int) < n && j < 64 implies #[trigger] bit(types[t], j) == bit(type_bits(v, t), j) by {
            lemma_bit_table(v, j);
            lemma_type_bit(v, t, j);
            crate::bits::lemma_bits_and(pk[1], !pr);
            crate::bits::lemma_bits_and(pk[2], !pr);
            crate::bits::lemma_bits_and(pk[4], !pr);
            crate::bits::lemma_bits_and(pk[5], !pr);
            crate::bits::lemma_bits_and(pk[6], !pr);
            crate::bits::lemma_bits_and(pk[7], !pr);
            crate::bits::lemma_bits_and(pk[1], pr);
            crate::bits::lemma_bits_and(pk[2], pr);
            crate::bits::lemma_bits_and(pk[4], pr);
            crate::bits::lemma_bits_and(pk[5], pr);
            crate::bits::lemma_bits_and(pk[6], pr);
            crate::bits::lemma_bits_and(pk[7], pr);
            assert(bit(np40[0], j) == bit(pk[0], j));
        }
    }
    // The numbers in hand.
    assert forall|i: int| 0 <= i < 7 implies #[trigger] unpacked_counts(w)[i] == hand_pieces(v.hand, hand_kind(i)) by {
        assert(hand_kind(i) == packed_hand_kind(6 - i));
        assert(hand_pieces(v.hand, packed_hand_kind(6 - i)) == full_count(packed_hand_kind(6 - i)) - popcount(
            pk[7 - i],
        ));
    }
}

/// A king stands on some square: then there is a lowest such square.
proof fn lemma_lowest_king(board: Seq<Option<Piece>>, c: Color, i0: int)
    requires
        king_at(board, i0, c),
    ensures
        exists|m: int| king_at(board, m, c) && forall|j: int| 0 <= j < m ==> !king_at(board, j, c),
    decreases i0,
{
    if exists|j: int| 0 <= j < i0 && king_at(board, j, c) {
        let j = choose|j: int| 0 <= j < i0 && king_at(board, j, c);
        lemma_lowest_king(board, c, j);
    } else {
        assert(king_at(board, i0, c) && forall|j: int| 0 <= j < i0 ==> !king_at(board, j, c));
    }
}

/// The king square of a color holds a king of that color.
pub proof fn lemma_king_square_holds_king(board: Seq<Option<Piece>>, c: Color)
    requires
        king_square(board, c) is Some,
    ensures
        king_at(board, king_square(board, c)->Some_0, c),
{
    let i0 = choose|i: int| king_at(board, i, c);
    lemma_lowest_king(board, c, i0);
}

/// A value with exactly two set bits, at `a` and `b`, has no other.
proof fn lemma_two_bits(x: u64, a: int, b: int)
    requires
        0 <= a < b < 64,
        bit(x, a as u64),
        bit(x, b as u64),
        popcount(x) == 2,
    ensures
        forall|i: u64| i < 64 && #[trigger] bit(x, i) ==> i == a || i == b,
{
    assert forall|i: u64| i < 64 && #[trigger] bit(x, i) implies i == a || i == b by {
        let ii = i as int;
        if ii < a {
            crate::bits::lemma_rank_mono(x, ii, a);
            crate::bits::lemma_rank_mono(x, a, b);
            crate::bits::lemma_rank_mono(x, b, 64);
        } else if a < ii && ii < b {
            crate::bits::lemma_rank_mono(x, a, ii);
            crate::bits::lemma_rank_mono(x, ii, b);
            crate::bits::lemma_rank_mono(x, b, 64);
        } else if ii > b {
            crate::bits::lemma_rank_mono(x, a, b);
            crate::bits::lemma_rank_mono(x, b, ii);
            crate::bits::lemma_rank_mono(x, ii, 64);
        }
    }
}

/// The ranks of the two kings among the occupied squares: the kings are exactly there.
pub proof fn lemma_king_ranks(v: StateView)
    requires
        v.board.len() == 81,
        v.hand.len() == 14,
        !pack_fails(v),
    ensures
        ({
            let occ = occupied(v.board);
            let pk = packed_kinds(v.board);
            let kb = king_square(v.board, Color::Black)->Some_0;
            let kw = king_square(v.board, Color::White)->Some_0;
            let rb = set_rank(occ, kb) as int;
            let rw = set_rank(occ, kw) as int;
            let bl = packed_set(v, color_set(v.board, Color::Black));
            &&& 0 <= rb < piece_count(v)
            &&& 0 <= rw < piece_count(v)
            &&& rb != rw
            &&& (kb < kw) == (rb < rw)
            &&& forall|i: u64| i < 64 ==> (#[trigger] bit(pk[0], i) == (i == rb || i == rw))
            &&& bit(bl, rb as u64)
            &&& !bit(bl, rw as u64)
        }),
{
    let occ = occupied(v.board);
    let pk = packed_kinds(v.board);
    let n = piece_count(v);
    let kb = king_square(v.board, Color::Black)->Some_0;
    let kw = king_square(v.board, Color::White)->Some_0;
    lemma_kind_counts(v);
    lemma_occupied_rank(v);
    lemma_king_square_holds_king(v.board, Color::Black);
    lemma_king_square_holds_king(v.board, Color::White);
    assert(occ.contains(kb) && occ.contains(kw) && kb != kw);
    let rb = set_rank(occ, kb) as int;
    let rw = set_rank(occ, kw) as int;
    lemma_set_rank_lt(occ, kb);
    lemma_set_rank_lt(occ, kw);
    lemma_set_select(occ, rb);
    lemma_set_select(occ, rw);
    if kb < kw {
        crate::bitboard::lemma_set_rank_mono(occ, kb, kw);
    } else {
        crate::bitboard::lemma_set_rank_mono(occ, kw, kb);
    }
    lemma_bit_table(v, rb as u64);
    lemma_bit_table(v, rw as u64);
    assert(set_select(occ, rb) == kb);
    assert(set_select(occ, rw) == kw);
    assert(bit(pk[0], rb as u64));
    assert(bit(pk[0], rw as u64));
    if rb < rw {
        lemma_two_bits(pk[0], rb, rw);
    } else {
        lemma_two_bits(pk[0], rw, rb);
    }
}

/// Read back, the colors of the pieces of the board and the color bits of the hands.
#[verifier::spinoff_prover]
pub proof fn lemma_decode_colors(v: StateView)
    requires
        v.board.len() == 81,
        v.hand.len() == 14,
        !pack_fails(v),
    ensures
        agree(
            unpacked_colors(packed_words(v), unpacked_types(packed_words(v))[0], piece_count(v) as nat).0,
            packed_set(v, color_set(v.board, Color::Black)),
            piece_count(v),
        ),
        unpacked_colors(packed_words(v), unpacked_types(packed_words(v))[0], piece_count(v) as nat).1 == hand_color_bits(
            v.hand,
            7,
        ),
{
    let w = packed_words(v);
    let pk = packed_kinds(v.board);
    let n = piece_count(v);
    let kc = kc_of(pk);
    let bl = packed_set(v, color_set(v.board, Color::Black));
    let kb = king_square(v.board, Color::Black)->Some_0;
    let kw = king_square(v.board, Color::White)->Some_0;
    let rb = set_rank(occupied(v.board), kb) as int;
    let rw = set_rank(occupied(v.board), kw) as int;
    lemma_fields(v);
    lemma_kind_counts(v);
    lemma_kind_ranges(v);
    lemma_decode_board_space(v);
    lemma_king_ranks(v);
    lemma_word_masks();
    let king = unpacked_non_pawn(w)[0];
    assert(unpacked_types(w)[0] == king);
    assert(agree(king, pk[0], n));
    // The pieces other than kings.
    let mask = ((1u64 << (n as u64)) - 1u64) as u64;
    let non_king = !king & mask;
    assert forall|i: u64| i < 64 implies #[trigger] bit(mask, i) == ((i as int) < n) by {
        crate::bitboard::lemma_bit_bound(0, n as u64, i);
    }
    crate::bits::lemma_bits_and(!king, mask);
    crate::bits::lemma_bits_not(king);
    crate::bits::lemma_bits_not(pk[0]);
    assert forall|i: u64| (i as int) < n && i < 64 implies #[trigger] bit(non_king, i) == bit(kc, i) by {
        assert(bit(king, i) == bit(pk[0], i));
        assert(bit(!pk[0], i) == bit(kc, i));
    }
    assert(agree(non_king, kc, n));
    assert(below(non_king, n));
    crate::bits::lemma_agree_below_eq(non_king, kc, n);
    let cb = pext_spec(bl & kc, kc);
    crate::bits::lemma_pdep_pext(bl & kc, kc);
    // The king of each color.
    crate::bits::lemma_bits_and(bl, kc);
    crate::bits::lemma_bits_and(bl, pk[0]);
    let low = lowest_bit(king);
    let high = king ^ low;
    let lo_rank = if rb < rw {
        rb
    } else {
        rw
    };
    assert(bit(king, lo_rank as u64));
    if king == 0 {
        crate::bitboard::lemma_bit_zero(lo_rank as u64);
    }
    crate::bitboard::lemma_lowest_bit(king);
    let tz = king.trailing_zeros() as u64;
    if tz < lo_rank {
        assert(bit(pk[0], tz));
    }
    assert(tz == lo_rank);
    assert(low == 1u64 << tz);
    assert forall|i: u64| i < 64 implies #[trigger] bit(low, i) == (i == tz) by {
        crate::bitboard::lemma_bit_single(tz, i);
    }
    crate::bits::lemma_bits_xor(king, low);
    let black_first = (w[0] >> 63u64) & 1u64 == 1u64;
    let king_colors = if black_first {
        low
    } else {
        high
    };
    assert forall|i: u64| (i as int) < n && i < 64 implies #[trigger] bit(king_colors, i) == bit(bl & pk[0], i) by {
        lemma_bit_table(v, i);
    }
    let bc = unpacked_colors(w, king, n as nat).0;
    assert(bc == pdep_spec(cb, non_king) | king_colors);
    crate::bits::lemma_bits_or(pdep_spec(cb, non_king), king_colors);
    assert forall|i: u64| (i as int) < n && i < 64 implies #[trigger] bit(bc, i) == bit(bl, i) by {
        lemma_bit_table(v, i);
        lemma_combination_bits(pk);
    }
}

/// The hand with the first `k` kinds (pawn first) as in `hand` and the others empty.
pub open spec fn hand_prefix(hand: Seq<u8>, k: int) -> Seq<u8> {
    Seq::new(14, |s: int| if s % 7 < k { hand[s] } else { 0u8 })
}

/// Reading the hands back kind by kind, pawn first, fills the hands in and consumes the
/// color bits from the low end.
#[verifier::spinoff_prover]
#[verifier::rlimit(40)]
proof fn lemma_decode_hand_upto(v: StateView, k: nat)
    requires
        v.board.len() == 81,
        v.hand.len() == 14,
        !pack_fails(v),
        k <= 7,
    ensures
        unpacked_hand_upto(unpacked_counts(packed_words(v)), hand_color_bits(v.hand, 7), k) == (
            hand_prefix(v.hand, k as int),
            hand_color_bits(v.hand, (7 - k) as nat),
        ),
    decreases k,
{
    let counts = unpacked_counts(packed_words(v));
    let hb = hand_color_bits(v.hand, 7);
    lemma_kind_counts(v);
    lemma_decode_types(v);
    if k == 0 {
        assert(hand_prefix(v.hand, 0) =~= Seq::new(14, |i: int| 0u8));
    } else {
        let i = (k - 1) as int;
        lemma_decode_hand_upto(v, (k - 1) as nat);
        let (h, c) = unpacked_hand_upto(counts, hb, (k - 1) as nat);
        let pt = hand_kind(i);
        assert(pt == packed_hand_kind(6 - i));
        let bp = Piece { piece_type: pt, color: Color::Black };
        let wp = Piece { piece_type: pt, color: Color::White };
        let nb = hand_count(v.hand, bp);
        let nw = hand_count(v.hand, wp);
        let count = counts[i];
        assert(count == nb + nw);
        let t = hand_total_upto(v.hand, (6 - i) as nat);
        lemma_hand_color_bound(v.hand, (6 - i) as nat);
        lemma_hand_total_mono(v.hand, (7 - i) as nat, 7);
        let x = hand_color_bits(v.hand, (6 - i) as nat);
        assert(c == hand_color_bits(v.hand, (7 - i) as nat));
        assert(c == (x << (count as u64)) | (((1u64 << (nb as u64)) - 1u64) as u64));
        lemma_hand_bits_step(x, count as u64, nb as u64, t as u64);
        let low = ((1u64 << (nb as u64)) - 1u64) as u64;
        assert forall|j: u64| j < 64 implies (#[trigger] bit(low, j) == ((j as int) < nb)) by {
            crate::bitboard::lemma_bit_bound(0, nb as u64, j);
        }
        lemma_popcount_low_bits_top(low, nb as int);
        assert(crate::hand::hand_slot(bp) == Some(i));
        assert(crate::hand::hand_slot(wp) == Some(i + 7));
        assert(unpacked_hand_upto(counts, hb, k).0 =~= hand_prefix(v.hand, k as int));
    }
}

/// Read back, the hands.
pub proof fn lemma_decode_hand(v: StateView)
    requires
        v.board.len() == 81,
        v.hand.len() == 14,
        !pack_fails(v),
    ensures
        unpacked_hand_upto(unpacked_counts(packed_words(v)), hand_color_bits(v.hand, 7), 7).0 == v.hand,
{
    lemma_decode_hand_upto(v, 7);
    assert(hand_prefix(v.hand, 7) =~= v.hand);
}

/// Spreading bits that agree with the packed squares `s` over the occupied squares gives
/// `s` back.
proof fn lemma_spread_back(v: StateView, x: u64, sq_set: Set<int>)
    requires
        v.board.len() == 81,
        piece_count(v) <= 40,
        sq_set.subset_of(occupied(v.board)),
        agree(x, packed_set(v, sq_set), piece_count(v)),
    ensures
        spread(x, occupied(v.board)) == sq_set,
{
    let occ = occupied(v.board);
    lemma_occupied_rank(v);
    assert forall|sq: int| #[trigger] spread(x, occ).contains(sq) == sq_set.contains(sq) by {
        if occ.contains(sq) {
            lemma_set_rank_lt(occ, sq);
            let j = set_rank(occ, sq) as int;
            lemma_set_select(occ, j);
            lemma_packed_bit(v, sq_set, j as u64);
        }
    }
    assert(spread(x, occ) =~= sq_set);
}

/// The piece of a square when exactly the type with index `i` holds it (none when `i` is
/// not below `k`).
proof fn lemma_grid_cell(types: Seq<Set<int>>, black: Set<int>, sq: int, k: nat, i: int)
    requires
        forall|t: int| 0 <= t < k ==> #[trigger] types[t].contains(sq) == (t == i),
    ensures
        grid_cell(types, black, sq, k) == if 0 <= i < k {
            Some(
                Piece {
                    piece_type: crate::piece_type::pt_of_index(i),
                    color: if black.contains(sq) {
                        Color::Black
                    } else {
                        Color::White
                    },
                },
            )
        } else {
            None
        },
    decreases k,
{
    if k > 0 {
        lemma_grid_cell(types, black, sq, (k - 1) as nat, i);
        assert(types[k - 1].contains(sq) == (k - 1 == i));
    }
}

/// Unpacking the packed words of a state that packs gives the state back, at the ply asked
/// for: the board, both hands and the side to move survive packing.
#[verifier::spinoff_prover]
pub proof fn lemma_pack_roundtrip(v: StateView, ply: u16)
    requires
        v.board.len() == 81,
        v.hand.len() == 14,
        !pack_fails(v),
    ensures
        unpacked_state(packed_words(v), ply) == (StateView { ply, ..v }),
{
    let w = packed_words(v);
    let occ = occupied(v.board);
    let n = piece_count(v);
    lemma_kind_counts(v);
    lemma_fields(v);
    lemma_occupancy(v);
    lemma_word_masks();
    assert(unpacked_occupied(w) == (lo_word(occ), hi_word(occ), v.stm));
    let types = unpacked_types(w);
    lemma_decode_types(v);
    lemma_decode_colors(v);
    lemma_decode_hand(v);
    let (bc, hc) = unpacked_colors(w, types[0], n as nat);
    let black = spread(bc, occ);
    lemma_spread_back(v, bc, color_set(v.board, Color::Black));
    let type_sets = Seq::new(14, |t: int| spread(types[t], occ));
    assert forall|t: int| 0 <= t < 14 implies #[trigger] type_sets[t] == type_set(v.board, t) by {
        lemma_spread_back(v, types[t], type_set(v.board, t));
    }
    let grid = unpacked_grid(type_sets, black);
    assert forall|sq: int| 0 <= sq < 81 implies #[trigger] grid[sq] == v.board[sq] by {
        match v.board[sq] {
            Some(p) => {
                lemma_grid_cell(type_sets, black, sq, 14, p.piece_type.idx());
            },
            None => {
                lemma_grid_cell(type_sets, black, sq, 14, -1);
            },
        }
    }
    assert(grid =~= v.board);
    let r = unpacked_state(w, ply);
    assert(r.board == grid);
    assert(r.hand == v.hand);
}


/// Whether a state packs does not depend on which of the two squares each king stands on:
/// exchanging the Black king on `a` and the White king on `b` gives a state that packs exactly
/// when the first does (so the order of the two kings never stops a state from packing).
pub proof fn lemma_packing_ignores_king_order(v: StateView, a: int, b: int)
    requires
        v.board.len() == 81,
        0 <= a < 81,
        0 <= b < 81,
        v.board[a] == Some(Piece { piece_type: PieceType::King, color: Color::Black }),
        v.board[b] == Some(Piece { piece_type: PieceType::King, color: Color::White }),
    ensures
        pack_fails(v) == pack_fails(StateView { board: v.board.update(a, v.board[b]).update(b, v.board[a]), ..v }),
{
    let b1 = v.board;
    let b2 = b1.update(a, b1[b]).update(b, b1[a]);
    let v2 = StateView { board: b2, ..v };
    assert(occupied(b2) =~= occupied(b1));
    assert forall|g: int| 0 <= g < 8 implies #[trigger] kind_set(b2, g) =~= kind_set(b1, g) by {
        assert(type_set(b2, g) =~= type_set(b1, g));
        assert(type_set(b2, crate::packed_state_info::promoted_index(g)) =~= type_set(
            b1,
            crate::packed_state_info::promoted_index(g),
        ));
    }
    assert(packed_kinds(b2) =~= packed_kinds(b1));
    assert(king_at(b2, b, Color::Black));
    assert(king_at(b2, a, Color::White));
    assert(king_at(b1, a, Color::Black));
    assert(king_at(b1, b, Color::White));
}


/// Shifting up by `s` bits a value whose bits all lie below `64 - s` keeps its set bits.
proof fn lemma_rank_shl(x: u64, s: u64, i: int)
    requires
        s < 64,
        0 <= i <= 64 - s,
    ensures
        rank(x << s, s + i) == rank(x, i),
        rank(x << s, s as int) == 0,
    decreases i,
{
    if i > 0 {
        lemma_rank_shl(x, s, i - 1);
        crate::bitboard::lemma_bit_shl(x, s, (s + i - 1) as u64);
        assert((s + i - 1 - s) as u64 == (i - 1) as u64);
    } else {
        lemma_rank_shl_zero(x, s, s as int);
    }
}

/// No bit below `s` of `x << s` is set.
proof fn lemma_rank_shl_zero(x: u64, s: u64, k: int)
    requires
        s < 64,
        0 <= k <= s,
    ensures
        rank(x << s, k) == 0,
    decreases k,
{
    if k > 0 {
        lemma_rank_shl_zero(x, s, k - 1);
        crate::bitboard::lemma_bit_shl(x, s, (k - 1) as u64);
    }
}

/// The number of squares of `s` among the squares `m` is the number of set bits of their
/// packing, when `m` has at most 64 squares.
pub proof fn lemma_popcount_pext81(s: Set<int>, m: Set<int>)
    requires
        s.subset_of(m),
        m.subset_of(vstd::set_lib::set_int_range(0, 81)),
        set_rank(m, 81) <= 64,
    ensures
        popcount(pext81(s, m)) == set_rank(s, 81),
{
    let ls = lo_word(s);
    let lm = lo_word(m);
    let hs = hi_word(s);
    let hm = hi_word(m);
    assert forall|i: u64| i < 64 implies (#[trigger] bit(ls, i) ==> bit(lm, i)) by {
        lemma_word_bits(s, i);
        lemma_word_bits(m, i);
    }
    assert forall|i: u64| i < 64 implies (#[trigger] bit(hs, i) ==> bit(hm, i)) by {
        lemma_word_bits(s, i);
        lemma_word_bits(m, i);
    }
    assert forall|i: u64| 63 <= i < 64 implies !#[trigger] bit(lm, i) && !bit(ls, i) by {
        lemma_word_bits(s, i);
        lemma_word_bits(m, i);
    }
    assert forall|i: u64| 18 <= i < 64 implies !#[trigger] bit(hm, i) && !bit(hs, i) by {
        lemma_word_bits(s, i);
        lemma_word_bits(m, i);
    }
    crate::bits::lemma_rank_top(lm, 63, 64);
    crate::bits::lemma_rank_top(ls, 63, 64);
    crate::bits::lemma_rank_top(hm, 18, 64);
    crate::bits::lemma_rank_top(hs, 18, 64);
    lemma_set_rank_words(m, 81);
    lemma_set_rank_words(s, 81);
    let c = popcount(lm);
    crate::bits::lemma_rank_bound(lm, 63);
    let a = pext_spec(ls, lm);
    let b = pext_spec(hs, hm);
    crate::bits::lemma_popcount_pext(ls, lm);
    crate::bits::lemma_popcount_pext(hs, hm);
    let cs = c as u64;
    let sh = b << cs;
    assert(popcount(hm) <= 64 - c);
    crate::bits::lemma_rank_top(b, popcount(hm) as int, 64 - c);
    crate::bits::lemma_rank_top(b, popcount(hm) as int, 64);
    lemma_rank_shl(b, cs, 64 - c);
    assert(popcount(sh) == popcount(b));
    assert forall|i: u64| i < 64 implies !(#[trigger] bit(a, i) && bit(sh, i)) by {
        crate::bitboard::lemma_bit_shl(b, cs, i);
    }
    crate::bits::lemma_popcount_or(a, sh);
}

/// A state packs when its board holds at most 40 pieces, exactly one king of each color
/// (wherever they stand), and each kind of hand piece makes a full set with the pieces of that
/// kind (promoted or not) on the board and in both hands.
pub proof fn lemma_packs_when_complete(v: StateView)
    requires
        v.board.len() == 81,
        v.hand.len() == 14,
        occupied(v.board).len() <= 40,
        king_square(v.board, Color::Black) is Some,
        king_square(v.board, Color::White) is Some,
        crate::rules::single_king(v.board, Color::Black),
        crate::rules::single_king(v.board, Color::White),
        forall|pt: PieceType|
            pt.hand_piece() ==> #[trigger] hand_count(v.hand, Piece { piece_type: pt, color: Color::Black })
                + hand_count(v.hand, Piece { piece_type: pt, color: Color::White }) + kind_set(v.board, pt.idx()).len()
                == full_count(pt),
    ensures
        !pack_fails(v),
{
    let b = v.board;
    let occ = occupied(b);
    let range = vstd::set_lib::set_int_range(0, 81);
    vstd::set_lib::lemma_int_range(0, 81);
    lemma_occupied_rank(v);
    assert(occ.subset_of(range));
    let pk = packed_kinds(b);
    assert forall|g: int| 0 <= g < 8 implies popcount(#[trigger] pk[g]) == kind_set(b, g).len() by {
        let ks = kind_set(b, g);
        assert(ks.subset_of(occ));
        lemma_popcount_pext81(ks, occ);
        assert(ks.subset_of(range));
        lemma_set_rank_len(ks, 81);
        assert(ks.intersect(range) =~= ks);
    }
    let kb = king_square(b, Color::Black)->Some_0;
    let kw = king_square(b, Color::White)->Some_0;
    lemma_king_square_holds_king(b, Color::Black);
    lemma_king_square_holds_king(b, Color::White);
    assert(kind_set(b, 0) =~= set![kb, kw]) by {
        assert forall|i: int| kind_set(b, 0).contains(i) implies i == kb || i == kw by {
            let p = b[i]->Some_0;
            if p.color == Color::Black {
                assert(king_at(b, i, Color::Black));
            } else {
                assert(king_at(b, i, Color::White));
            }
        }
    }
    assert(kb != kw);
    assert(set![kb, kw].len() == 2) by {
        assert(set![kb, kw] =~= set![kb].insert(kw));
    }
    assert forall|i: int| 0 <= i < 7 implies #[trigger] kind_total(v.hand, pk, packed_hand_kind(i)) == full_count(
        packed_hand_kind(i),
    ) by {
        let pt = packed_hand_kind(i);
        assert(pt.hand_piece());
        assert(hand_count(v.hand, Piece { piece_type: pt, color: Color::Black }) + hand_count(
            v.hand,
            Piece { piece_type: pt, color: Color::White },
        ) + kind_set(b, pt.idx()).len() == full_count(pt));
        assert(0 <= pt.idx() < 8);
        assert(popcount(pk[pt.idx()]) == kind_set(b, pt.idx()).len());
    }
}

} // verus!
