//! Zobrist hashing of board states, with keys drawn from a seeded ChaCha8 generator.
use vstd::prelude::*;
use rand::Rng;
use rand::SeedableRng;
use rand_chacha::ChaCha8Rng;
use crate::color::Color;
use crate::hand::hand_count;
use crate::piece::Piece;
use crate::piece_type::{PieceType, pt_of_index};
use crate::rules::StateView;
use crate::square::Square;

verus! {

/// Zobrist hash value type.
pub type ZobristHash = u64;

/// Fixed seed of the key generator.
pub const ZOBRIST_SEED: u64 = 0x5408_12DB_8157_5EED;

/// Number of keys: 14 piece types x 2 colors x 81 squares, one side-to-move key, and
/// 7 hand piece types x 2 colors x 19 counts.
pub const NUM_KEYS: usize = 2535;

/// First key of the side to move.
pub const SIDE_KEY: usize = 2268;

/// First hand key.
pub const HAND_KEYS: usize = 2269;

/// The first `count` values that `Rng::gen::<u64>` draws from a `ChaCha8Rng` created by
/// `SeedableRng::seed_from_u64(seed)`.
pub uninterp spec fn chacha8_u64s(seed: u64, count: nat) -> Seq<u64>;

/// Draws `count` values of type `u64` with `Rng::gen` from a `ChaCha8Rng` seeded by
/// `SeedableRng::seed_from_u64(seed)`: the result is the named stream for these arguments
/// (the generator is deterministic for a given seed), and holds `count` values.
#[verifier::external_body]
fn chacha8_stream(seed: u64, count: usize) -> (r: Vec<u64>)
    ensures
        r@ == chacha8_u64s(seed, count as nat),
        r@.len() == count,
{
    let mut rng = ChaCha8Rng::seed_from_u64(seed);
    (0..count).map(|_| rng.gen::<u64>()).collect()
}

/// Index of a piece type among the hand piece types (Pawn, Lance, Knight, Silver, Gold,
/// Rook, Bishop), as used by the hand keys.
pub open spec fn hand_key_index(pt: PieceType) -> Option<int> {
    match pt {
        PieceType::Pawn => Some(0),
        PieceType::Lance => Some(1),
        PieceType::Knight => Some(2),
        PieceType::Silver => Some(3),
        PieceType::Gold => Some(4),
        PieceType::Rook => Some(5),
        PieceType::Bishop => Some(6),
        _ => None,
    }
}

/// The key of piece `p` on square index `sq`.
pub open spec fn board_key(keys: Seq<u64>, p: Piece, sq: int) -> u64 {
    keys[p.piece_type.idx() * 162 + p.color.idx() * 81 + sq]
}

/// The key of piece `p` held `count` times (0 for pieces that cannot be held, and for counts
/// beyond 18, which no position with the standard set of pieces reaches).
pub open spec fn hand_key(keys: Seq<u64>, p: Piece, count: u8) -> u64 {
    match hand_key_index(p.piece_type) {
        Some(i) => if count < 19 {
            keys[HAND_KEYS + i * 38 + p.color.idx() * 19 + count]
        } else {
            0
        },
        None => 0,
    }
}

/// The contribution of square `i` holding `cell`.
pub open spec fn cell_key(keys: Seq<u64>, cell: Option<Piece>, i: int) -> u64 {
    match cell {
        Some(p) => board_key(keys, p, i),
        None => 0,
    }
}

/// XOR of the keys of the pieces on squares `0..k`.
pub open spec fn board_fold(keys: Seq<u64>, board: Seq<Option<Piece>>, k: int) -> u64
    decreases k,
{
    if k <= 0 {
        0
    } else {
        board_fold(keys, board, k - 1) ^ cell_key(keys, board[k - 1], k - 1)
    }
}

/// The hand piece looked at in the `j`-th hand term: Black then White, each over Rook,
/// Bishop, Gold, Silver, Knight, Lance, Pawn.
pub open spec fn hand_term_piece(j: int) -> Piece {
    Piece {
        piece_type: pt_of_index(j % 7 + 1),
        color: if j < 7 {
            Color::Black
        } else {
            Color::White
        },
    }
}

/// `start` XOR the keys of the first `n` hand terms.
pub open spec fn hand_fold(keys: Seq<u64>, hand: Seq<u8>, start: u64, n: int) -> u64
    decreases n,
{
    if n <= 0 {
        start
    } else {
        hand_fold(keys, hand, start, n - 1) ^ hand_key(
            keys,
            hand_term_piece(n - 1),
            hand_count(hand, hand_term_piece(n - 1)),
        )
    }
}

/// The Zobrist hash of a state: XOR of the keys of the pieces on the board, of the side to
/// move if White, and of each hand count.
pub open spec fn state_hash(keys: Seq<u64>, v: StateView) -> u64 {
    hand_fold(
        keys,
        v.hand,
        board_fold(keys, v.board, 81) ^ (if v.stm == Color::White {
            keys[SIDE_KEY as int]
        } else {
            0
        }),
        14,
    )
}

/// The table of Zobrist keys.
#[derive(Clone, Debug)]
pub struct Zobrist {
    keys: Vec<u64>,
}

impl Zobrist {
    /// The keys.
    pub closed spec fn keys(&self) -> Seq<u64> {
        self.keys@
    }

    /// The keys are the generator's stream for the fixed seed.
    pub open spec fn wf(&self) -> bool {
        &&& self.keys() == chacha8_u64s(ZOBRIST_SEED, NUM_KEYS as nat)
        &&& self.keys().len() == NUM_KEYS
    }

    /// Draws the keys from the generator seeded with the fixed seed.
    pub fn init() -> (r: Zobrist)
        ensures
            r.wf(),
    {
        Zobrist { keys: chacha8_stream(ZOBRIST_SEED, NUM_KEYS) }
    }

    /// Returns the key of a piece on a square.
    pub fn board_hash(&self, piece: Piece, sq: Square) -> (r: u64)
        requires
            self.wf(),
        ensures
            r == board_key(self.keys(), piece, sq.idx()),
    {
        self.keys[piece.piece_type.index() * 162 + piece.color.index() * 81 + sq.index()]
    }

    /// Returns the key of the side to move.
    pub fn side_to_move_hash(&self) -> (r: u64)
        requires
            self.wf(),
        ensures
            r == self.keys()[SIDE_KEY as int],
    {
        self.keys[SIDE_KEY]
    }

    /// Returns the key of a piece held `count` times.
    pub fn hand_hash(&self, piece: Piece, count: u8) -> (r: u64)
        requires
            self.wf(),
        ensures
            r == hand_key(self.keys(), piece, count),
    {
        match hand_piece_index(piece.piece_type) {
            Some(idx) => {
                if count < 19 {
                    self.keys[HAND_KEYS + idx * 38 + piece.color.index() * 19 + count as usize]
                } else {
                    0
                }
            },
            None => 0,
        }
    }
}

/// Converts a piece type to its index among the hand keys.
fn hand_piece_index(pt: PieceType) -> (r: Option<usize>)
    ensures
        match hand_key_index(pt) {
            Some(i) => r == Some(i as usize) && 0 <= i < 7,
            None => r is None,
        },
{
    match pt {
        PieceType::Pawn => Some(0),
        PieceType::Lance => Some(1),
        PieceType::Knight => Some(2),
        PieceType::Silver => Some(3),
        PieceType::Gold => Some(4),
        PieceType::Rook => Some(5),
        PieceType::Bishop => Some(6),
        _ => None,
    }
}

/// XOR is associative and commutative, self-inverse, with zero as identity.
pub proof fn lemma_xor(a: u64, b: u64, c: u64)
    by (bit_vector)
    ensures
        (a ^ b) ^ c == a ^ (b ^ c),
        a ^ b == b ^ a,
        a ^ a == 0,
        a ^ 0 == a,
{
}

/// Changing one square changes the board fold by the old and new contributions.
pub proof fn lemma_board_fold_update(keys: Seq<u64>, board: Seq<Option<Piece>>, k: int, i: int, x: Option<Piece>)
    requires
        0 <= i < board.len(),
        k <= board.len(),
    ensures
        board_fold(keys, board.update(i, x), k) == (if 0 <= i < k {
            board_fold(keys, board, k) ^ (cell_key(keys, board[i], i) ^ cell_key(keys, x, i))
        } else {
            board_fold(keys, board, k)
        }),
    decreases k,
{
    if k > 0 {
        lemma_board_fold_update(keys, board, k - 1, i, x);
        let b2 = board.update(i, x);
        let f = board_fold(keys, board, k - 1);
        let d = cell_key(keys, board[i], i) ^ cell_key(keys, x, i);
        let t = cell_key(keys, board[k - 1], k - 1);
        if k - 1 == i {
            lemma_xor(f, cell_key(keys, board[i], i), cell_key(keys, board[i], i));
            lemma_xor(f, cell_key(keys, board[i], i), cell_key(keys, x, i));
            lemma_xor(cell_key(keys, board[i], i), cell_key(keys, board[i], i), cell_key(keys, x, i));
            lemma_xor(0, cell_key(keys, x, i), 0);
            lemma_xor(cell_key(keys, x, i), 0, 0);
            lemma_xor(f ^ cell_key(keys, board[i], i), cell_key(keys, board[i], i), cell_key(keys, x, i));
            lemma_xor(f, cell_key(keys, board[i], i) ^ cell_key(keys, board[i], i), cell_key(keys, x, i));
            lemma_xor(f, 0, cell_key(keys, x, i));
            lemma_xor(f, 0, 0);
        } else if i < k - 1 {
            lemma_xor(f, d, t);
            lemma_xor(f, t, d);
            lemma_xor(d, t, 0);
        }
    }
}

/// XOR-ing the start of a hand fold XORs its result.
pub proof fn lemma_hand_fold_start(keys: Seq<u64>, hand: Seq<u8>, start: u64, d: u64, n: int)
    ensures
        hand_fold(keys, hand, start ^ d, n) == hand_fold(keys, hand, start, n) ^ d,
    decreases n,
{
    if n > 0 {
        lemma_hand_fold_start(keys, hand, start, d, n - 1);
        let f = hand_fold(keys, hand, start, n - 1);
        let t = hand_key(keys, hand_term_piece(n - 1), hand_count(hand, hand_term_piece(n - 1)));
        lemma_xor(f, d, t);
        lemma_xor(f, t, d);
        lemma_xor(d, t, 0);
    }
}

/// The hand piece of each term is a distinct piece that can be held.
pub proof fn lemma_hand_term_piece(j: int, p: Piece)
    requires
        0 <= j < 14,
    ensures
        crate::hand::hand_slot(hand_term_piece(j)) is Some,
        p.piece_type.hand_piece() && crate::hand::hand_slot(p) == crate::hand::hand_slot(hand_term_piece(j))
            ==> p == hand_term_piece(j),
{
}

/// Changing the count of one piece changes the hand fold by its old and new keys.
pub proof fn lemma_hand_fold_set(keys: Seq<u64>, hand: Seq<u8>, start: u64, p: Piece, m: u8, n: int)
    requires
        hand.len() == 14,
        p.piece_type.hand_piece(),
        0 <= n <= 14,
    ensures
        hand_fold(keys, crate::hand::hand_set(hand, p, m), start, n) == (if exists|j: int|
            0 <= j < n && hand_term_piece(j) == p {
            hand_fold(keys, hand, start, n) ^ (hand_key(keys, p, hand_count(hand, p)) ^ hand_key(keys, p, m))
        } else {
            hand_fold(keys, hand, start, n)
        }),
    decreases n,
{
    if n > 0 {
        lemma_hand_fold_set(keys, hand, start, p, m, n - 1);
        let h2 = crate::hand::hand_set(hand, p, m);
        let q = hand_term_piece(n - 1);
        lemma_hand_term_piece(n - 1, p);
        let f = hand_fold(keys, hand, start, n - 1);
        let d = hand_key(keys, p, hand_count(hand, p)) ^ hand_key(keys, p, m);
        let t = hand_key(keys, q, hand_count(hand, q));
        let t2 = hand_key(keys, q, hand_count(h2, q));
        if q == p {
            assert(!exists|j: int| 0 <= j < n - 1 && hand_term_piece(j) == p) by {
                if exists|j: int| 0 <= j < n - 1 && hand_term_piece(j) == p {
                    let j = choose|j: int| 0 <= j < n - 1 && hand_term_piece(j) == p;
                    assert(hand_term_piece(j) == hand_term_piece(n - 1));
                }
            }
            assert(hand_count(h2, q) == m);
            lemma_xor(f, hand_key(keys, p, hand_count(hand, p)), hand_key(keys, p, hand_count(hand, p)));
            lemma_xor(f, hand_key(keys, p, hand_count(hand, p)), d);
            lemma_xor(hand_key(keys, p, hand_count(hand, p)), hand_key(keys, p, hand_count(hand, p)), hand_key(keys, p, m));
            lemma_xor(f, 0, hand_key(keys, p, m));
            lemma_xor(hand_key(keys, p, m), 0, 0);
            lemma_xor(f, 0, 0);
        } else {
            assert(hand_count(h2, q) == hand_count(hand, q));
            if exists|j: int| 0 <= j < n - 1 && hand_term_piece(j) == p {
                lemma_xor(f, d, t);
                lemma_xor(f, t, d);
                lemma_xor(d, t, 0);
            }
        }
    }
}

/// Rearranging the XOR of a board change, a side change and the start value.
pub proof fn lemma_xor_regroup(b: u64, d1: u64, d2: u64, s: u64, side: u64)
    by (bit_vector)
    ensures
        ((b ^ d1) ^ d2) ^ (s ^ side) == (b ^ s) ^ ((d1 ^ d2) ^ side),
        (b ^ d1) ^ d2 == b ^ (d1 ^ d2),
{
}

/// How the hash of a state changes when the board fold changes by `db`, the hand fold by
/// `dh`, and the side to move flips.
pub proof fn lemma_state_hash_step(keys: Seq<u64>, v: StateView, v2: StateView, db: u64, dh: u64)
    requires
        board_fold(keys, v2.board, 81) == board_fold(keys, v.board, 81) ^ db,
        v2.stm == v.stm.opp(),
        forall|st: u64| #[trigger] hand_fold(keys, v2.hand, st, 14) == hand_fold(keys, v.hand, st, 14) ^ dh,
    ensures
        state_hash(keys, v2) == state_hash(keys, v) ^ ((db ^ keys[SIDE_KEY as int]) ^ dh),
{
    let side = keys[SIDE_KEY as int];
    let b = board_fold(keys, v.board, 81);
    let s = if v.stm == Color::White { side } else { 0 };
    let s2 = if v2.stm == Color::White { side } else { 0 };
    lemma_xor(s, side, 0);
    lemma_xor(0, side, 0);
    lemma_xor(side, 0, 0);
    lemma_xor(side, side, 0);
    assert(s2 == s ^ side);
    lemma_xor_regroup(b, db, 0, s, side);
    lemma_xor(db, 0, 0);
    let base2 = (b ^ db) ^ s2;
    assert(base2 == (b ^ s) ^ (db ^ side)) by {
        lemma_xor(b ^ db, s, side);
        lemma_xor(b, db, s);
        lemma_xor(db, s, side);
        lemma_xor(db, side, s);
        lemma_xor(s, db, side);
        lemma_xor(b, s, db ^ side);
        lemma_xor(s, db ^ side, 0);
        lemma_xor(db ^ side, s, 0);
        lemma_xor(b, db ^ side, s);
        lemma_xor(b, s ^ (db ^ side), 0);
        lemma_xor(b, (db ^ side) ^ s, 0);
    }
    lemma_hand_fold_start(keys, v.hand, b ^ s, db ^ side, 14);
    let h = hand_fold(keys, v.hand, b ^ s, 14);
    lemma_xor(h, db ^ side, dh);
}

/// Changing one square changes the full board fold by the old and new contributions.
pub proof fn lemma_board_fold_square(keys: Seq<u64>, board: Seq<Option<Piece>>, i: int, x: Option<Piece>)
    requires
        board.len() == 81,
        0 <= i < 81,
    ensures
        board_fold(keys, board.update(i, x), 81) == board_fold(keys, board, 81) ^ (cell_key(keys, board[i], i)
            ^ cell_key(keys, x, i)),
{
    lemma_board_fold_update(keys, board, 81, i, x);
}

/// Changing the count of one hand piece changes every hand fold by its old and new keys.
pub proof fn lemma_hand_fold_change(keys: Seq<u64>, hand: Seq<u8>, p: Piece, m: u8)
    requires
        hand.len() == 14,
    ensures
        forall|st: u64| #[trigger] hand_fold(keys, crate::hand::hand_set(hand, p, m), st, 14) == hand_fold(
            keys,
            hand,
            st,
            14,
        ) ^ (hand_key(keys, p, hand_count(hand, p)) ^ hand_key(keys, p, m)),
{
    assert forall|st: u64| #[trigger] hand_fold(keys, crate::hand::hand_set(hand, p, m), st, 14) == hand_fold(
        keys,
        hand,
        st,
        14,
    ) ^ (hand_key(keys, p, hand_count(hand, p)) ^ hand_key(keys, p, m)) by {
        if p.piece_type.hand_piece() {
            lemma_hand_fold_set(keys, hand, st, p, m, 14);
            let j = if p.color == Color::Black { 0int } else { 7int } + match p.piece_type {
                PieceType::Rook => 0int,
                PieceType::Bishop => 1,
                PieceType::Gold => 2,
                PieceType::Silver => 3,
                PieceType::Knight => 4,
                PieceType::Lance => 5,
                _ => 6,
            };
            assert(hand_term_piece(j) == p);
        } else {
            assert(crate::hand::hand_set(hand, p, m) == hand);
            lemma_xor(hand_fold(keys, hand, st, 14), 0, 0);
            lemma_xor(0, 0, 0);
        }
    }
}

impl Zobrist {
    /// Computes the Zobrist hash of a state from scratch.
    pub fn compute_hash(&self, state: &crate::state_info::StateInfo) -> (r: u64)
        requires
            self.wf(),
        ensures
            r == state_hash(self.keys(), state@),
    {
        let ghost keys = self.keys();
        let ghost v = state@;
        proof {
            state.lemma_view_len();
        }
        let mut hash: u64 = 0;
        let mut i: u8 = 0;
        while i < 81
            invariant
                i <= 81,
                self.wf(),
                keys == self.keys(),
                v == state@,
                hash == board_fold(keys, v.board, i as int),
            decreases 81 - i,
        {
            let sq = Square::from_index(i).unwrap();
            match *state.piece_at(sq) {
                Some(piece) => {
                    hash = hash ^ self.board_hash(piece, sq);
                },
                None => {
                    proof {
                        lemma_xor(hash, 0, 0);
                    }
                },
            }
            i = i + 1;
        }
        if state.side_to_move() == Color::White {
            hash = hash ^ self.side_to_move_hash();
        } else {
            proof {
                lemma_xor(hash, 0, 0);
            }
            hash = hash ^ 0;
        }
        let ghost start = hash;
        let mut j: usize = 0;
        while j < 14
            invariant
                j <= 14,
                self.wf(),
                keys == self.keys(),
                v == state@,
                hash == hand_fold(keys, v.hand, start, j as int),
            decreases 14 - j,
        {
            let c = if j < 7 {
                Color::Black
            } else {
                Color::White
            };
            let piece = Piece { piece_type: PieceType::from_index(j % 7 + 1), color: c };
            let count = state.hand(piece);
            hash = hash ^ self.hand_hash(piece, count);
            j = j + 1;
        }
        hash
    }
}

} // verus!
