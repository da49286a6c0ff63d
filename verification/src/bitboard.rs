use vstd::prelude::*;
use crate::square::Square;
use crate::bits::{rank, popcount, pext_spec, bits_of, lemma_bits_of, lemma_u64_ext, extract, deposit, count_ones, lemma_pext_bit, lemma_pext_high, lemma_pdep_bit, lemma_rank_bound, lemma_rank_mono, lemma_rank_top};

verus! {

broadcast use vstd::std_specs::bits::axiom_u64_trailing_zeros;

/// Whether bit `i` of `x` is set.
pub open spec fn bit(x: u64, i: u64) -> bool {
    (x >> i) & 1u64 == 1u64
}

/// Number of board squares held in the low word.
pub const LOW_BITS: u64 = 63;

/// Bit `i` of `a & b`.
pub proof fn lemma_bit_and(a: u64, b: u64, i: u64)
    by (bit_vector)
    requires
        i < 64,
    ensures
        bit(a & b, i) == (bit(a, i) && bit(b, i)),
{
}

/// Bit `i` of `a | b`.
pub proof fn lemma_bit_or(a: u64, b: u64, i: u64)
    by (bit_vector)
    requires
        i < 64,
    ensures
        bit(a | b, i) == (bit(a, i) || bit(b, i)),
{
}

/// Bit `i` of `a ^ b`.
pub proof fn lemma_bit_xor(a: u64, b: u64, i: u64)
    by (bit_vector)
    requires
        i < 64,
    ensures
        bit(a ^ b, i) == (bit(a, i) != bit(b, i)),
{
}

/// Bit `i` of `!a & m`.
pub proof fn lemma_bit_not_and(a: u64, m: u64, i: u64)
    by (bit_vector)
    requires
        i < 64,
    ensures
        bit(!a & m, i) == (!bit(a, i) && bit(m, i)),
{
}

/// The only bit of `1 << k` is bit `k`.
pub proof fn lemma_bit_single(k: u64, i: u64)
    by (bit_vector)
    requires
        k < 64,
        i < 64,
    ensures
        bit(1u64 << k, i) == (i == k),
{
}

/// A value below `2^n` has no bit at or above `n`; `2^n - 1` has exactly the bits below `n`.
pub proof fn lemma_bit_bound(x: u64, n: u64, i: u64)
    by (bit_vector)
    requires
        n < 64,
        i < 64,
    ensures
        x < (1u64 << n) && n <= i ==> !bit(x, i),
        bit(((1u64 << n) - 1u64) as u64, i) == (i < n),
{
}

/// Values below `2^n` stay below `2^n` under `|`, `^`, `&` and masked complement.
pub proof fn lemma_bound_ops(x: u64, y: u64, n: u64)
    by (bit_vector)
    requires
        n < 64,
        x < (1u64 << n),
        y < (1u64 << n),
    ensures
        (x | y) < (1u64 << n),
        (x ^ y) < (1u64 << n),
        (x & y) < (1u64 << n),
        (!x & ((1u64 << n) - 1u64) as u64) < (1u64 << n),
        (x & y) <= x,
{
}

/// Zero has no set bit.
pub proof fn lemma_bit_zero(i: u64)
    by (bit_vector)
    ensures
        !bit(0u64, i),
{
}

/// Powers of two used for the two words.
pub proof fn lemma_pow_consts()
    by (bit_vector)
    ensures
        (1u64 << 63u64) == 0x8000_0000_0000_0000u64,
        (1u64 << 18u64) == 0x4_0000u64,
        ((1u64 << 63u64) - 1u64) as u64 == 0x7fff_ffff_ffff_ffffu64,
        ((1u64 << 18u64) - 1u64) as u64 == 0x3_ffffu64,
{
}

/// A nonzero value has a set bit at its number of trailing zeros, and none below.
pub proof fn lemma_lowest_bit(x: u64)
    requires
        x != 0,
    ensures
        (x.trailing_zeros() as u64) < 64,
        bit(x, x.trailing_zeros() as u64),
        forall|j: u64| j < x.trailing_zeros() ==> !bit(x, j),
{
}

/// A value with no set bit is zero.
pub proof fn lemma_no_bits_zero(x: u64)
    requires
        forall|i: u64| i < 64 ==> !bit(x, i),
    ensures
        x == 0,
{
    if x != 0 {
        lemma_lowest_bit(x);
    }
}

/// Bit `k` of `a >> s`.
pub proof fn lemma_bit_shr(a: u64, s: u64, k: u64)
    by (bit_vector)
    requires
        s < 64,
        k < 64,
    ensures
        bit(a >> s, k) == (k + s < 64 && bit(a, (k + s) as u64)),
{
}

/// Bit `k` of `a << s`.
pub proof fn lemma_bit_shl(a: u64, s: u64, k: u64)
    by (bit_vector)
    requires
        s < 64,
        k < 64,
    ensures
        bit(a << s, k) == (k >= s && bit(a, (k - s) as u64)),
{
}

/// The number of squares of `s` below `sq`.
pub open spec fn set_rank(s: Set<int>, sq: int) -> nat
    decreases sq,
{
    if sq <= 0 {
        0
    } else {
        set_rank(s, sq - 1) + if s.contains(sq - 1) {
            1nat
        } else {
            0nat
        }
    }
}

/// The low word of the bitboard holding the squares `s`.
pub open spec fn lo_word(s: Set<int>) -> u64 {
    bits_of(|i: u64| i < 63 && s.contains(i as int))
}

/// The high word of the bitboard holding the squares `s`.
pub open spec fn hi_word(s: Set<int>) -> u64 {
    bits_of(|i: u64| i < 18 && s.contains(i + 63))
}

/// The bits of the squares `s` at the squares of `m`, in square order, packed low: the low
/// words extracted, then the high words extracted above them.
pub open spec fn pext81(s: Set<int>, m: Set<int>) -> u64 {
    pext_spec(lo_word(s), lo_word(m)) | (pext_spec(hi_word(s), hi_word(m)) << (popcount(lo_word(m)) as u64))
}

/// A set of squares, as 81 bits: squares 0..63 in the low word, 63..81 in the high word.
#[derive(Clone, Copy, Debug, PartialEq, Eq, Structural, Hash)]
pub struct Bitboard {
    p0: u64,
    p1: u64,
}

impl Bitboard {
    #[verifier::type_invariant]
    closed spec fn inv(self) -> bool {
        &&& self.p0 < 0x8000_0000_0000_0000u64
        &&& self.p1 < 0x4_0000u64
    }

    /// The low word (squares 0 to 62).
    pub closed spec fn lo(self) -> u64 {
        self.p0
    }

    /// The high word (squares 63 to 80).
    pub closed spec fn hi(self) -> u64 {
        self.p1
    }

    /// Whether the square with index `sq` is in the set.
    pub open spec fn has(self, sq: int) -> bool {
        if 0 <= sq < 63 {
            bit(self.lo(), sq as u64)
        } else if 63 <= sq < 81 {
            bit(self.hi(), (sq - 63) as u64)
        } else {
            false
        }
    }

    /// The squares of the bitboard, as a set of indices.
    pub open spec fn view(self) -> Set<int> {
        Set::new(|sq: int| self.has(sq))
    }

    /// The set of squares is finite and within the board.
    pub proof fn lemma_view_finite(self)
        ensures
            self@.finite(),
            self@.subset_of(vstd::set_lib::set_int_range(0, 81)),
            self@.len() <= 81,
    {
        vstd::set_lib::lemma_int_range(0, 81);
        assert(self@.subset_of(vstd::set_lib::set_int_range(0, 81)));
        vstd::set_lib::lemma_len_subset(self@, vstd::set_lib::set_int_range(0, 81));
    }

    /// Returns an empty bitboard.
    pub fn empty() -> (r: Bitboard)
        ensures
            r@ == Set::<int>::empty(),
            r.lo() == 0,
            r.hi() == 0,
    {
        let r = Bitboard { p0: 0, p1: 0 };
        proof {
            assert forall|s: int| !r.has(s) by {
                if 0 <= s < 63 {
                    lemma_bit_zero(s as u64);
                } else if 63 <= s < 81 {
                    lemma_bit_zero((s - 63) as u64);
                }
            }
            assert(r@ =~= Set::<int>::empty());
        }
        r
    }

    /// Creates a bitboard from its two words.
    pub fn new(low: u64, high: u64) -> (r: Bitboard)
        requires
            low < 0x8000_0000_0000_0000u64,
            high < 0x4_0000u64,
        ensures
            r.lo() == low,
            r.hi() == high,
    {
        Bitboard { p0: low, p1: high }
    }

    /// Returns the low word (squares 0 to 62).
    pub fn low(&self) -> (r: u64)
        ensures
            r == self.lo(),
            r < 0x8000_0000_0000_0000u64,
    {
        proof {
            use_type_invariant(self);
        }
        self.p0
    }

    /// Returns the high word (squares 63 to 80).
    pub fn high(&self) -> (r: u64)
        ensures
            r == self.hi(),
            r < 0x4_0000u64,
    {
        proof {
            use_type_invariant(self);
        }
        self.p1
    }

    /// The words of a bitboard are those of its set of squares.
    pub proof fn lemma_words(self)
        requires
            self.lo() < 0x8000_0000_0000_0000u64,
            self.hi() < 0x4_0000u64,
        ensures
            self.lo() == lo_word(self@),
            self.hi() == hi_word(self@),
    {
        lemma_pow_consts();
        assert forall|i: u64| i < 64 implies bit(self.lo(), i) == bit(lo_word(self@), i) by {
            lemma_bits_of(|i: u64| i < 63 && self@.contains(i as int), i);
            lemma_bit_bound(self.lo(), 63, i);
        }
        lemma_u64_ext(self.lo(), lo_word(self@));
        assert forall|i: u64| i < 64 implies bit(self.hi(), i) == bit(hi_word(self@), i) by {
            lemma_bits_of(|i: u64| i < 18 && self@.contains(i + 63), i);
            lemma_bit_bound(self.hi(), 18, i);
        }
        lemma_u64_ext(self.hi(), hi_word(self@));
    }

    /// Below square 63 the squares of a bitboard are counted by its low word.
    pub proof fn lemma_set_rank_lo(self, sq: int)
        requires
            0 <= sq <= 63,
        ensures
            set_rank(self@, sq) == rank(self.lo(), sq),
        decreases sq,
    {
        if sq > 0 {
            self.lemma_set_rank_lo(sq - 1);
        }
    }

    /// From square 63 on, the squares of a bitboard are those of the low word and those of
    /// the high word below.
    pub proof fn lemma_set_rank_hi(self, sq: int)
        requires
            63 <= sq <= 81,
        ensures
            set_rank(self@, sq) == rank(self.lo(), 63) + rank(self.hi(), sq - 63),
        decreases sq,
    {
        if sq == 63 {
            self.lemma_set_rank_lo(63);
        } else {
            self.lemma_set_rank_hi(sq - 1);
        }
    }

    /// Returns the bits of `self` at the squares of `mask`, in square order, packed into the
    /// low bits of a `u64`.
    pub fn pext_u64(&self, mask: &Bitboard) -> (r: u64)
        ensures
            forall|sq: int|
                #![trigger mask@.contains(sq)]
                mask@.contains(sq) && set_rank(mask@, sq) < 64 ==> bit(r, set_rank(mask@, sq) as u64) == self@.contains(sq),
            forall|j: u64| set_rank(mask@, 81) <= j < 64 ==> !#[trigger] bit(r, j),
            r == pext81(self@, mask@),
    {
        proof {
            use_type_invariant(self);
            use_type_invariant(mask);
            self.lemma_words();
            mask.lemma_words();
        }
        let lo = extract(self.p0, mask.p0);
        let hi = extract(self.p1, mask.p1);
        let c = count_ones(mask.p0);
        proof {
            lemma_pow_consts();
            lemma_bit_bound(mask.p0, 63, 63);
            lemma_bit_bound(self.p0, 63, 63);
            assert(c < 64) by {
                lemma_rank_mono(mask.p0, 63, 64);
                lemma_rank_bound(mask.p0, 63);
            }
            mask.lemma_set_rank_hi(81);
            assert forall|i: u64| 63 <= i < 64 implies !#[trigger] bit(mask.p0, i) by {
                lemma_bit_bound(mask.p0, 63, i);
            }
            lemma_rank_top(mask.p0, 63, 64);
            assert forall|i: u64| 18 <= i < 64 implies !#[trigger] bit(mask.p1, i) by {
                lemma_bit_bound(mask.p1, 18, i);
            }
            lemma_rank_top(mask.p1, 18, 64);
            assert forall|sq: int|
                #![trigger mask@.contains(sq)]
                mask@.contains(sq) && set_rank(mask@, sq) < 64 implies bit(lo | (hi << c as u64), set_rank(mask@, sq) as u64)
                == self@.contains(sq) by {
                let j = set_rank(mask@, sq) as u64;
                lemma_bit_or(lo, hi << c as u64, j);
                lemma_bit_shl(hi, c as u64, j);
                if sq < 63 {
                    mask.lemma_set_rank_lo(sq);
                    lemma_rank_mono(mask.p0, sq, 63);
                    lemma_pext_bit(self.p0, mask.p0, sq as u64);
                } else {
                    mask.lemma_set_rank_hi(sq);
                    lemma_pext_high(self.p0, mask.p0, j);
                    lemma_pext_bit(self.p1, mask.p1, (sq - 63) as u64);
                }
            }
            assert forall|j: u64| set_rank(mask@, 81) <= j < 64 implies !#[trigger] bit(lo | (hi << c as u64), j) by {
                lemma_bit_or(lo, hi << c as u64, j);
                lemma_bit_shl(hi, c as u64, j);
                lemma_pext_high(self.p0, mask.p0, j);
                if j >= c {
                    lemma_pext_high(self.p1, mask.p1, (j - c) as u64);
                }
            }
        }
        lo | (hi << c as u64)
    }

    /// Returns the bitboard that holds each square of `mask` whose rank among the squares of
    /// `mask` is a square of `self`: the low squares of `self`, in order, spread onto `mask`.
    pub fn pdep(&self, mask: &Bitboard) -> (r: Bitboard)
        ensures
            r@ == Set::new(|sq: int| mask@.contains(sq) && self@.contains(set_rank(mask@, sq) as int)),
    {
        proof {
            use_type_invariant(self);
            use_type_invariant(mask);
        }
        let c = count_ones(mask.p0);
        proof {
            lemma_pow_consts();
            lemma_bit_bound(mask.p0, 63, 63);
            lemma_rank_mono(mask.p0, 63, 64);
            lemma_rank_bound(mask.p0, 63);
        }
        let lo = deposit(self.p0, mask.p0);
        let v = (self.p0 >> c as u64) | (self.p1 << (63 - c) as u64);
        let hi = deposit(v, mask.p1);
        proof {
            assert forall|i: u64| i < 64 implies !bit(lo, i) || bit(mask.p0, i) by {
                lemma_pdep_bit(self.p0, mask.p0, i);
            }
            assert forall|i: u64| i < 64 implies !bit(hi, i) || bit(mask.p1, i) by {
                lemma_pdep_bit(v, mask.p1, i);
            }
            lemma_subset_bound(lo, mask.p0, 63);
            lemma_subset_bound(hi, mask.p1, 18);
        }
        let r = Bitboard { p0: lo, p1: hi };
        proof {
            assert(c == rank(mask.p0, 63));
            assert forall|sq: int| r.has(sq) == (mask@.contains(sq) && self@.contains(set_rank(mask@, sq) as int)) by {
                if 0 <= sq < 63 {
                    mask.lemma_set_rank_lo(sq);
                    let k = rank(mask.p0, sq);
                    lemma_rank_bound(mask.p0, sq);
                    lemma_pdep_bit(self.p0, mask.p0, sq as u64);
                    assert(mask@.contains(sq) == bit(mask.p0, sq as u64));
                    assert(self@.contains(k as int) == bit(self.p0, k as u64));
                } else if 63 <= sq < 81 {
                    mask.lemma_set_rank_hi(sq);
                    let t = rank(mask.p1, sq - 63);
                    let k = c + t;
                    lemma_rank_bound(mask.p1, sq - 63);
                    lemma_pdep_bit(v, mask.p1, (sq - 63) as u64);
                    lemma_bit_or(self.p0 >> c as u64, self.p1 << (63 - c) as u64, t as u64);
                    lemma_bit_shr(self.p0, c as u64, t as u64);
                    lemma_bit_shl(self.p1, (63 - c) as u64, t as u64);
                    assert(mask@.contains(sq) == bit(mask.p1, (sq - 63) as u64));
                    if k < 63 {
                        assert(self@.contains(k as int) == bit(self.p0, k as u64));
                    } else {
                        if k < 64 {
                            lemma_bit_bound(self.p0, 63, k as u64);
                        }
                        assert(self@.contains(k as int) == bit(self.p1, (k - 63) as u64));
                    }
                } else {
                    assert(!mask@.contains(sq));
                }
            }
            assert(r@ =~= Set::new(|sq: int| mask@.contains(sq) && self@.contains(set_rank(mask@, sq) as int)));
        }
        r
    }

    /// Proves the invariant of a bitboard value for use in proofs.
    pub fn lemma_inv(&self)
        ensures
            self.lo() < 0x8000_0000_0000_0000u64,
            self.hi() < 0x4_0000u64,
    {
        proof {
            use_type_invariant(self);
        }
    }

    /// Squares in both bitboards.
    pub fn and(&self, other: &Bitboard) -> (r: Bitboard)
        ensures
            r@ == self@.intersect(other@),
            r.lo() == self.lo() & other.lo(),
            r.hi() == self.hi() & other.hi(),
    {
        proof {
            use_type_invariant(self);
            use_type_invariant(other);
            lemma_pow_consts();
            lemma_bound_ops(self.p0, other.p0, 63);
            lemma_bound_ops(self.p1, other.p1, 18);
        }
        let r = Bitboard { p0: self.p0 & other.p0, p1: self.p1 & other.p1 };
        proof {
            assert forall|s: int| r.has(s) == (self.has(s) && other.has(s)) by {
                if 0 <= s < 63 {
                    lemma_bit_and(self.p0, other.p0, s as u64);
                } else if 63 <= s < 81 {
                    lemma_bit_and(self.p1, other.p1, (s - 63) as u64);
                }
            }
            assert(r@ =~= self@.intersect(other@));
        }
        r
    }

    /// Squares in either bitboard.
    pub fn or(&self, other: &Bitboard) -> (r: Bitboard)
        ensures
            r@ == self@.union(other@),
            r.lo() == self.lo() | other.lo(),
            r.hi() == self.hi() | other.hi(),
    {
        proof {
            use_type_invariant(self);
            use_type_invariant(other);
            lemma_pow_consts();
            lemma_bound_ops(self.p0, other.p0, 63);
            lemma_bound_ops(self.p1, other.p1, 18);
        }
        let r = Bitboard { p0: self.p0 | other.p0, p1: self.p1 | other.p1 };
        proof {
            assert forall|s: int| r.has(s) == (self.has(s) || other.has(s)) by {
                if 0 <= s < 63 {
                    lemma_bit_or(self.p0, other.p0, s as u64);
                } else if 63 <= s < 81 {
                    lemma_bit_or(self.p1, other.p1, (s - 63) as u64);
                }
            }
            assert(r@ =~= self@.union(other@));
        }
        r
    }

    /// Squares in exactly one of the bitboards.
    pub fn xor(&self, other: &Bitboard) -> (r: Bitboard)
        ensures
            r@ == self@.difference(other@).union(other@.difference(self@)),
    {
        proof {
            use_type_invariant(self);
            use_type_invariant(other);
            lemma_pow_consts();
            lemma_bound_ops(self.p0, other.p0, 63);
            lemma_bound_ops(self.p1, other.p1, 18);
        }
        let r = Bitboard { p0: self.p0 ^ other.p0, p1: self.p1 ^ other.p1 };
        proof {
            assert forall|s: int| r.has(s) == (self.has(s) != other.has(s)) by {
                if 0 <= s < 63 {
                    lemma_bit_xor(self.p0, other.p0, s as u64);
                } else if 63 <= s < 81 {
                    lemma_bit_xor(self.p1, other.p1, (s - 63) as u64);
                }
            }
            assert(r@ =~= self@.difference(other@).union(other@.difference(self@)));
        }
        r
    }

    /// The board squares not in the bitboard.
    pub fn not(&self) -> (r: Bitboard)
        ensures
            r@ == vstd::set_lib::set_int_range(0, 81).difference(self@),
    {
        proof {
            use_type_invariant(self);
            lemma_pow_consts();
            lemma_bound_ops(self.p0, self.p0, 63);
            lemma_bound_ops(self.p1, self.p1, 18);
        }
        let r = Bitboard { p0: !self.p0 & 0x7fff_ffff_ffff_ffffu64, p1: !self.p1 & 0x3_ffffu64 };
        proof {
            assert forall|s: int| r.has(s) == (0 <= s < 81 && !self.has(s)) by {
                if 0 <= s < 63 {
                    lemma_bit_not_and(self.p0, 0x7fff_ffff_ffff_ffffu64, s as u64);
                    lemma_bit_bound(0, 63, s as u64);
                } else if 63 <= s < 81 {
                    lemma_bit_not_and(self.p1, 0x3_ffffu64, (s - 63) as u64);
                    lemma_bit_bound(0, 18, (s - 63) as u64);
                }
            }
            assert(r@ =~= vstd::set_lib::set_int_range(0, 81).difference(self@));
        }
        r
    }

    /// The bitboard holding the single given square.
    pub fn from_square(sq: Square) -> (r: Bitboard)
        ensures
            r@ == set![sq.idx()],
    {
        let i = sq.index() as u64;
        proof {
            lemma_pow_consts();
        }
        let r = if i < 63 {
            proof {
                assert((1u64 << i) < 0x8000_0000_0000_0000u64) by (bit_vector)
                    requires
                        i < 63,
                ;
            }
            Bitboard { p0: 1u64 << i, p1: 0 }
        } else {
            proof {
                assert((1u64 << ((i - 63) as u64)) < 0x4_0000u64) by (bit_vector)
                    requires
                        63 <= i < 81,
                ;
            }
            Bitboard { p0: 0, p1: 1u64 << (i - 63) }
        };
        proof {
            assert forall|s: int| r.has(s) == (s == i) by {
                if 0 <= s < 63 {
                    lemma_bit_zero(s as u64);
                    if i < 63 {
                        lemma_bit_single(i, s as u64);
                    }
                } else if 63 <= s < 81 {
                    lemma_bit_zero((s - 63) as u64);
                    if i >= 63 {
                        lemma_bit_single((i - 63) as u64, (s - 63) as u64);
                    }
                }
            }
            assert(r@ =~= set![sq.idx()]);
        }
        r
    }

    /// Returns true if the square is in the bitboard.
    pub fn contains(&self, sq: Square) -> (r: bool)
        ensures
            r == self@.contains(sq.idx()),
    {
        let i = sq.index() as u64;
        if i < 63 {
            (self.p0 >> i) & 1 == 1
        } else {
            (self.p1 >> (i - 63)) & 1 == 1
        }
    }

    /// Adds or removes the square (toggles it).
    pub fn toggle(&mut self, sq: Square)
        ensures
            final(self)@ == (if old(self)@.contains(sq.idx()) {
                old(self)@.remove(sq.idx())
            } else {
                old(self)@.insert(sq.idx())
            }),
    {
        let b = Bitboard::from_square(sq);
        *self = self.xor(&b);
        proof {
            assert(self@ =~= (if old(self)@.contains(sq.idx()) {
                old(self)@.remove(sq.idx())
            } else {
                old(self)@.insert(sq.idx())
            }));
        }
    }

    /// Adds the square.
    pub fn set(&mut self, sq: Square)
        ensures
            final(self)@ == old(self)@.insert(sq.idx()),
    {
        let b = Bitboard::from_square(sq);
        *self = self.or(&b);
        proof {
            assert(self@ =~= old(self)@.insert(sq.idx()));
        }
    }

    /// Returns true if the bitboard holds at least one square.
    pub fn is_any(&self) -> (r: bool)
        ensures
            r == !self@.is_empty(),
            r == (self@.len() > 0),
    {
        proof {
            use_type_invariant(self);
            self.lemma_view_finite();
            lemma_pow_consts();
        }
        let r = self.p0 != 0 || self.p1 != 0;
        proof {
            if self.p0 != 0 {
                lemma_lowest_bit(self.p0);
                let t = self.p0.trailing_zeros() as u64;
                lemma_bit_bound(self.p0, 63, t);
                assert(self@.contains(t as int));
            } else if self.p1 != 0 {
                lemma_lowest_bit(self.p1);
                let t = self.p1.trailing_zeros() as u64;
                lemma_bit_bound(self.p1, 18, t);
                assert(self@.contains(t + 63));
            } else {
                assert forall|s: int| !self@.contains(s) by {
                    if 0 <= s < 63 {
                        lemma_bit_zero(s as u64);
                    } else if 63 <= s < 81 {
                        lemma_bit_zero((s - 63) as u64);
                    }
                }
                assert(self@ =~= Set::<int>::empty());
            }
            if r {
                assert(self@.len() > 0) by {
                    if self@.len() == 0 {
                        self@.lemma_len0_is_empty();
                    }
                }
            } else {
                assert(self@.len() == 0);
            }
        }
        r
    }

    /// Returns true if the bitboard is empty.
    pub fn is_empty(&self) -> (r: bool)
        ensures
            r == self@.is_empty(),
            r == (self@.len() == 0),
    {
        !self.is_any()
    }

    /// Removes and returns the square with the lowest index.
    #[verifier::spinoff_prover]
    pub fn pop(&mut self) -> (r: Square)
        requires
            !old(self)@.is_empty(),
        ensures
            old(self)@.contains(r.idx()),
            forall|s: int| old(self)@.contains(s) ==> r.idx() <= s,
            final(self)@ == old(self)@.remove(r.idx()),
    {
        proof {
            use_type_invariant(&*self);
            lemma_pow_consts();
        }
        let ghost s0 = self@;
        if self.p0 != 0 {
            let t = self.p0.trailing_zeros() as u64;
            proof {
                lemma_lowest_bit(self.p0);
                lemma_bit_bound(self.p0, 63, t);
                assert((1u64 << t) < 0x8000_0000_0000_0000u64) by (bit_vector)
                    requires
                        t < 63,
                ;
                lemma_bound_ops(self.p0, 1u64 << t, 63);
            }
            let old_p0 = self.p0;
            self.p0 = self.p0 ^ (1u64 << t);
            proof {
                assert forall|s: int| s0.contains(s) implies t <= s by {
                    if 0 <= s < t {
                        assert(!bit(old_p0, s as u64));
                    }
                }
                assert forall|s: int| #[trigger] self@.contains(s) == s0.remove(t as int).contains(s) by {
                    if 0 <= s < 63 {
                        lemma_bit_xor(old_p0, 1u64 << t, s as u64);
                        lemma_bit_single(t, s as u64);
                    }
                }
                assert(self@ =~= s0.remove(t as int));
            }
            Square::from_index(t as u8).unwrap()
        } else {
            proof {
                assert forall|s: int| 0 <= s < 63 implies !s0.contains(s) by {
                    lemma_bit_zero(s as u64);
                }
                if self.p1 == 0 {
                    assert forall|s: int| !s0.contains(s) by {
                        if 0 <= s < 63 {
                        } else if 63 <= s < 81 {
                            lemma_bit_zero((s - 63) as u64);
                        }
                    }
                    assert(s0 =~= Set::<int>::empty());
                }
            }
            let t = self.p1.trailing_zeros() as u64;
            proof {
                lemma_lowest_bit(self.p1);
                lemma_bit_bound(self.p1, 18, t);
                assert((1u64 << t) < 0x4_0000u64) by (bit_vector)
                    requires
                        t < 18,
                ;
                lemma_bound_ops(self.p1, 1u64 << t, 18);
            }
            let old_p1 = self.p1;
            self.p1 = self.p1 ^ (1u64 << t);
            proof {
                assert forall|s: int| s0.contains(s) implies t + 63 <= s by {
                    if 63 <= s < t + 63 {
                        assert(!bit(old_p1, (s - 63) as u64));
                    }
                }
                assert forall|s: int| self.has(s) == (s0.contains(s) && s != t + 63) by {
                    if 63 <= s < 81 {
                        lemma_bit_xor(old_p1, 1u64 << t, (s - 63) as u64);
                        lemma_bit_single(t, (s - 63) as u64);
                    }
                }
                assert(self@ =~= s0.remove(t + 63));
            }
            Square::from_index((t + 63) as u8).unwrap()
        }
    }

    /// Returns the number of squares in the bitboard.
    pub fn count(&self) -> (r: u32)
        ensures
            r == self@.len(),
            r <= 81,
    {
        let mut bb = *self;
        let mut n: u32 = 0;
        proof {
            self.lemma_view_finite();
        }
        while bb.is_any()
            invariant
                bb@.subset_of(self@),
                n + bb@.len() == self@.len(),
                self@.len() <= 81,
                self@.finite(),
            decreases bb@.len(),
        {
            proof {
                bb.lemma_view_finite();
            }
            let sq = bb.pop();
            n = n + 1;
        }
        n
    }
}

/// `x ^ y == 0` only when `x == y`.
pub proof fn lemma_xor_zero(x: u64, y: u64)
    by (bit_vector)
    requires
        x ^ y == 0,
    ensures
        x == y,
{
}

/// A value whose bits all lie within those of `m`, where `m < 2^n`, is below `2^n`.
pub proof fn lemma_subset_bound(x: u64, m: u64, n: u64)
    requires
        n < 64,
        m < (1u64 << n),
        forall|i: u64| i < 64 ==> !bit(x, i) || bit(m, i),
    ensures
        x < (1u64 << n),
{
    assert forall|i: u64| i < 64 implies !bit(x & !m, i) by {
        lemma_bit_not_and(m, x, i);
        assert(bit(x & !m, i) == bit(!m & x, i)) by (bit_vector);
    }
    lemma_no_bits_zero(x & !m);
    assert(x & !m == 0u64 && m < (1u64 << n) ==> x < (1u64 << n)) by (bit_vector)
        requires
            n < 64,
    ;
}

/// Bit `i` of the words of a set of squares.
pub proof fn lemma_word_bits(s: Set<int>, i: u64)
    requires
        i < 64,
    ensures
        bit(lo_word(s), i) == (i < 63 && s.contains(i as int)),
        bit(hi_word(s), i) == (i < 18 && s.contains(i + 63)),
{
    lemma_bits_of(|i: u64| i < 63 && s.contains(i as int), i);
    lemma_bits_of(|i: u64| i < 18 && s.contains(i + 63), i);
}

/// The rank of a square among a set is counted by the words of the set.
pub proof fn lemma_set_rank_words(m: Set<int>, sq: int)
    requires
        0 <= sq <= 81,
    ensures
        sq <= 63 ==> set_rank(m, sq) == rank(lo_word(m), sq),
        sq >= 63 ==> set_rank(m, sq) == rank(lo_word(m), 63) + rank(hi_word(m), sq - 63),
    decreases sq,
{
    if sq > 0 {
        lemma_set_rank_words(m, sq - 1);
        if sq <= 63 {
            lemma_word_bits(m, (sq - 1) as u64);
        } else {
            lemma_word_bits(m, (sq - 64) as u64);
        }
    }
}

/// The square of `m` with `j` squares of `m` below it.
pub open spec fn set_select(m: Set<int>, j: int) -> int {
    choose|sq: int| 0 <= sq < 81 && m.contains(sq) && set_rank(m, sq) == j
}

/// `set_rank` is monotone, and strictly so past a square of the set.
pub proof fn lemma_set_rank_mono(m: Set<int>, a: int, b: int)
    requires
        0 <= a <= b,
    ensures
        set_rank(m, a) <= set_rank(m, b),
        a < b && m.contains(a) ==> set_rank(m, a) < set_rank(m, b),
    decreases b - a,
{
    if a < b {
        lemma_set_rank_mono(m, a, b - 1);
        if m.contains(a) && a < b - 1 {
            lemma_set_rank_mono(m, a + 1, b - 1);
        }
    }
}

proof fn lemma_set_select_upto(m: Set<int>, j: int, k: int)
    requires
        0 <= j,
        0 <= k <= 81,
        j < set_rank(m, k),
    ensures
        exists|sq: int| 0 <= sq < k && m.contains(sq) && set_rank(m, sq) == j,
    decreases k,
{
    if k > 0 {
        if j < set_rank(m, k - 1) {
            lemma_set_select_upto(m, j, k - 1);
        } else {
            assert(m.contains(k - 1) && set_rank(m, k - 1) == j);
        }
    }
}

/// Below the number of squares of `m` on the board, each rank is that of one square of `m`.
pub proof fn lemma_set_select(m: Set<int>, j: int)
    requires
        0 <= j < set_rank(m, 81),
    ensures
        0 <= set_select(m, j) < 81,
        m.contains(set_select(m, j)),
        set_rank(m, set_select(m, j)) == j,
        forall|sq: int| 0 <= sq < 81 && m.contains(sq) && set_rank(m, sq) == j ==> sq == set_select(m, j),
{
    lemma_set_select_upto(m, j, 81);
    let s0 = set_select(m, j);
    assert forall|sq: int| 0 <= sq < 81 && m.contains(sq) && set_rank(m, sq) == j implies sq == s0 by {
        if sq < s0 {
            lemma_set_rank_mono(m, sq, s0);
        } else if s0 < sq {
            lemma_set_rank_mono(m, s0, sq);
        }
    }
}

/// The rank of a square of `m` on the board is below the number of squares of `m`.
pub proof fn lemma_set_rank_lt(m: Set<int>, sq: int)
    requires
        0 <= sq < 81,
        m.contains(sq),
    ensures
        set_rank(m, sq) < set_rank(m, 81),
{
    lemma_set_rank_mono(m, sq, 81);
}

/// The number of squares of a set within the board.
pub proof fn lemma_set_rank_len(m: Set<int>, k: int)
    requires
        0 <= k <= 81,
        m.subset_of(vstd::set_lib::set_int_range(0, 81)),
    ensures
        set_rank(m, k) == m.intersect(vstd::set_lib::set_int_range(0, k)).len(),
    decreases k,
{
    let part = m.intersect(vstd::set_lib::set_int_range(0, k));
    vstd::set_lib::lemma_int_range(0, k);
    vstd::set_lib::lemma_len_intersect(vstd::set_lib::set_int_range(0, k), m);
    assert(part =~= vstd::set_lib::set_int_range(0, k).intersect(m));
    if k == 0 {
        assert(part =~= Set::<int>::empty());
    } else {
        lemma_set_rank_len(m, k - 1);
        let prev = m.intersect(vstd::set_lib::set_int_range(0, k - 1));
        vstd::set_lib::lemma_int_range(0, k - 1);
        vstd::set_lib::lemma_len_intersect(vstd::set_lib::set_int_range(0, k - 1), m);
        assert(prev =~= vstd::set_lib::set_int_range(0, k - 1).intersect(m));
        if m.contains(k - 1) {
            assert(part =~= prev.insert(k - 1));
        } else {
            assert(part =~= prev);
        }
    }
}

/// The bits of `pext81(s, m)`: bit `j` tells whether the square of `m` of rank `j` is in
/// `s`, for each rank of a square of `m`; the other bits are clear.
pub proof fn lemma_pext81_bit(s: Set<int>, m: Set<int>, j: u64)
    requires
        j < 64,
        set_rank(m, 81) <= 64,
    ensures
        bit(pext81(s, m), j) == ((j as int) < set_rank(m, 81) && s.contains(set_select(m, j as int))),
{
    let lm = lo_word(m);
    let hm = hi_word(m);
    let c = popcount(lm);
    lemma_set_rank_words(m, 81);
    lemma_set_rank_words(m, 63);
    assert forall|i: u64| 63 <= i < 64 implies !#[trigger] bit(lm, i) by {
        lemma_word_bits(m, i);
    }
    lemma_rank_top(lm, 63, 64);
    assert forall|i: u64| 18 <= i < 64 implies !#[trigger] bit(hm, i) by {
        lemma_word_bits(m, i);
    }
    lemma_rank_top(hm, 18, 64);
    lemma_rank_bound(lm, 63);
    let lo = pext_spec(lo_word(s), lm);
    let hi = pext_spec(hi_word(s), hm);
    lemma_bit_or(lo, hi << (c as u64), j);
    lemma_bit_shl(hi, c as u64, j);
    if (j as int) < set_rank(m, 81) {
        lemma_set_select(m, j as int);
        let sq = set_select(m, j as int);
        if sq < 63 {
            lemma_set_rank_words(m, sq);
            lemma_word_bits(m, sq as u64);
            lemma_word_bits(s, sq as u64);
            lemma_rank_mono(lm, sq, 63);
            lemma_pext_bit(lo_word(s), lm, sq as u64);
        } else {
            lemma_set_rank_words(m, sq);
            lemma_word_bits(m, (sq - 63) as u64);
            lemma_word_bits(s, (sq - 63) as u64);
            lemma_pext_high(lo_word(s), lm, j);
            lemma_pext_bit(hi_word(s), hm, (sq - 63) as u64);
        }
    } else {
        lemma_pext_high(lo_word(s), lm, j);
        if j >= c {
            lemma_pext_high(hi_word(s), hm, (j - c) as u64);
        }
    }
}

} // verus!
