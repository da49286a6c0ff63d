use vstd::prelude::*;
use bitintr::{Pdep, Pext};
use crate::bitboard::{bit, lemma_bit_and, lemma_bit_or, lemma_bit_single, lemma_bit_zero, lemma_bit_xor, lemma_no_bits_zero, lemma_xor_zero};

verus! {

/// The value whose bit `i` is `f(i)` for each `i` below `k`; the bits from `k` up are clear.
pub open spec fn bits_upto(f: spec_fn(u64) -> bool, k: nat) -> u64
    decreases k,
{
    if k == 0 {
        0
    } else {
        let prev = bits_upto(f, (k - 1) as nat);
        if f((k - 1) as u64) {
            prev | (1u64 << ((k - 1) as u64))
        } else {
            prev
        }
    }
}

/// The value whose bit `i` is `f(i)`.
pub open spec fn bits_of(f: spec_fn(u64) -> bool) -> u64 {
    bits_upto(f, 64)
}

proof fn lemma_bits_upto(f: spec_fn(u64) -> bool, k: nat, i: u64)
    requires
        k <= 64,
        i < 64,
    ensures
        bit(bits_upto(f, k), i) == (i < k && f(i)),
    decreases k,
{
    if k == 0 {
        lemma_bit_zero(i);
    } else {
        let prev = bits_upto(f, (k - 1) as nat);
        lemma_bits_upto(f, (k - 1) as nat, i);
        if f((k - 1) as u64) {
            lemma_bit_or(prev, 1u64 << ((k - 1) as u64), i);
            lemma_bit_single((k - 1) as u64, i);
        }
    }
}

/// Bit `i` of `bits_of(f)` is `f(i)`.
pub proof fn lemma_bits_of(f: spec_fn(u64) -> bool, i: u64)
    requires
        i < 64,
    ensures
        bit(bits_of(f), i) == f(i),
{
    lemma_bits_upto(f, 64, i);
}

/// Two values with the same bits are equal.
pub proof fn lemma_u64_ext(a: u64, b: u64)
    requires
        forall|i: u64| i < 64 ==> bit(a, i) == bit(b, i),
    ensures
        a == b,
{
    assert forall|i: u64| i < 64 implies !bit(a ^ b, i) by {
        lemma_bit_xor(a, b, i);
    }
    lemma_no_bits_zero(a ^ b);
    lemma_xor_zero(a, b);
}

/// The number of set bits of `x` below bit `i`.
pub open spec fn rank(x: u64, i: int) -> nat
    decreases i,
{
    if i <= 0 {
        0
    } else {
        rank(x, i - 1) + if bit(x, (i - 1) as u64) {
            1nat
        } else {
            0nat
        }
    }
}

/// The number of set bits of `x`.
pub open spec fn popcount(x: u64) -> nat {
    rank(x, 64)
}

/// The position of the set bit of `m` that has `j` set bits below it.
pub open spec fn select(m: u64, j: int) -> int {
    choose|i: int| 0 <= i < 64 && bit(m, i as u64) && rank(m, i) == j
}

/// Parallel bit deposit: the low bits of `x`, in order, go to the set bits of `m`.
pub open spec fn pdep_spec(x: u64, m: u64) -> u64 {
    bits_of(|i: u64| bit(m, i) && bit(x, rank(m, i as int) as u64))
}

/// Parallel bit extract: the bits of `x` at the set bits of `m`, in order, packed low.
pub open spec fn pext_spec(x: u64, m: u64) -> u64 {
    bits_of(|j: u64| (j as int) < popcount(m) && bit(x, select(m, j as int) as u64))
}

/// Past the last set bit the rank no longer grows.
pub proof fn lemma_rank_top(x: u64, n: int, k: int)
    requires
        0 <= n <= k <= 64,
        forall|i: u64| n <= i < 64 ==> !#[trigger] bit(x, i),
    ensures
        rank(x, k) == rank(x, n),
    decreases k - n,
{
    if n < k {
        lemma_rank_top(x, n, k - 1);
        assert(!bit(x, (k - 1) as u64));
    }
}

/// `rank` grows by at most one per bit and never passes the position.
pub proof fn lemma_rank_bound(x: u64, i: int)
    requires
        0 <= i <= 64,
    ensures
        rank(x, i) <= i,
    decreases i,
{
    if i > 0 {
        lemma_rank_bound(x, i - 1);
    }
}

/// `rank` is monotone, and strictly so past a set bit.
pub proof fn lemma_rank_mono(x: u64, i: int, k: int)
    requires
        0 <= i <= k <= 64,
    ensures
        rank(x, i) <= rank(x, k),
        i < k && bit(x, i as u64) ==> rank(x, i) < rank(x, k),
    decreases k - i,
{
    if i < k {
        lemma_rank_mono(x, i, k - 1);
        if bit(x, i as u64) && i < k - 1 {
            lemma_rank_mono(x, i + 1, k - 1);
        }
    }
}

/// Below a rank that has been reached, every smaller rank is the rank of a set bit.
proof fn lemma_select_upto(m: u64, j: int, k: int)
    requires
        0 <= j,
        0 <= k <= 64,
        j < rank(m, k),
    ensures
        exists|i: int| 0 <= i < k && bit(m, i as u64) && rank(m, i) == j,
    decreases k,
{
    if k > 0 {
        if j < rank(m, k - 1) {
            lemma_select_upto(m, j, k - 1);
        } else {
            assert(bit(m, (k - 1) as u64) && rank(m, k - 1) == j);
        }
    }
}

/// `select` finds the set bit of the given rank.
pub proof fn lemma_select(m: u64, j: int)
    requires
        0 <= j < popcount(m),
    ensures
        0 <= select(m, j) < 64,
        bit(m, select(m, j) as u64),
        rank(m, select(m, j)) == j,
{
    lemma_select_upto(m, j, 64);
}

/// Set bits of `m` with equal ranks are the same bit.
pub proof fn lemma_rank_inj(m: u64, a: int, b: int)
    requires
        0 <= a < 64,
        0 <= b < 64,
        bit(m, a as u64),
        bit(m, b as u64),
        rank(m, a) == rank(m, b),
    ensures
        a == b,
{
    if a < b {
        lemma_rank_mono(m, a, b);
    } else if b < a {
        lemma_rank_mono(m, b, a);
    }
}

/// The rank of a set bit of `m` is below the number of set bits.
pub proof fn lemma_rank_lt_popcount(m: u64, i: int)
    requires
        0 <= i < 64,
        bit(m, i as u64),
    ensures
        rank(m, i) < popcount(m),
{
    lemma_rank_mono(m, i, 64);
}

/// Bit `i` of a deposit.
pub proof fn lemma_pdep_bit(x: u64, m: u64, i: u64)
    requires
        i < 64,
    ensures
        bit(pdep_spec(x, m), i) == (bit(m, i) && bit(x, rank(m, i as int) as u64)),
{
    lemma_bits_of(|i: u64| bit(m, i) && bit(x, rank(m, i as int) as u64), i);
}

/// The bit of an extract at the rank of a set bit of the mask is that bit of the source.
pub proof fn lemma_pext_bit(x: u64, m: u64, i: u64)
    requires
        i < 64,
        bit(m, i),
    ensures
        rank(m, i as int) < 64,
        bit(pext_spec(x, m), rank(m, i as int) as u64) == bit(x, i),
{
    let j = rank(m, i as int);
    lemma_rank_lt_popcount(m, i as int);
    lemma_rank_bound(m, 64);
    lemma_select(m, j as int);
    lemma_rank_inj(m, i as int, select(m, j as int));
    lemma_bits_of(|j: u64| (j as int) < popcount(m) && bit(x, select(m, j as int) as u64), j as u64);
}

/// An extract has no bit at or above the number of set bits of the mask.
pub proof fn lemma_pext_high(x: u64, m: u64, j: u64)
    requires
        popcount(m) <= j < 64,
    ensures
        !bit(pext_spec(x, m), j),
{
    lemma_bits_of(|j: u64| (j as int) < popcount(m) && bit(x, select(m, j as int) as u64), j);
}

/// Every bit of an extract below the number of set bits of the mask comes from the set bit
/// of that rank.
pub proof fn lemma_pext_bit_at(x: u64, m: u64, j: u64)
    requires
        j < popcount(m),
    ensures
        0 <= select(m, j as int) < 64,
        bit(m, select(m, j as int) as u64),
        rank(m, select(m, j as int)) == j,
        bit(pext_spec(x, m), j) == bit(x, select(m, j as int) as u64),
{
    lemma_select(m, j as int);
    lemma_rank_bound(m, 64);
    lemma_bits_of(|j: u64| (j as int) < popcount(m) && bit(x, select(m, j as int) as u64), j);
}

/// Every bit of the all-ones mask is set, so its rank is the position.
proof fn lemma_rank_full(i: int)
    requires
        0 <= i <= 64,
    ensures
        rank(0xffff_ffff_ffff_ffffu64, i) == i,
    decreases i,
{
    if i > 0 {
        lemma_rank_full(i - 1);
        let k = (i - 1) as u64;
        assert(bit(0xffff_ffff_ffff_ffffu64, k)) by (bit_vector)
            requires
                k < 64,
        ;
    }
}

/// `bitintr`'s `Pdep::pdep` on `u64`. Its result takes the low bits of `x`, in order, to the
/// set bits of `m`, and has every other bit clear (`pdep_spec`). The portable
/// implementation doubles a `u64` once per set bit of the mask, which overflows when all 64
/// bits are set; that mask is left out.
#[verifier::external_body]
fn pdep_u64(x: u64, m: u64) -> (r: u64)
    requires
        m != 0xffff_ffff_ffff_ffffu64,
    ensures
        r == pdep_spec(x, m),
{
    x.pdep(m)
}

/// `bitintr`'s `Pext::pext` on `u64`. Its result holds the bits of `x` at the set bits of `m`,
/// in order, packed into the low bits, with every other bit clear (`pext_spec`). The
/// portable implementation overflows, as `pdep` does, on the all-ones mask; it is left out.
#[verifier::external_body]
fn pext_u64(x: u64, m: u64) -> (r: u64)
    requires
        m != 0xffff_ffff_ffff_ffffu64,
    ensures
        r == pext_spec(x, m),
{
    x.pext(m)
}

/// Deposits the low bits of `x` to the set bits of `m`.
pub fn deposit(x: u64, m: u64) -> (r: u64)
    ensures
        r == pdep_spec(x, m),
{
    if m == 0xffff_ffff_ffff_ffffu64 {
        proof {
            assert forall|i: u64| i < 64 implies bit(x, i) == bit(pdep_spec(x, m), i) by {
                lemma_pdep_bit(x, m, i);
                lemma_rank_full(i as int);
                assert(bit(0xffff_ffff_ffff_ffffu64, i)) by (bit_vector)
                    requires
                        i < 64,
                ;
            }
            lemma_u64_ext(x, pdep_spec(x, m));
        }
        x
    } else {
        pdep_u64(x, m)
    }
}

/// Extracts the bits of `x` at the set bits of `m`, packed low.
pub fn extract(x: u64, m: u64) -> (r: u64)
    ensures
        r == pext_spec(x, m),
{
    if m == 0xffff_ffff_ffff_ffffu64 {
        proof {
            lemma_rank_full(64);
            assert forall|i: u64| i < 64 implies bit(x, i) == bit(pext_spec(x, m), i) by {
                lemma_rank_full(i as int);
                assert(bit(0xffff_ffff_ffff_ffffu64, i)) by (bit_vector)
                    requires
                        i < 64,
                ;
                lemma_pext_bit(x, m, i);
            }
            lemma_u64_ext(x, pext_spec(x, m));
        }
        x
    } else {
        pext_u64(x, m)
    }
}

/// Returns the number of set bits of `x`.
pub fn count_ones(x: u64) -> (r: u32)
    ensures
        r == popcount(x),
        r <= 64,
{
    let mut n: u32 = 0;
    let mut i: u64 = 0;
    while i < 64
        invariant
            i <= 64,
            n == rank(x, i as int),
            n <= i,
        decreases 64 - i,
    {
        if (x >> i) & 1 == 1 {
            n += 1;
        }
        i += 1;
    }
    n
}

/// Every set bit of `a` is a set bit of `m`.
pub open spec fn within(a: u64, m: u64) -> bool {
    forall|i: u64| i < 64 ==> (#[trigger] bit(a, i) ==> bit(m, i))
}

/// `x` and `y` have the same bits below `c`.
pub open spec fn agree(x: u64, y: u64, c: int) -> bool {
    forall|i: u64| (i as int) < c && i < 64 ==> #[trigger] bit(x, i) == bit(y, i)
}

/// `x` has no set bit at or above `c`.
pub open spec fn below(x: u64, c: int) -> bool {
    forall|i: u64| c <= (i as int) && i < 64 ==> !#[trigger] bit(x, i)
}

/// Bit `i` of `!a`.
pub proof fn lemma_bit_not(a: u64, i: u64)
    by (bit_vector)
    requires
        i < 64,
    ensures
        bit(!a, i) == !bit(a, i),
{
}

/// Values that agree below `c` have the same ranks up to `c`.
pub proof fn lemma_rank_agree(x: u64, y: u64, c: int, i: int)
    requires
        0 <= i <= c <= 64,
        agree(x, y, c),
    ensures
        rank(x, i) == rank(y, i),
    decreases i,
{
    if i > 0 {
        lemma_rank_agree(x, y, c, i - 1);
        assert(bit(x, (i - 1) as u64) == bit(y, (i - 1) as u64));
    }
}

/// A value with no bit at or above `c` has all its bits counted by the rank at `c`.
pub proof fn lemma_rank_below(x: u64, c: int)
    requires
        0 <= c <= 64,
        below(x, c),
    ensures
        rank(x, c) == popcount(x),
{
    assert forall|i: u64| c <= i < 64 implies !#[trigger] bit(x, i) by {}
    lemma_rank_top(x, c, 64);
}

/// The rank in an extract of the rank of a position in the mask is the rank in the source.
pub proof fn lemma_rank_pext(b: u64, m: u64, i: int)
    requires
        within(b, m),
        0 <= i <= 64,
    ensures
        rank(pext_spec(b, m), rank(m, i) as int) == rank(b, i),
    decreases i,
{
    if i > 0 {
        let k = i - 1;
        lemma_rank_pext(b, m, k);
        lemma_rank_bound(m, k);
        if bit(m, k as u64) {
            lemma_pext_bit(b, m, k as u64);
        } else {
            assert(!bit(b, k as u64));
        }
    }
}

/// An extract of a part of the mask has as many bits as the part.
pub proof fn lemma_popcount_pext(b: u64, m: u64)
    requires
        within(b, m),
    ensures
        popcount(pext_spec(b, m)) == popcount(b),
        below(pext_spec(b, m), popcount(m) as int),
{
    lemma_rank_pext(b, m, 64);
    lemma_rank_bound(m, 64);
    assert forall|j: u64| (popcount(m) as int) <= (j as int) && j < 64 implies !#[trigger] bit(pext_spec(b, m), j) by {
        lemma_pext_high(b, m, j);
    }
    lemma_rank_below(pext_spec(b, m), popcount(m) as int);
}

/// An extract has no bit at or above the number of set bits of its mask.
pub proof fn lemma_pext_below(x: u64, m: u64)
    ensures
        below(pext_spec(x, m), popcount(m) as int),
{
    assert forall|j: u64| (popcount(m) as int) <= (j as int) && j < 64 implies !#[trigger] bit(pext_spec(x, m), j) by {
        lemma_pext_high(x, m, j);
    }
}

/// Depositing what was extracted from a part of the mask gives the part back.
pub proof fn lemma_pdep_pext(a: u64, m: u64)
    requires
        within(a, m),
    ensures
        pdep_spec(pext_spec(a, m), m) == a,
{
    assert forall|i: u64| i < 64 implies bit(pdep_spec(pext_spec(a, m), m), i) == bit(a, i) by {
        lemma_pdep_bit(pext_spec(a, m), m, i);
        if bit(m, i) {
            lemma_pext_bit(a, m, i);
        }
    }
    lemma_u64_ext(pdep_spec(pext_spec(a, m), m), a);
}

/// Extracting in two steps: the part `a` of `b`, deposited into the place of `b` within
/// `m`, is the part `a` of `m`.
pub proof fn lemma_pdep_pext_comp(a: u64, b: u64, m: u64)
    requires
        within(a, b),
        within(b, m),
    ensures
        pdep_spec(pext_spec(a, b), pext_spec(b, m)) == pext_spec(a, m),
{
    let pbm = pext_spec(b, m);
    let lhs = pdep_spec(pext_spec(a, b), pbm);
    assert forall|j: u64| j < 64 implies bit(lhs, j) == bit(pext_spec(a, m), j) by {
        lemma_pdep_bit(pext_spec(a, b), pbm, j);
        if j < popcount(m) {
            lemma_pext_bit_at(a, m, j);
            let i = select(m, j as int);
            lemma_pext_bit(b, m, i as u64);
            if bit(b, i as u64) {
                lemma_rank_pext(b, m, i);
                lemma_pext_bit(a, b, i as u64);
            }
        } else {
            lemma_pext_high(a, m, j);
            lemma_pext_high(b, m, j);
        }
    }
    lemma_u64_ext(lhs, pext_spec(a, m));
}

/// A deposit reads only the bits of its source below the number of set bits of the mask.
pub proof fn lemma_pdep_low(x: u64, y: u64, m: u64)
    requires
        agree(x, y, popcount(m) as int),
    ensures
        pdep_spec(x, m) == pdep_spec(y, m),
{
    assert forall|i: u64| i < 64 implies bit(pdep_spec(x, m), i) == bit(pdep_spec(y, m), i) by {
        lemma_pdep_bit(x, m, i);
        lemma_pdep_bit(y, m, i);
        if bit(m, i) {
            lemma_rank_lt_popcount(m, i as int);
            lemma_rank_bound(m, 64);
            assert(bit(x, rank(m, i as int) as u64) == bit(y, rank(m, i as int) as u64));
        }
    }
    lemma_u64_ext(pdep_spec(x, m), pdep_spec(y, m));
}

/// Below the number of set bits of `b`, the complement of the extract of a part `a` is the
/// extract of the rest of `b`.
pub proof fn lemma_not_pext(a: u64, b: u64)
    requires
        within(a, b),
    ensures
        agree(!pext_spec(a, b), pext_spec(b & !a, b), popcount(b) as int),
        within(b & !a, b),
{
    assert forall|i: u64| i < 64 implies (#[trigger] bit(b & !a, i) ==> bit(b, i)) by {
        lemma_bit_and(b, !a, i);
    }
    assert forall|j: u64| (j as int) < (popcount(b) as int) && j < 64 implies #[trigger] bit(!pext_spec(a, b), j) == bit(
        pext_spec(b & !a, b),
        j,
    ) by {
        lemma_bit_not(pext_spec(a, b), j);
        lemma_pext_bit_at(a, b, j);
        lemma_pext_bit_at(b & !a, b, j);
        let i = select(b, j as int) as u64;
        lemma_bit_and(b, !a, i);
        lemma_bit_not(a, i);
    }
}

/// Depositing the complement of an extract of a part `a` of `b` into the place of `b` within
/// `m` gives the rest of `b`, extracted from `m`.
pub proof fn lemma_pdep_not_comp(a: u64, b: u64, m: u64)
    requires
        within(a, b),
        within(b, m),
    ensures
        pdep_spec(!pext_spec(a, b), pext_spec(b, m)) == pext_spec(b & !a, m),
        within(b & !a, b),
{
    lemma_not_pext(a, b);
    lemma_popcount_pext(b, m);
    lemma_pdep_low(!pext_spec(a, b), pext_spec(b & !a, b), pext_spec(b, m));
    lemma_pdep_pext_comp(b & !a, b, m);
}

/// A mask that agrees below `c` with a mask `m0` with no bits from `c` on: deposits agree
/// below `c`, and a source without bits from the count of `m0` on deposits nothing from `c`.
pub proof fn lemma_pdep_junk(x: u64, m: u64, m0: u64, c: int)
    requires
        0 <= c <= 64,
        agree(m, m0, c),
        below(m0, c),
    ensures
        agree(pdep_spec(x, m), pdep_spec(x, m0), c),
        below(x, popcount(m0) as int) ==> below(pdep_spec(x, m), c),
{
    assert forall|i: u64| (i as int) < c && i < 64 implies #[trigger] bit(pdep_spec(x, m), i) == bit(pdep_spec(x, m0), i) by {
        lemma_pdep_bit(x, m, i);
        lemma_pdep_bit(x, m0, i);
        lemma_rank_agree(m, m0, c, i as int);
    }
    if below(x, popcount(m0) as int) {
        assert forall|i: u64| c <= (i as int) && i < 64 implies !#[trigger] bit(pdep_spec(x, m), i) by {
            lemma_pdep_bit(x, m, i);
            if bit(m, i) {
                lemma_rank_agree(m, m0, c, c);
                lemma_rank_below(m0, c);
                lemma_rank_mono(m, c, i as int);
                lemma_rank_bound(m, i as int);
            }
        }
    }
}

/// Extracting a part of `m0` from a mask that agrees with `m0` below `c`, where `m0` has no
/// bits from `c` on, is extracting it from `m0`.
pub proof fn lemma_pext_junk(a: u64, m: u64, m0: u64, c: int)
    requires
        0 <= c <= 64,
        agree(m, m0, c),
        below(m0, c),
        within(a, m0),
    ensures
        pext_spec(a, m) == pext_spec(a, m0),
{
    lemma_rank_agree(m, m0, c, c);
    lemma_rank_below(m0, c);
    assert forall|j: u64| j < 64 implies bit(pext_spec(a, m), j) == bit(pext_spec(a, m0), j) by {
        if j < popcount(m0) {
            lemma_pext_bit_at(a, m0, j);
            let i = select(m0, j as int);
            assert(i < c);
            lemma_rank_agree(m, m0, c, i);
            lemma_pext_bit(a, m, i as u64);
        } else {
            lemma_pext_high(a, m0, j);
            if j < popcount(m) {
                lemma_pext_bit_at(a, m, j);
                let i = select(m, j as int);
                if i < c {
                    lemma_rank_mono(m, i, c);
                }
            } else {
                lemma_pext_high(a, m, j);
            }
        }
    }
    lemma_u64_ext(pext_spec(a, m), pext_spec(a, m0));
}

/// The bits of `x | y`.
pub proof fn lemma_bits_or(x: u64, y: u64)
    ensures
        forall|i: u64| i < 64 ==> #[trigger] bit(x | y, i) == (bit(x, i) || bit(y, i)),
{
    assert forall|i: u64| i < 64 implies #[trigger] bit(x | y, i) == (bit(x, i) || bit(y, i)) by {
        lemma_bit_or(x, y, i);
    }
}

/// The bits of `x & y`.
pub proof fn lemma_bits_and(x: u64, y: u64)
    ensures
        forall|i: u64| i < 64 ==> #[trigger] bit(x & y, i) == (bit(x, i) && bit(y, i)),
{
    assert forall|i: u64| i < 64 implies #[trigger] bit(x & y, i) == (bit(x, i) && bit(y, i)) by {
        lemma_bit_and(x, y, i);
    }
}

/// The bits of `!x`.
pub proof fn lemma_bits_not(x: u64)
    ensures
        forall|i: u64| i < 64 ==> #[trigger] bit(!x, i) == !bit(x, i),
{
    assert forall|i: u64| i < 64 implies #[trigger] bit(!x, i) == !bit(x, i) by {
        lemma_bit_not(x, i);
    }
}

/// The set bits of two values without common bits add up.
pub proof fn lemma_rank_or(x: u64, y: u64, k: int)
    requires
        0 <= k <= 64,
        forall|i: u64| i < 64 ==> !(#[trigger] bit(x, i) && bit(y, i)),
    ensures
        rank(x | y, k) == rank(x, k) + rank(y, k),
    decreases k,
{
    if k > 0 {
        lemma_rank_or(x, y, k - 1);
        lemma_bit_or(x, y, (k - 1) as u64);
        assert(!(bit(x, (k - 1) as u64) && bit(y, (k - 1) as u64)));
    }
}

/// The set bits of two values without common bits add up.
pub proof fn lemma_popcount_or(x: u64, y: u64)
    requires
        forall|i: u64| i < 64 ==> !(#[trigger] bit(x, i) && bit(y, i)),
    ensures
        popcount(x | y) == popcount(x) + popcount(y),
{
    lemma_rank_or(x, y, 64);
}

/// Values that agree below `c` and have no bits from `c` on are equal.
pub proof fn lemma_agree_below_eq(x: u64, y: u64, c: int)
    requires
        0 <= c <= 64,
        agree(x, y, c),
        below(x, c),
        below(y, c),
    ensures
        x == y,
{
    assert forall|i: u64| i < 64 implies bit(x, i) == bit(y, i) by {
        if (i as int) < c {
        } else {
        }
    }
    lemma_u64_ext(x, y);
}

/// A value with no bits from `c` on is below `2^c`.
pub proof fn lemma_below_bound(x: u64, c: u64)
    requires
        c < 64,
        below(x, c as int),
    ensures
        x < (1u64 << c),
{
    assert forall|i: u64| i < 64 implies !bit(x, i) || bit(((1u64 << c) - 1u64) as u64, i) by {
        crate::bitboard::lemma_bit_bound(0, c, i);
    }
    assert(1u64 << c >= 1u64) by (bit_vector)
        requires
            c < 64,
    ;
    assert((((1u64 << c) - 1u64) as u64) < (1u64 << c));
    crate::bitboard::lemma_subset_bound(x, ((1u64 << c) - 1u64) as u64, c);
}

/// An extract reads only the bits of its source that lie in the mask.
pub proof fn lemma_pext_mask(x: u64, m: u64)
    ensures
        pext_spec(x, m) == pext_spec(x & m, m),
{
    assert forall|j: u64| j < 64 implies bit(pext_spec(x, m), j) == bit(pext_spec(x & m, m), j) by {
        if j < popcount(m) {
            lemma_pext_bit_at(x, m, j);
            lemma_pext_bit_at(x & m, m, j);
            lemma_bit_and(x, m, select(m, j as int) as u64);
        } else {
            lemma_pext_high(x, m, j);
            lemma_pext_high(x & m, m, j);
        }
    }
    lemma_u64_ext(pext_spec(x, m), pext_spec(x & m, m));
}

/// The bits of `x ^ y`.
pub proof fn lemma_bits_xor(x: u64, y: u64)
    ensures
        forall|i: u64| i < 64 ==> #[trigger] bit(x ^ y, i) == (bit(x, i) != bit(y, i)),
{
    assert forall|i: u64| i < 64 implies #[trigger] bit(x ^ y, i) == (bit(x, i) != bit(y, i)) by {
        lemma_bit_xor(x, y, i);
    }
}

} // verus!
