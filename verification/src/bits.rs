//! Facts about single bits of a 64-bit word, and the trusted statement of
//! what the population-count instruction returns.

use vstd::prelude::*;

verus! {

/// Bit `i` of `x` is set. Positions at or above the word width hold no bit.
pub open spec fn bit(x: u64, i: u64) -> bool {
    i < 64 && (x >> i) & 1 == 1
}

/// The word `x`, read as a set of cells, holds cell `c`.
pub open spec fn has_cell(x: u64, c: u8) -> bool {
    bit(x, c as u64)
}

/// Number of set bits of `x` among the positions below `n`.
pub open spec fn count_bits(x: u64, n: nat) -> nat
    decreases n,
{
    if n == 0 {
        0
    } else {
        count_bits(x, (n - 1) as nat) + if bit(x, (n - 1) as u64) {
            1nat
        } else {
            0nat
        }
    }
}

/// `u64::count_ones` of std: the number of ones in the binary
/// representation of the word, that is, the set bits among all 64 positions.
pub assume_specification[ u64::count_ones ](x: u64) -> (r: u32)
    ensures
        r == count_bits(x, 64),
;

/// The zero word has no bit set.
pub proof fn lemma_bit_zero(i: u64)
    by (bit_vector)
    ensures
        !bit(0u64, i),
{
}

/// A bit of `a | b` is set where it is set in either word.
pub proof fn lemma_bit_or(a: u64, b: u64, i: u64)
    by (bit_vector)
    ensures
        bit(a | b, i) == (bit(a, i) || bit(b, i)),
{
}

/// A bit of `a & b` is set where it is set in both words.
pub proof fn lemma_bit_and(a: u64, b: u64, i: u64)
    by (bit_vector)
    ensures
        bit(a & b, i) == (bit(a, i) && bit(b, i)),
{
}

/// A bit of `a & !b` is set where it is set in `a` and not in `b`.
pub proof fn lemma_bit_and_not(a: u64, b: u64, i: u64)
    by (bit_vector)
    ensures
        bit(a & !b, i) == (bit(a, i) && !bit(b, i)),
{
}

/// The word with only bit `v` set.
pub proof fn lemma_bit_single(v: u64, i: u64)
    by (bit_vector)
    requires
        v < 64,
    ensures
        bit(1u64 << v, i) == (i == v),
{
}

/// Shifting right by `k` moves bit `i + k` to position `i`.
pub proof fn lemma_bit_shr(x: u64, k: u64, i: u64)
    by (bit_vector)
    requires
        k < 64,
        i < 64,
    ensures
        bit(x >> k, i) == (i + k < 64 && bit(x, (i + k) as u64)),
{
}

/// The mask of all positions below `t`.
pub proof fn lemma_bit_below(t: u64, i: u64)
    by (bit_vector)
    requires
        t < 64,
    ensures
        (1u64 << t) >= 1,
        bit(((1u64 << t) - 1) as u64, i) == (i < t),
{
}

/// The mask of all positions above `t`.
pub proof fn lemma_bit_above(t: u64, i: u64)
    by (bit_vector)
    requires
        t < 63,
    ensures
        (1u64 << ((t + 1) as u64)) >= 1,
        bit(!(((1u64 << ((t + 1) as u64)) - 1) as u64), i) == (t < i && i < 64),
{
}

/// The low sixty positions.
pub proof fn lemma_bit_low_sixty(i: u64)
    by (bit_vector)
    ensures
        bit(!0u64 >> 4, i) == (i < 60),
{
}

/// Two words with the same bits are the same word.
pub proof fn lemma_bits_equal(a: u64, b: u64)
    requires
        forall|i: u64| i < 64 ==> bit(a, i) == bit(b, i),
    ensures
        a == b,
{
    let d = a ^ b;
    if d != 0 {
        vstd::std_specs::bits::axiom_u64_trailing_zeros(d);
        let t = vstd::std_specs::bits::u64_trailing_zeros(d) as u64;
        assert(t < 64);
        assert(bit(a, t) == bit(b, t));
        assert(((a ^ b) >> t) & 1 == 1 ==> (((a >> t) & 1 == 1) != ((b >> t) & 1 == 1)))
            by (bit_vector)
            requires
                t < 64,
        ;
    }
    assert(a ^ b == 0 ==> a == b) by (bit_vector);
}

/// A nonzero word has a lowest set bit, at the position `trailing_zeros` gives.
pub proof fn lemma_lowest_bit(x: u64)
    requires
        x != 0,
    ensures
        vstd::std_specs::bits::u64_trailing_zeros(x) < 64,
        bit(x, vstd::std_specs::bits::u64_trailing_zeros(x) as u64),
        forall|j: u64| j < vstd::std_specs::bits::u64_trailing_zeros(x) ==> !bit(x, j),
{
    vstd::std_specs::bits::axiom_u64_trailing_zeros(x);
    let t = vstd::std_specs::bits::u64_trailing_zeros(x);
    assert forall|j: u64| j < t implies !bit(x, j) by {
        assert((x >> j) & 1u64 == 0u64);
    }
}

/// A nonzero word has a highest set bit, at the position `leading_zeros` gives.
pub proof fn lemma_highest_bit(x: u64)
    requires
        x != 0,
    ensures
        0 <= vstd::std_specs::bits::u64_leading_zeros(x) < 64,
        bit(x, (63 - vstd::std_specs::bits::u64_leading_zeros(x)) as u64),
        forall|j: u64|
            63 - vstd::std_specs::bits::u64_leading_zeros(x) < j < 64 ==> !bit(x, j),
{
    vstd::std_specs::bits::axiom_u64_leading_zeros(x);
    let l = vstd::std_specs::bits::u64_leading_zeros(x);
    let h = (63 - l) as u64;
    assert((x >> h) & 1u64 != 0u64);
    assert((x >> h) & 1u64 != 0u64 ==> (x >> h) & 1u64 == 1u64) by (bit_vector);
    assert forall|j: u64| 63 - l < j < 64 implies !bit(x, j) by {
        assert((x >> j) & 1u64 == 0u64);
    }
}

} // verus!
