//! Bit-level facts about single chunks: pointwise effects of the bitwise
//! operators, mask shapes, and the population count.

use vstd::prelude::*;

use crate::chunk_bit;
use vstd::std_specs::bits::{
    axiom_u64_leading_zeros, axiom_u64_trailing_zeros, u64_leading_zeros, u64_trailing_zeros,
};

verus! {

/// Pointwise reading of the four combining operators.
pub proof fn lemma_chunk_bitwise(x: u64, y: u64, b: u64)
    by (bit_vector)
    requires
        b < 64,
    ensures
        chunk_bit(x | y, b) == (chunk_bit(x, b) || chunk_bit(y, b)),
        chunk_bit(x & y, b) == (chunk_bit(x, b) && chunk_bit(y, b)),
        chunk_bit(x ^ y, b) == (chunk_bit(x, b) != chunk_bit(y, b)),
        chunk_bit(x & !y, b) == (chunk_bit(x, b) && !chunk_bit(y, b)),
{
}

/// Combining with an all-zero operand.
pub proof fn lemma_chunk_zero_ops(x: u64)
    by (bit_vector)
    ensures
        x | 0u64 == x,
        0u64 | x == x,
        x & 0u64 == 0u64,
        0u64 & x == 0u64,
        x ^ 0u64 == x,
        0u64 ^ x == x,
        x & !0u64 == x,
        0u64 & !x == 0u64,
        x & !x == 0u64,
{
}

/// A single-bit mask has exactly its own bit.
pub proof fn lemma_mask_bit(o: u64, b: u64)
    by (bit_vector)
    requires
        o < 64,
        b < 64,
    ensures
        chunk_bit(1u64 << o, b) == (b == o),
{
}

/// The position of the lowest set bit of `c`; 64 when `c` is zero.
pub open spec fn first_bit(c: u64) -> u64 {
    u64_trailing_zeros(c) as u64
}

/// A nonzero chunk has a set bit: its lowest one.
pub proof fn lemma_nonzero_has_bit(c: u64)
    requires
        c != 0,
    ensures
        first_bit(c) < 64,
        chunk_bit(c, first_bit(c)),
        forall|b: u64| b < first_bit(c) ==> !chunk_bit(c, b),
{
    axiom_u64_trailing_zeros(c);
}

/// Testing a single-bit mask against a chunk reads that chunk's bit.
pub proof fn lemma_mask_test(c: u64, o: u64)
    by (bit_vector)
    requires
        o < 64,
    ensures
        (c & (1u64 << o) != 0) <==> chunk_bit(c, o),
{
}

/// The zero chunk has no bits, and a chunk without bits is zero.
pub proof fn lemma_chunk_no_bits(c: u64)
    ensures
        c == 0 <==> (forall|b: u64| !chunk_bit(c, b)),
{
    if c == 0 {
        assert forall|b: u64| !chunk_bit(c, b) by {
            if b < 64 {
                assert(!chunk_bit(0u64, b)) by (bit_vector)
                    requires
                        b < 64,
                ;
            }
        }
    } else {
        lemma_nonzero_has_bit(c);
    }
}

/// Chunks that agree on every bit are equal.
pub proof fn lemma_chunk_ext(x: u64, y: u64)
    requires
        forall|b: u64| chunk_bit(x, b) == chunk_bit(y, b),
    ensures
        x == y,
{
    if x != y {
        assert(x ^ y != 0) by (bit_vector)
            requires
                x != y,
        ;
        lemma_nonzero_has_bit(x ^ y);
        let b = u64_trailing_zeros(x ^ y) as u64;
        lemma_chunk_bitwise(x, y, b);
    }
}

/// `x & !y == 0` says exactly that `x`'s bits are among `y`'s.
pub proof fn lemma_andnot_zero(x: u64, y: u64)
    ensures
        (x & !y == 0) <==> (forall|b: u64| chunk_bit(x, b) ==> chunk_bit(y, b)),
{
    if x & !y == 0 {
        assert forall|b: u64| chunk_bit(x, b) implies chunk_bit(y, b) by {
            lemma_chunk_bitwise(x, y, b);
            lemma_chunk_no_bits(x & !y);
        }
    } else {
        lemma_nonzero_has_bit(x & !y);
        let b = u64_trailing_zeros(x & !y) as u64;
        lemma_chunk_bitwise(x, y, b);
    }
}

/// The two partial masks of a bulk range operation: all bits from `s` up,
/// and all bits below `e`.
pub proof fn lemma_range_masks(s: u64, e: u64, b: u64)
    by (bit_vector)
    requires
        s < 64,
        e < 64,
        b < 64,
    ensures
        chunk_bit(!0u64 << s, b) == (s <= b),
        chunk_bit(!((!0u64) << e), b) == (b < e),
        chunk_bit(!0u64, b),
{
}

/// Chunks that contain each other's bits are equal.
pub proof fn lemma_andnot_both_zero(x: u64, y: u64)
    requires
        x & !y == 0,
        y & !x == 0,
    ensures
        x == y,
{
    lemma_andnot_zero(x, y);
    lemma_andnot_zero(y, x);
    lemma_chunk_ext(x, y);
}

/// The position of the highest set bit of a nonzero chunk.
pub open spec fn last_bit(c: u64) -> u64 {
    (63 - u64_leading_zeros(c)) as u64
}

/// A nonzero chunk's highest set bit is set, and nothing above it is.
pub proof fn lemma_nonzero_last_bit(c: u64)
    requires
        c != 0,
    ensures
        last_bit(c) < 64,
        chunk_bit(c, last_bit(c)),
        forall|b: u64| last_bit(c) < b ==> !chunk_bit(c, b),
{
    axiom_u64_leading_zeros(c);
    let lb = last_bit(c);
    assert((c >> lb) & 1u64 != 0 ==> (c >> lb) & 1u64 == 1u64) by (bit_vector);
    assert forall|b: u64| last_bit(c) < b implies !chunk_bit(c, b) by {
        if b < 64 {
            assert(64 - u64_leading_zeros(c) <= b < 64);
        }
    }
}

/// The all-ones chunk, as a number.
pub proof fn lemma_all_ones()
    by (bit_vector)
    ensures
        !0u64 == 0xffff_ffff_ffff_ffffu64,
{
}

/// The below-`e` mask is empty exactly when `e` is zero.
pub proof fn lemma_low_mask_zero(e: u64)
    by (bit_vector)
    requires
        e < 64,
    ensures
        (!((!0u64) << e) == 0) <==> (e == 0),
{
}

/// Splitting a linear index into chunk position and bit offset inverts
/// recombining them.
pub proof fn lemma_chunk_addr_roundtrip(c: int, b: int)
    by (nonlinear_arith)
    requires
        0 <= c,
        0 <= b < 64,
    ensures
        (64 * c + b) / 64 == c,
        (64 * c + b) % 64 == b,
{
}

/// The set of bit positions below `k` that are set in `c`.
pub open spec fn chunk_bits_below(c: u64, k: int) -> Set<u64> {
    Set::new(|b: u64| b < k && chunk_bit(c, b))
}

/// How many of the 64 bits of `c` are set.
pub open spec fn chunk_ones(c: u64) -> nat {
    chunk_bits_below(c, 64).len()
}

/// Growing the bit window by one position adds at most the new position.
pub proof fn lemma_chunk_bits_below_step(c: u64, k: int)
    requires
        0 <= k < 64,
    ensures
        chunk_bit(c, k as u64) ==> chunk_bits_below(c, k + 1)
            == chunk_bits_below(c, k).insert(k as u64),
        !chunk_bit(c, k as u64) ==> chunk_bits_below(c, k + 1) == chunk_bits_below(c, k),
{
    if chunk_bit(c, k as u64) {
        assert(chunk_bits_below(c, k + 1) =~= chunk_bits_below(c, k).insert(k as u64));
    } else {
        assert(chunk_bits_below(c, k + 1) =~= chunk_bits_below(c, k));
    }
}

/// Every bit window is a finite set, no larger than the window.
pub proof fn lemma_chunk_bits_below_finite(c: u64, k: int)
    ensures
        chunk_bits_below(c, k).finite(),
        chunk_bits_below(c, k).len() <= if k < 0 { 0 } else { k },
    decreases k,
{
    if k <= 0 {
        assert(chunk_bits_below(c, k) =~= Set::<u64>::empty());
    } else {
        lemma_chunk_bits_below_finite(c, k - 1);
        if k <= 64 {
            lemma_chunk_bits_below_step(c, k - 1);
        } else {
            assert(chunk_bits_below(c, k) =~= chunk_bits_below(c, k - 1));
        }
    }
}

/// The zero chunk has a population count of zero.
pub proof fn lemma_chunk_ones_zero()
    ensures
        chunk_ones(0u64) == 0,
{
    lemma_chunk_no_bits(0u64);
    assert(chunk_bits_below(0u64, 64) =~= Set::<u64>::empty());
}

/// Counts the set bits of one chunk.
pub fn count_chunk_ones(c: u64) -> (r: usize)
    ensures
        r == chunk_ones(c),
        r <= 64,
{
    let mut count: usize = 0;
    let mut b: u64 = 0;
    proof {
        assert(chunk_bits_below(c, 0) =~= Set::<u64>::empty());
    }
    while b < 64
        invariant
            b <= 64,
            count == chunk_bits_below(c, b as int).len(),
            count <= b,
            chunk_bits_below(c, b as int).finite(),
        decreases 64 - b,
    {
        proof {
            lemma_chunk_bits_below_step(c, b as int);
        }
        if (c >> b) & 1u64 == 1u64 {
            proof {
                assert(!chunk_bits_below(c, b as int).contains(b));
            }
            count += 1;
        }
        b += 1;
    }
    count
}

} // verus!
