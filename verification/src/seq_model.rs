//! The mathematical model of a chunk source: a finite sequence of chunks,
//! conceptually padded with zeros forever, read as a set of indices.

use vstd::prelude::*;

use crate::chunk_facts::{
    chunk_ones, lemma_chunk_addr_roundtrip, lemma_chunk_no_bits, lemma_chunk_ones_zero,
};
use crate::{chunk_bit, spec_bit_index, spec_chunk_index, Chunk};

verus! {

/// The chunk at position `i` of the zero-padded sequence `s`.
pub open spec fn seq_chunk(s: Seq<Chunk>, i: int) -> Chunk {
    if 0 <= i < s.len() {
        s[i]
    } else {
        0
    }
}

/// Whether index `i` is a member of the set that `s` encodes.
pub open spec fn seq_has_index(s: Seq<Chunk>, i: int) -> bool {
    0 <= i && chunk_bit(seq_chunk(s, spec_chunk_index(i)), spec_bit_index(i))
}

/// Whether every member of `s` is a member of `t`.
pub open spec fn seq_subset(s: Seq<Chunk>, t: Seq<Chunk>) -> bool {
    forall|i: int| seq_has_index(s, i) ==> seq_has_index(t, i)
}

/// Whether `s` and `t` encode the same set of indices.
pub open spec fn seq_same_set(s: Seq<Chunk>, t: Seq<Chunk>) -> bool {
    forall|i: int| seq_has_index(s, i) == seq_has_index(t, i)
}

/// The number of members found in the chunks below position `n`.
pub open spec fn seq_ones_up_to(s: Seq<Chunk>, n: int) -> nat
    decreases n,
{
    if n <= 0 {
        0
    } else {
        seq_ones_up_to(s, n - 1) + chunk_ones(seq_chunk(s, n - 1))
    }
}

/// The number of members of the whole set.
pub open spec fn seq_index_count(s: Seq<Chunk>) -> nat {
    seq_ones_up_to(s, s.len() as int)
}

/// A set bit of the chunk at position `j` is a member at the recombined
/// linear index.
pub proof fn lemma_member_of_chunk(s: Seq<Chunk>, j: int, b: u64)
    requires
        0 <= j,
        chunk_bit(seq_chunk(s, j), b),
    ensures
        seq_has_index(s, 64 * j + b),
{
    lemma_chunk_addr_roundtrip(j, b as int);
}

/// A member's chunk position is its index divided by the chunk width.
pub proof fn lemma_chunk_of_member(s: Seq<Chunk>, i: int)
    requires
        seq_has_index(s, i),
    ensures
        0 <= spec_chunk_index(i),
        i == 64 * spec_chunk_index(i) + spec_bit_index(i),
        chunk_bit(seq_chunk(s, spec_chunk_index(i)), spec_bit_index(i)),
{
}

/// A sequence whose chunks are all zero encodes the empty set.
pub proof fn lemma_all_zero_empty(s: Seq<Chunk>)
    requires
        forall|j: int| seq_chunk(s, j) == 0,
    ensures
        forall|i: int| !seq_has_index(s, i),
{
    assert forall|i: int| !seq_has_index(s, i) by {
        lemma_chunk_no_bits(seq_chunk(s, spec_chunk_index(i)));
    }
}

/// Sequences with pointwise equal padded chunks encode the same set.
pub proof fn lemma_pointwise_same_set(s: Seq<Chunk>, t: Seq<Chunk>)
    requires
        forall|j: int| seq_chunk(s, j) == seq_chunk(t, j),
    ensures
        seq_same_set(s, t),
{
}

/// Same sets are subsets of one another.
pub proof fn lemma_same_implies_subset(s: Seq<Chunk>, t: Seq<Chunk>)
    requires
        seq_same_set(s, t),
    ensures
        seq_subset(s, t),
        seq_subset(t, s),
{
}

/// Chunkwise containment gives set containment.
pub proof fn lemma_chunkwise_subset(s: Seq<Chunk>, t: Seq<Chunk>)
    requires
        forall|j: int| 0 <= j ==> seq_chunk(s, j) & !seq_chunk(t, j) == 0,
    ensures
        seq_subset(s, t),
{
    assert forall|i: int| seq_has_index(s, i) implies seq_has_index(t, i) by {
        crate::chunk_facts::lemma_andnot_zero(
            seq_chunk(s, spec_chunk_index(i)),
            seq_chunk(t, spec_chunk_index(i)),
        );
    }
}

/// A chunk holding a bit the other side lacks breaks containment.
pub proof fn lemma_chunk_witness_not_subset(s: Seq<Chunk>, t: Seq<Chunk>, j: int)
    requires
        0 <= j,
        seq_chunk(s, j) & !seq_chunk(t, j) != 0,
    ensures
        !seq_subset(s, t),
        !seq_same_set(s, t),
{
    let w = seq_chunk(s, j) & !seq_chunk(t, j);
    crate::chunk_facts::lemma_nonzero_has_bit(w);
    let b = crate::chunk_facts::first_bit(w);
    crate::chunk_facts::lemma_chunk_bitwise(seq_chunk(s, j), seq_chunk(t, j), b);
    lemma_member_of_chunk(s, j, b);
    lemma_chunk_addr_roundtrip(j, b as int);
    assert(seq_has_index(s, 64 * j + b) && !seq_has_index(t, 64 * j + b));
}

/// Two indices agree exactly when their chunk addresses agree.
pub proof fn lemma_index_addr_unique(i: int, k: int)
    requires
        0 <= i,
        0 <= k,
    ensures
        (i == k) <==> (spec_chunk_index(i) == spec_chunk_index(k) && spec_bit_index(i)
            == spec_bit_index(k)),
{
    vstd::arithmetic::div_mod::lemma_fundamental_div_mod(i, 64);
    vstd::arithmetic::div_mod::lemma_fundamental_div_mod(k, 64);
}

/// Replacing one chunk changes membership only inside that chunk's range,
/// where the new chunk's bits now decide it.
pub proof fn lemma_set_chunk_members(s: Seq<Chunk>, j: int, c: Chunk, i: int)
    requires
        0 <= j < s.len(),
    ensures
        seq_has_index(s.update(j, c), i) == if 0 <= i && spec_chunk_index(i) == j {
            chunk_bit(c, spec_bit_index(i))
        } else {
            seq_has_index(s, i)
        },
{
}

/// The exact zero bound of a chunk sequence: the least position from which
/// on every chunk is zero.
pub open spec fn seq_exact_len(s: Seq<Chunk>) -> int
    decreases s.len(),
{
    if s.len() == 0 {
        0
    } else if s[s.len() - 1] != 0 {
        s.len() as int
    } else {
        seq_exact_len(s.drop_last())
    }
}

/// The exact zero bound is a bound, is tight, and lies within the
/// sequence.
pub proof fn lemma_seq_exact_len(s: Seq<Chunk>)
    ensures
        0 <= seq_exact_len(s) <= s.len(),
        forall|j: int| seq_exact_len(s) <= j ==> seq_chunk(s, j) == 0,
        seq_exact_len(s) > 0 ==> seq_chunk(s, seq_exact_len(s) - 1) != 0,
    decreases s.len(),
{
    if s.len() > 0 && s[s.len() - 1] == 0 {
        lemma_seq_exact_len(s.drop_last());
        assert forall|j: int| seq_exact_len(s) <= j implies seq_chunk(s, j) == 0 by {
            if 0 <= j < s.len() - 1 {
                assert(seq_chunk(s.drop_last(), j) == s[j]);
            }
        }
        if seq_exact_len(s) > 0 {
            assert(seq_chunk(s.drop_last(), seq_exact_len(s) - 1) == s[seq_exact_len(s) - 1]);
        }
    }
}

/// Any position that bounds the zero tail and sits just above a nonzero
/// chunk is the exact zero bound.
pub proof fn lemma_exact_len_unique(s: Seq<Chunk>, r: int)
    requires
        0 <= r <= s.len(),
        forall|j: int| r <= j ==> seq_chunk(s, j) == 0,
        r > 0 ==> seq_chunk(s, r - 1) != 0,
    ensures
        r == seq_exact_len(s),
{
    lemma_seq_exact_len(s);
    if r < seq_exact_len(s) {
        assert(seq_chunk(s, seq_exact_len(s) - 1) == 0);
    }
    if r > seq_exact_len(s) {
        assert(seq_chunk(s, r - 1) == 0);
    }
}

/// The chunk sequence read as one little-endian number, from position `k`
/// on: the bit pattern of the encoded set.
pub open spec fn seq_chunks_nat_from(s: Seq<Chunk>, k: int) -> nat
    decreases s.len() - k,
{
    if k < 0 || k >= s.len() {
        0
    } else {
        (s[k] + 0x1_0000_0000_0000_0000 * seq_chunks_nat_from(s, k + 1)) as nat
    }
}

/// The whole chunk sequence read as one little-endian number.
pub open spec fn seq_chunks_nat(s: Seq<Chunk>) -> nat {
    seq_chunks_nat_from(s, 0)
}

/// The number is zero exactly when every chunk from `k` on is zero.
pub proof fn lemma_chunks_nat_zero(s: Seq<Chunk>, k: int)
    requires
        0 <= k,
    ensures
        (seq_chunks_nat_from(s, k) == 0) <==> (forall|j: int| k <= j < s.len() ==> s[j] == 0),
    decreases s.len() - k,
{
    if k < s.len() {
        lemma_chunks_nat_zero(s, k + 1);
    }
}

/// Sequences equal from `k` on read as the same number from `k` on.
pub proof fn lemma_chunks_nat_congruent(s: Seq<Chunk>, t: Seq<Chunk>, k: int)
    requires
        s.len() == t.len(),
        forall|j: int| k <= j < s.len() ==> s[j] == t[j],
    ensures
        seq_chunks_nat_from(s, k) == seq_chunks_nat_from(t, k),
    decreases s.len() - k,
{
    if 0 <= k < s.len() {
        lemma_chunks_nat_congruent(s, t, k + 1);
    }
}

/// Borrow propagation: turning a run of zero chunks into all-ones chunks
/// and taking one off the first nonzero chunk decreases the number by
/// exactly one.
pub proof fn lemma_chunks_nat_decrement(s: Seq<Chunk>, t: Seq<Chunk>, base: int, k: int)
    requires
        s.len() == t.len(),
        0 <= base <= k < s.len(),
        forall|j: int| base <= j < k ==> s[j] == 0,
        forall|j: int| base <= j < k ==> t[j] == !0u64,
        s[k] != 0,
        t[k] == (s[k] - 1) as u64,
        forall|j: int| k < j < s.len() ==> t[j] == s[j],
    ensures
        seq_chunks_nat_from(t, base) + 1 == seq_chunks_nat_from(s, base),
    decreases k - base,
{
    crate::chunk_facts::lemma_all_ones();
    if base == k {
        lemma_chunks_nat_congruent(s, t, k + 1);
    } else {
        lemma_chunks_nat_decrement(s, t, base + 1, k);
    }
}

/// The set of members that `s` encodes.
pub open spec fn seq_members(s: Seq<Chunk>) -> Set<int> {
    Set::new(|i: int| seq_has_index(s, i))
}

/// The members of `s` below the linear index `m`.
pub open spec fn seq_members_below(s: Seq<Chunk>, m: int) -> Set<int> {
    Set::new(|i: int| i < m && seq_has_index(s, i))
}

/// The member count ignores chunks that are zero from `m` on.
pub proof fn lemma_ones_stable(s: Seq<Chunk>, m: int, n: int)
    requires
        0 <= m <= n,
        forall|j: int| m <= j < n ==> seq_chunk(s, j) == 0,
    ensures
        seq_ones_up_to(s, n) == seq_ones_up_to(s, m),
    decreases n - m,
{
    if m < n {
        lemma_ones_stable(s, m, n - 1);
        lemma_chunk_ones_zero();
    }
}

} // verus!
