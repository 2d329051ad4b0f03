//! The algebraic laws of the lazy combinators: how membership in a
//! combined view reads off the membership of its two operands.

use vstd::prelude::*;

use crate::chunk_facts::lemma_chunk_bitwise;
use crate::combinators::bin_ops::{And, Or, Without, Xor};
use crate::combinators::{lemma_combined_chunk, BinChunkOp, CombinedChunkReads};
use crate::seq_model::{seq_chunk, seq_has_index, seq_same_set};
use crate::traits::ChunkRead;
use crate::{chunk_bit, spec_bit_index, spec_chunk_index, Chunk};

verus! {

/// Union: an index is a member of `a.or(b)` exactly when it is a member of
/// `a` or a member of `b`.
pub proof fn lemma_union_membership<'a, A: ChunkRead, B: ChunkRead>(
    c: &CombinedChunkReads<'a, A, B, Or>,
    i: int,
)
    ensures
        seq_has_index(c.chunk_seq(), i) == (seq_has_index(c.a.chunk_seq(), i) || seq_has_index(
            c.b.chunk_seq(),
            i,
        )),
{
    if 0 <= i {
        lemma_combined_chunk(c, spec_chunk_index(i));
        lemma_chunk_bitwise(
            seq_chunk(c.a.chunk_seq(), spec_chunk_index(i)),
            seq_chunk(c.b.chunk_seq(), spec_chunk_index(i)),
            spec_bit_index(i),
        );
    }
}

/// Intersection: an index is a member of `a.and(b)` exactly when it is a
/// member of both `a` and `b`.
pub proof fn lemma_intersection_membership<'a, A: ChunkRead, B: ChunkRead>(
    c: &CombinedChunkReads<'a, A, B, And>,
    i: int,
)
    ensures
        seq_has_index(c.chunk_seq(), i) == (seq_has_index(c.a.chunk_seq(), i) && seq_has_index(
            c.b.chunk_seq(),
            i,
        )),
{
    if 0 <= i {
        lemma_combined_chunk(c, spec_chunk_index(i));
        lemma_chunk_bitwise(
            seq_chunk(c.a.chunk_seq(), spec_chunk_index(i)),
            seq_chunk(c.b.chunk_seq(), spec_chunk_index(i)),
            spec_bit_index(i),
        );
    }
}

/// Symmetric difference: an index is a member of `a.xor(b)` exactly when
/// it is a member of exactly one of `a` and `b`.
pub proof fn lemma_sym_difference_membership<'a, A: ChunkRead, B: ChunkRead>(
    c: &CombinedChunkReads<'a, A, B, Xor>,
    i: int,
)
    ensures
        seq_has_index(c.chunk_seq(), i) == (seq_has_index(c.a.chunk_seq(), i) != seq_has_index(
            c.b.chunk_seq(),
            i,
        )),
{
    if 0 <= i {
        lemma_combined_chunk(c, spec_chunk_index(i));
        lemma_chunk_bitwise(
            seq_chunk(c.a.chunk_seq(), spec_chunk_index(i)),
            seq_chunk(c.b.chunk_seq(), spec_chunk_index(i)),
            spec_bit_index(i),
        );
    }
}

/// Relative complement: an index is a member of `a.without(b)` exactly
/// when it is a member of `a` but not of `b`.
pub proof fn lemma_complement_membership<'a, A: ChunkRead, B: ChunkRead>(
    c: &CombinedChunkReads<'a, A, B, Without>,
    i: int,
)
    ensures
        seq_has_index(c.chunk_seq(), i) == (seq_has_index(c.a.chunk_seq(), i) && !seq_has_index(
            c.b.chunk_seq(),
            i,
        )),
{
    if 0 <= i {
        lemma_combined_chunk(c, spec_chunk_index(i));
        lemma_chunk_bitwise(
            seq_chunk(c.a.chunk_seq(), spec_chunk_index(i)),
            seq_chunk(c.b.chunk_seq(), spec_chunk_index(i)),
            spec_bit_index(i),
        );
    }
}

/// Writing the combination in place agrees with materializing the lazy
/// combination: two chunk sequences that both read as the operator applied
/// to the same two operands encode the same member set.
pub proof fn lemma_inplace_combination_agrees<O: BinChunkOp>(
    op: O,
    a: Seq<Chunk>,
    b: Seq<Chunk>,
    d: Seq<Chunk>,
    m: Seq<Chunk>,
)
    requires
        forall|j: int|
            0 <= j ==> seq_chunk(d, j) == op.spec_combine(seq_chunk(a, j), seq_chunk(b, j)),
        forall|j: int|
            0 <= j ==> seq_chunk(m, j) == op.spec_combine(seq_chunk(a, j), seq_chunk(b, j)),
    ensures
        seq_same_set(d, m),
{
    assert forall|i: int| seq_has_index(d, i) == seq_has_index(m, i) by {
        if 0 <= i {
            assert(seq_chunk(d, spec_chunk_index(i)) == seq_chunk(m, spec_chunk_index(i)));
        }
    }
}

/// Sets that include each other are the same set.
pub proof fn lemma_subset_antisymmetric(s: Seq<Chunk>, t: Seq<Chunk>)
    requires
        crate::seq_model::seq_subset(s, t),
        crate::seq_model::seq_subset(t, s),
    ensures
        seq_same_set(s, t),
{
}

/// The chunk pattern reads as the number zero exactly on the empty set:
/// the starting point of the powerset enumeration.
pub proof fn lemma_chunks_nat_zero_iff_empty(s: Seq<Chunk>)
    ensures
        (crate::seq_model::seq_chunks_nat(s) == 0) <==> (forall|i: int| !seq_has_index(s, i)),
{
    crate::seq_model::lemma_chunks_nat_zero(s, 0);
    if crate::seq_model::seq_chunks_nat(s) == 0 {
        assert forall|j: int| seq_chunk(s, j) == 0 by {}
        crate::seq_model::lemma_all_zero_empty(s);
    } else {
        let j = choose|j: int| 0 <= j < s.len() && s[j] != 0;
        crate::chunk_facts::lemma_nonzero_has_bit(s[j]);
        crate::seq_model::lemma_member_of_chunk(
            s,
            j,
            crate::chunk_facts::first_bit(s[j]),
        );
    }
}

/// Shrinking to the exact zero bound keeps the member set, and doing it
/// again changes nothing: the first shrink's result is already exactly
/// bounded.
pub proof fn lemma_shrink_idempotent(s: Seq<Chunk>, n: int)
    requires
        0 <= n <= s.len(),
    ensures
        ({
            let e = crate::seq_model::seq_exact_len(s);
            let l = if e < n {
                n
            } else {
                e
            };
            let t = s.take(l);
            &&& seq_same_set(t, s)
            &&& crate::seq_model::seq_exact_len(t) == e
            &&& t.take(
                if crate::seq_model::seq_exact_len(t) < n {
                    n
                } else {
                    crate::seq_model::seq_exact_len(t)
                },
            ) == t
        }),
{
    let e = crate::seq_model::seq_exact_len(s);
    crate::seq_model::lemma_seq_exact_len(s);
    let l = if e < n {
        n
    } else {
        e
    };
    let t = s.take(l);
    assert(forall|j: int| seq_chunk(t, j) == seq_chunk(s, j));
    crate::seq_model::lemma_pointwise_same_set(t, s);
    crate::seq_model::lemma_exact_len_unique(t, e);
    assert(t.take(l) =~= t);
}

/// The window-counting step: the members below linear index `64 * n + b`
/// are counted by the full chunks below `n` plus the bits of chunk `n`
/// below `b`.
proof fn lemma_members_window(s: Seq<Chunk>, n: int, b: int)
    requires
        0 <= n,
        0 <= b <= 64,
    ensures
        crate::seq_model::seq_members_below(s, 64 * n + b).finite(),
        crate::seq_model::seq_members_below(s, 64 * n + b).len() == crate::seq_model::seq_ones_up_to(
            s,
            n,
        ) + crate::chunk_facts::chunk_bits_below(seq_chunk(s, n), b).len(),
    decreases n, b,
{
    let below = crate::seq_model::seq_members_below(s, 64 * n + b);
    if b == 0 {
        assert(crate::chunk_facts::chunk_bits_below(seq_chunk(s, n), 0) =~= Set::<u64>::empty());
        if n == 0 {
            assert(below =~= Set::<int>::empty());
        } else {
            lemma_members_window(s, n - 1, 64);
            assert(below =~= crate::seq_model::seq_members_below(s, 64 * (n - 1) + 64));
        }
    } else {
        lemma_members_window(s, n, b - 1);
        let m = 64 * n + (b - 1);
        let c = seq_chunk(s, n);
        let prev = crate::seq_model::seq_members_below(s, m);
        crate::chunk_facts::lemma_chunk_addr_roundtrip(n, b - 1);
        crate::chunk_facts::lemma_chunk_bits_below_step(c, b - 1);
        crate::chunk_facts::lemma_chunk_bits_below_finite(c, b - 1);
        assert forall|i: int| #[trigger] below.contains(i) == (prev.contains(i) || (i == m
            && seq_has_index(s, m))) by {
            if i == m {
            } else if below.contains(i) || prev.contains(i) {
                vstd::arithmetic::div_mod::lemma_fundamental_div_mod(i, 64);
            }
        }
        if seq_has_index(s, m) {
            assert(below =~= prev.insert(m));
            assert(!prev.contains(m));
            assert(chunk_bit(c, (b - 1) as u64));
            assert(!crate::chunk_facts::chunk_bits_below(c, b - 1).contains((b - 1) as u64));
        } else {
            assert(below =~= prev);
            assert(!chunk_bit(c, (b - 1) as u64));
        }
    }
}

/// The members of a chunk sequence form a finite set whose cardinality is
/// the population count of its chunks: duplicates collapse, and counting
/// counts each member once.
pub proof fn lemma_count_is_cardinality(s: Seq<Chunk>)
    ensures
        crate::seq_model::seq_members(s).finite(),
        crate::seq_model::seq_members(s).len() == crate::seq_model::seq_index_count(s),
{
    let n = s.len() as int;
    lemma_members_window(s, n, 0);
    assert(crate::chunk_facts::chunk_bits_below(seq_chunk(s, n), 0) =~= Set::<u64>::empty());
    assert forall|i: int| crate::seq_model::seq_members(s).contains(i)
        == crate::seq_model::seq_members_below(s, 64 * n).contains(i) by {
        if seq_has_index(s, i) && i >= 64 * n {
            crate::seq_model::lemma_chunk_of_member(s, i);
            crate::chunk_facts::lemma_chunk_no_bits(seq_chunk(s, spec_chunk_index(i)));
        }
    }
    assert(crate::seq_model::seq_members(s) =~= crate::seq_model::seq_members_below(s, 64 * n));
}

} // verus!
