//! The readable-chunk-source capability: two primitive methods, an absence
//! sentinel, and the read-only set algebra derived from them.

use vstd::prelude::*;

use core::cmp::Ordering;

use crate::chunk_facts::{
    count_chunk_ones, first_bit, last_bit, lemma_andnot_both_zero, lemma_chunk_no_bits,
    lemma_chunk_zero_ops, lemma_mask_test, lemma_nonzero_has_bit, lemma_nonzero_last_bit,
};
use crate::combinators::bin_ops::{And, Or, Without, Xor};
use crate::combinators::{BinChunkOp, CombinedChunkReads};
use crate::index_set::IndexSet;
use crate::iterators::{ChunkIter, IndexIter};
use crate::seq_model::{
    lemma_all_zero_empty, lemma_chunk_of_member, lemma_chunk_witness_not_subset,
    lemma_chunkwise_subset, lemma_member_of_chunk, lemma_ones_stable, lemma_pointwise_same_set,
    lemma_same_implies_subset, seq_chunk, seq_has_index, seq_index_count, seq_ones_up_to,
    seq_same_set, seq_subset,
};
use crate::{chunk_bit, spec_bit_index, spec_chunk_index, Chunk, ChunkBitAddr, Index};

verus! {

/// An immutable source of chunks, encoding a set of indices.
///
/// A `get_chunk` answer of `None` is the absence sentinel: it promises that
/// the queried position *and every later position* hold zero. A concrete
/// `Some(0)` makes no such promise; nonzero chunks may still follow.
pub trait ChunkRead: Sized {
    /// The model: the stored chunks out to the conservative zero bound.
    /// Positions past its end are read as zero.
    spec fn chunk_seq(&self) -> Seq<Chunk>;

    /// The model fits the machine: its length is a `usize`.
    proof fn lemma_chunk_seq_len(&self)
        ensures
            self.chunk_seq().len() <= usize::MAX,
    ;

    /// Return the chunk at position `idx_of_chunk`: concrete below the
    /// conservative bound, absent from the bound on, where every chunk is
    /// zero.
    fn get_chunk(&self, idx_of_chunk: Index) -> (r: Option<Chunk>)
        ensures
            r matches Some(c) ==> c == seq_chunk(self.chunk_seq(), idx_of_chunk as int),
            (r is Some) <==> ((idx_of_chunk as int) < self.chunk_seq().len()),
            r is None ==> forall|j: int|
                idx_of_chunk as int <= j ==> seq_chunk(self.chunk_seq(), j) == 0,
    ;

    /// Return a position from which on every chunk reads as absent.
    /// Prioritizes speed over tightness.
    fn zero_chunks_from_conservative(&self) -> (r: usize)
        ensures
            r == self.chunk_seq().len(),
    ;

    /// Tighten the conservative bound to the exact one: the least position
    /// from which on every chunk is zero.
    fn zero_chunks_from_exact(&self) -> (r: usize)
        ensures
            0 <= r <= self.chunk_seq().len(),
            forall|j: int| r <= j ==> seq_chunk(self.chunk_seq(), j) == 0,
            r > 0 ==> seq_chunk(self.chunk_seq(), r - 1) != 0,
    {
        proof {
            self.lemma_chunk_seq_len();
        }
        let mut at: usize = self.zero_chunks_from_conservative();
        loop
            invariant
                0 <= at <= self.chunk_seq().len(),
                forall|j: int| at <= j ==> seq_chunk(self.chunk_seq(), j) == 0,
            ensures
                0 <= at <= self.chunk_seq().len(),
                forall|j: int| at <= j ==> seq_chunk(self.chunk_seq(), j) == 0,
                at > 0 ==> seq_chunk(self.chunk_seq(), at - 1) != 0,
            decreases at,
        {
            if at == 0 {
                break;
            }
            let prev = self.get_chunk(at - 1);
            match prev {
                Some(c) => {
                    if c != 0 {
                        break;
                    }
                },
                None => {},
            }
            at = at - 1;
        }
        at
    }

    /// Whether the index `bit_idx` is a member.
    fn contains(&self, bit_idx: Index) -> (r: bool)
        ensures
            r == seq_has_index(self.chunk_seq(), bit_idx as int),
    {
        let cba = ChunkBitAddr::from_bit_idx(bit_idx);
        match self.get_chunk(cba.idx_of_chunk) {
            None => {
                proof {
                    lemma_chunk_no_bits(0u64);
                }
                false
            },
            Some(chunk) => {
                proof {
                    lemma_mask_test(chunk, cba.idx_in_chunk);
                }
                chunk & cba.chunk_mask() != 0
            },
        }
    }

    /// Whether no index is a member.
    fn is_empty(&self) -> (r: bool)
        ensures
            r == (forall|i: int| !seq_has_index(self.chunk_seq(), i)),
    {
        proof {
            self.lemma_chunk_seq_len();
        }
        let mut at: usize = 0;
        loop
            invariant
                0 <= at <= self.chunk_seq().len() <= usize::MAX,
                forall|j: int| 0 <= j < at ==> seq_chunk(self.chunk_seq(), j) == 0,
            decreases self.chunk_seq().len() - at,
        {
            match self.get_chunk(at) {
                None => {
                    proof {
                        assert(forall|j: int| seq_chunk(self.chunk_seq(), j) == 0);
                        lemma_all_zero_empty(self.chunk_seq());
                    }
                    return true;
                },
                Some(c) => {
                    if c != 0 {
                        proof {
                            lemma_nonzero_has_bit(c);
                            lemma_member_of_chunk(self.chunk_seq(), at as int, first_bit(c));
                        }
                        return false;
                    }
                },
            }
            at = at + 1;
        }
    }

    /// The number of members.
    fn len(&self) -> (r: usize)
        requires
            self.chunk_seq().len() <= usize::MAX / 64,
        ensures
            r == seq_index_count(self.chunk_seq()),
    {
        proof {
            self.lemma_chunk_seq_len();
        }
        let bound = self.zero_chunks_from_conservative();
        let mut total: usize = 0;
        let mut at: usize = 0;
        loop
            invariant
                0 <= at <= bound,
                bound == self.chunk_seq().len(),
                bound <= usize::MAX / 64,
                total == seq_ones_up_to(self.chunk_seq(), at as int),
                total <= 64 * at,
            decreases bound - at,
        {
            if at == bound {
                return total;
            }
            match self.get_chunk(at) {
                None => {
                    proof {
                        lemma_ones_stable(self.chunk_seq(), at as int, bound as int);
                    }
                    return total;
                },
                Some(c) => {
                    let ones = count_chunk_ones(c);
                    total = total + ones;
                    at = at + 1;
                },
            }
        }
    }

    /// Materialize: build an owned packed set holding exactly this source's
    /// members, sized to the exact zero bound (clamped to the target's
    /// inline capacity).
    fn to_index_set<const M: usize>(&self) -> (r: IndexSet<M>)
        requires
            M <= usize::MAX / 64,
            self.chunk_seq().len() <= usize::MAX / 64,
        ensures
            r.wf(),
            forall|j: int| seq_chunk(r@, j) == seq_chunk(self.chunk_seq(), j),
            seq_same_set(r@, self.chunk_seq()),
            r@.len() == ({
                let e = crate::seq_model::seq_exact_len(self.chunk_seq());
                if e < M {
                    M as int
                } else {
                    e
                }
            }),
    {
        proof {
            self.lemma_chunk_seq_len();
        }
        let bound = self.zero_chunks_from_exact();
        proof {
            crate::seq_model::lemma_exact_len_unique(self.chunk_seq(), bound as int);
        }
        let mut me = IndexSet::<M>::with_chunk_capacity(bound);
        let mut at: usize = 0;
        loop
            invariant
                at <= bound <= self.chunk_seq().len() <= usize::MAX / 64,
                M <= usize::MAX / 64,
                me.wf(),
                me@.len() >= bound,
                me@.len() == if bound < M {
                    M as int
                } else {
                    bound as int
                },
                forall|j: int| bound <= j ==> seq_chunk(self.chunk_seq(), j) == 0,
                forall|j: int| 0 <= j < at ==> me@[j] == seq_chunk(self.chunk_seq(), j),
                forall|j: int| at <= j < me@.len() ==> me@[j] == 0,
            ensures
                at <= me@.len(),
                me.wf(),
                me@.len() == if bound < M {
                    M as int
                } else {
                    bound as int
                },
                forall|j: int| 0 <= j < at ==> me@[j] == seq_chunk(self.chunk_seq(), j),
                forall|j: int| at <= j < me@.len() ==> me@[j] == 0,
                forall|j: int| at <= j ==> seq_chunk(self.chunk_seq(), j) == 0,
            decreases bound - at,
        {
            if at == bound {
                break;
            }
            match self.get_chunk(at) {
                None => {
                    break;
                },
                Some(c) => {
                    me.set_chunk(at, c);
                    at = at + 1;
                },
            }
        }
        proof {
            lemma_pointwise_same_set(me@, self.chunk_seq());
        }
        me
    }

    /// The least member, or `None` for the empty set.
    fn min_element(&self) -> (r: Option<Index>)
        requires
            self.chunk_seq().len() <= usize::MAX / 64,
        ensures
            r matches Some(m) ==> (seq_has_index(self.chunk_seq(), m as int) && forall|i: int|
                seq_has_index(self.chunk_seq(), i) ==> m as int <= i),
            (r is None) <==> (forall|i: int| !seq_has_index(self.chunk_seq(), i)),
    {
        proof {
            self.lemma_chunk_seq_len();
        }
        let ghost s = self.chunk_seq();
        let mut at: usize = 0;
        loop
            invariant
                s == self.chunk_seq(),
                at <= s.len() <= usize::MAX / 64,
                forall|j: int| 0 <= j < at ==> seq_chunk(s, j) == 0,
            decreases s.len() - at,
        {
            match self.get_chunk(at) {
                None => {
                    proof {
                        lemma_all_zero_empty(s);
                    }
                    return None;
                },
                Some(c) => {
                    if c != 0 {
                        let b = c.trailing_zeros() as u64;
                        proof {
                            lemma_nonzero_has_bit(c);
                            lemma_member_of_chunk(s, at as int, first_bit(c));
                            assert forall|i: int| seq_has_index(s, i) implies 64 * at + first_bit(
                                c,
                            ) <= i by {
                                lemma_chunk_of_member(s, i);
                                if spec_chunk_index(i) == at as int {
                                    assert(chunk_bit(c, spec_bit_index(i)));
                                } else {
                                    lemma_chunk_no_bits(seq_chunk(s, spec_chunk_index(i)));
                                }
                            }
                        }
                        let cba = ChunkBitAddr { idx_of_chunk: at, idx_in_chunk: b };
                        return Some(cba.to_bit_idx());
                    }
                },
            }
            at = at + 1;
        }
    }

    /// The greatest member, or `None` for the empty set.
    fn max_element(&self) -> (r: Option<Index>)
        requires
            self.chunk_seq().len() <= usize::MAX / 64,
        ensures
            r matches Some(m) ==> (seq_has_index(self.chunk_seq(), m as int) && forall|i: int|
                seq_has_index(self.chunk_seq(), i) ==> i <= m as int),
            (r is None) <==> (forall|i: int| !seq_has_index(self.chunk_seq(), i)),
    {
        proof {
            self.lemma_chunk_seq_len();
        }
        let ghost s = self.chunk_seq();
        let bound = self.zero_chunks_from_exact();
        if bound == 0 {
            proof {
                lemma_all_zero_empty(s);
            }
            return None;
        }
        match self.get_chunk(bound - 1) {
            None => {
                proof {
                    assert(seq_chunk(s, bound - 1) == 0);
                }
                None
            },
            Some(c) => {
                proof {
                    assert(c == seq_chunk(s, bound - 1));
                    assert(c != 0);
                    lemma_nonzero_last_bit(c);
                    lemma_member_of_chunk(s, bound - 1, last_bit(c));
                    assert forall|i: int| seq_has_index(s, i) implies i <= 64 * (bound - 1)
                        + last_bit(c) by {
                        lemma_chunk_of_member(s, i);
                        if spec_chunk_index(i) == bound - 1 {
                            assert(chunk_bit(c, spec_bit_index(i)));
                        } else if spec_chunk_index(i) >= bound {
                            lemma_chunk_no_bits(seq_chunk(s, spec_chunk_index(i)));
                        }
                    }
                }
                let b = 63 - (c.leading_zeros() as u64);
                let cba = ChunkBitAddr { idx_of_chunk: bound - 1, idx_in_chunk: b };
                Some(cba.to_bit_idx())
            },
        }
    }

    /// Copy every chunk up to the absence sentinel into `buf`: exactly the
    /// chunks below the conservative bound, in position order.
    fn buffer_chunks_into(&self, buf: &mut Vec<Chunk>)
        ensures
            final(buf)@.len() == old(buf)@.len() + self.chunk_seq().len(),
            forall|k: int| 0 <= k < old(buf)@.len() ==> final(buf)@[k] == old(buf)@[k],
            forall|k: int|
                old(buf)@.len() <= k < final(buf)@.len() ==> final(buf)@[k] == seq_chunk(
                    self.chunk_seq(),
                    k - old(buf)@.len(),
                ),
    {
        proof {
            self.lemma_chunk_seq_len();
        }
        let ghost base = buf@.len() as int;
        let mut at: usize = 0;
        loop
            invariant
                0 <= at <= self.chunk_seq().len() <= usize::MAX,
                base == old(buf)@.len(),
                buf@.len() == base + at,
                forall|k: int| 0 <= k < base ==> buf@[k] == old(buf)@[k],
                forall|k: int|
                    base <= k < buf@.len() ==> buf@[k] == seq_chunk(self.chunk_seq(), k - base),
            decreases self.chunk_seq().len() - at,
        {
            match self.get_chunk(at) {
                None => {
                    return ;
                },
                Some(c) => {
                    buf.push(c);
                    at = at + 1;
                },
            }
        }
    }
}

/// The derived constructors and comparisons of the capability, available
/// on every readable source: iterators, the display adapter, the lazy
/// combinators, and the inclusion tests built on them.
pub trait ChunkReadExt: ChunkRead {
    /// Compare as sets under inclusion: `Equal` for the same members,
    /// `Less` for a proper subset, `Greater` for a proper superset, `None`
    /// where neither contains the other.
    fn set_cmp<B: ChunkRead>(&self, other: &B) -> (r: Option<Ordering>)
        ensures
            (r == Some(Ordering::Equal)) <==> seq_same_set(self.chunk_seq(), other.chunk_seq()),
            (r == Some(Ordering::Less)) <==> (seq_subset(self.chunk_seq(), other.chunk_seq())
                && !seq_same_set(self.chunk_seq(), other.chunk_seq())),
            (r == Some(Ordering::Greater)) <==> (seq_subset(other.chunk_seq(), self.chunk_seq())
                && !seq_same_set(self.chunk_seq(), other.chunk_seq())),
            (r is None) <==> (!seq_subset(self.chunk_seq(), other.chunk_seq()) && !seq_subset(
                other.chunk_seq(),
                self.chunk_seq(),
            )),
    {
        proof {
            self.lemma_chunk_seq_len();
            other.lemma_chunk_seq_len();
        }
        let ghost s = self.chunk_seq();
        let ghost o = other.chunk_seq();
        let ghost m: int = if s.len() < o.len() {
            o.len() as int
        } else {
            s.len() as int
        };
        let mut ord = Ordering::Equal;
        let mut at: usize = 0;
        loop
            invariant
                s == self.chunk_seq(),
                o == other.chunk_seq(),
                m == if s.len() < o.len() {
                    o.len() as int
                } else {
                    s.len() as int
                },
                m <= usize::MAX,
                at <= m,
                ord == Ordering::Equal ==> forall|j: int|
                    0 <= j < at ==> seq_chunk(s, j) == seq_chunk(o, j),
                ord == Ordering::Greater ==> (forall|j: int|
                    0 <= j < at ==> seq_chunk(o, j) & !seq_chunk(s, j) == 0),
                ord == Ordering::Greater ==> (exists|j: int|
                    0 <= j < at && seq_chunk(s, j) & !seq_chunk(o, j) != 0),
                ord == Ordering::Less ==> (forall|j: int|
                    0 <= j < at ==> seq_chunk(s, j) & !seq_chunk(o, j) == 0),
                ord == Ordering::Less ==> (exists|j: int|
                    0 <= j < at && seq_chunk(o, j) & !seq_chunk(s, j) != 0),
            decreases m - at,
        {
            let sa = self.get_chunk(at);
            let ob = other.get_chunk(at);
            if sa.is_none() && ob.is_none() {
                proof {
                    lemma_set_cmp_verdict(s, o, at as int, ord);
                }
                return Some(ord);
            }
            let sv = match sa {
                Some(c) => c,
                None => 0,
            };
            let ov = match ob {
                Some(c) => c,
                None => 0,
            };
            proof {
                assert(sv == seq_chunk(s, at as int));
                assert(ov == seq_chunk(o, at as int));
            }
            let snoto = sv & !ov != 0;
            let onots = ov & !sv != 0;
            if snoto && onots {
                proof {
                    lemma_chunk_witness_not_subset(s, o, at as int);
                    lemma_chunk_witness_not_subset(o, s, at as int);
                }
                return None;
            }
            if snoto {
                match ord {
                    Ordering::Less => {
                        proof {
                            lemma_chunk_witness_not_subset(s, o, at as int);
                            let j = choose|j: int|
                                0 <= j < at && seq_chunk(o, j) & !seq_chunk(s, j) != 0;
                            lemma_chunk_witness_not_subset(o, s, j);
                        }
                        return None;
                    },
                    _ => {
                        proof {
                            assert forall|j: int| 0 <= j < at + 1 implies seq_chunk(o, j)
                                & !seq_chunk(s, j) == 0 by {
                                lemma_chunk_zero_ops(seq_chunk(s, j));
                                lemma_chunk_zero_ops(seq_chunk(o, j));
                            }
                        }
                        ord = Ordering::Greater;
                    },
                }
            } else if onots {
                match ord {
                    Ordering::Greater => {
                        proof {
                            lemma_chunk_witness_not_subset(o, s, at as int);
                            let j = choose|j: int|
                                0 <= j < at && seq_chunk(s, j) & !seq_chunk(o, j) != 0;
                            lemma_chunk_witness_not_subset(s, o, j);
                        }
                        return None;
                    },
                    _ => {
                        proof {
                            assert forall|j: int| 0 <= j < at + 1 implies seq_chunk(s, j)
                                & !seq_chunk(o, j) == 0 by {
                                lemma_chunk_zero_ops(seq_chunk(s, j));
                                lemma_chunk_zero_ops(seq_chunk(o, j));
                            }
                        }
                        ord = Ordering::Less;
                    },
                }
            } else {
                proof {
                    lemma_andnot_both_zero(sv, ov);
                    lemma_chunk_zero_ops(sv);
                }
            }
            at = at + 1;
        }
    }

    /// Whether every member of this set is a member of `other`.
    fn is_subset_of<B: ChunkRead>(&self, other: &B) -> (r: bool)
        ensures
            r == seq_subset(self.chunk_seq(), other.chunk_seq()),
    {
        proof {
            lemma_same_implies_subset_helper(self.chunk_seq(), other.chunk_seq());
        }
        match self.set_cmp(other) {
            Some(Ordering::Equal) | Some(Ordering::Less) => true,
            _ => false,
        }
    }

    /// Whether every member of `other` is a member of this set.
    fn is_superset_of<B: ChunkRead>(&self, other: &B) -> (r: bool)
        ensures
            r == seq_subset(other.chunk_seq(), self.chunk_seq()),
    {
        proof {
            lemma_same_implies_subset_helper(self.chunk_seq(), other.chunk_seq());
        }
        match self.set_cmp(other) {
            Some(Ordering::Equal) | Some(Ordering::Greater) => true,
            _ => false,
        }
    }

    /// Compare the chunk sequences as zero-padded unsigned numbers,
    /// position by position: the first differing chunk decides. A total
    /// order on encodings, not the inclusion order.
    fn chunk_list_cmp<B: ChunkRead>(&self, other: &B) -> (r: Ordering)
        ensures
            (r == Ordering::Equal) <==> (forall|j: int|
                seq_chunk(self.chunk_seq(), j) == seq_chunk(other.chunk_seq(), j)),
            (r == Ordering::Less) <==> (exists|j: int|
                0 <= j && seq_chunk(self.chunk_seq(), j) < seq_chunk(other.chunk_seq(), j) && (
                forall|k: int|
                    0 <= k < j ==> seq_chunk(self.chunk_seq(), k) == seq_chunk(
                        other.chunk_seq(),
                        k,
                    ))),
            (r == Ordering::Greater) <==> (exists|j: int|
                0 <= j && seq_chunk(self.chunk_seq(), j) > seq_chunk(other.chunk_seq(), j) && (
                forall|k: int|
                    0 <= k < j ==> seq_chunk(self.chunk_seq(), k) == seq_chunk(
                        other.chunk_seq(),
                        k,
                    ))),
    {
        proof {
            self.lemma_chunk_seq_len();
            other.lemma_chunk_seq_len();
        }
        let ghost s = self.chunk_seq();
        let ghost o = other.chunk_seq();
        let ghost m: int = if s.len() < o.len() {
            o.len() as int
        } else {
            s.len() as int
        };
        let mut at: usize = 0;
        loop
            invariant
                s == self.chunk_seq(),
                o == other.chunk_seq(),
                m == if s.len() < o.len() {
                    o.len() as int
                } else {
                    s.len() as int
                },
                m <= usize::MAX,
                at <= m,
                forall|j: int| 0 <= j < at ==> seq_chunk(s, j) == seq_chunk(o, j),
            decreases m - at,
        {
            let sa = self.get_chunk(at);
            let ob = other.get_chunk(at);
            if sa.is_none() && ob.is_none() {
                return Ordering::Equal;
            }
            let sv = match sa {
                Some(c) => c,
                None => 0,
            };
            let ov = match ob {
                Some(c) => c,
                None => 0,
            };
            if sv < ov {
                return Ordering::Less;
            }
            if sv > ov {
                return Ordering::Greater;
            }
            at = at + 1;
        }
    }

    /// A fresh chunk iterator over this source.
    fn iter_chunks<'a>(&'a self) -> (r: ChunkIter<'a, Self>)
        ensures
            r.a == self,
            r.idx_of_next_chunk == 0,
    {
        ChunkIter::new(self)
    }

    /// A fresh member iterator, yielding indices in ascending order.
    fn iter<'a>(&'a self) -> (r: IndexIter<'a, Self>)
        requires
            self.chunk_seq().len() <= usize::MAX / 64,
        ensures
            r.wf(),
            r.wi.a == self,
            r.pending() == Set::new(|i: int| seq_has_index(self.chunk_seq(), i)),
    {
        IndexIter::new(self)
    }

    /// An adapter from which the member list can be read out.
    fn displayable<'a>(&'a self) -> (r: crate::DisplayableIndexSet<'a, Self>)
        ensures
            r.0 == self,
    {
        crate::DisplayableIndexSet(self)
    }

    /// View this source and `b` through the operator `op`, without
    /// materializing anything.
    fn combine_chunks<'a, B: ChunkRead, O: BinChunkOp>(&'a self, op: O, b: &'a B) -> (r:
        CombinedChunkReads<'a, Self, B, O>)
        ensures
            r.a == self,
            r.b == b,
            r.op == op,
    {
        CombinedChunkReads { a: self, b, op }
    }

    /// The union view of this source and `b`.
    fn or<'a, B: ChunkRead>(&'a self, b: &'a B) -> (r: CombinedChunkReads<'a, Self, B, Or>)
        ensures
            r.a == self,
            r.b == b,
    {
        self.combine_chunks(Or, b)
    }

    /// The symmetric-difference view of this source and `b`.
    fn xor<'a, B: ChunkRead>(&'a self, b: &'a B) -> (r: CombinedChunkReads<'a, Self, B, Xor>)
        ensures
            r.a == self,
            r.b == b,
    {
        self.combine_chunks(Xor, b)
    }

    /// The intersection view of this source and `b`.
    fn and<'a, B: ChunkRead>(&'a self, b: &'a B) -> (r: CombinedChunkReads<'a, Self, B, And>)
        ensures
            r.a == self,
            r.b == b,
    {
        self.combine_chunks(And, b)
    }

    /// The relative-complement view: this source's members that `b` lacks.
    fn without<'a, B: ChunkRead>(&'a self, b: &'a B) -> (r: CombinedChunkReads<
        'a,
        Self,
        B,
        Without,
    >)
        ensures
            r.a == self,
            r.b == b,
    {
        self.combine_chunks(Without, b)
    }

    /// Whether this source and `other` share no member.
    fn is_disjoint_with<B: ChunkRead>(&self, other: &B) -> (r: bool)
        ensures
            r == (forall|i: int|
                !(seq_has_index(self.chunk_seq(), i) && seq_has_index(other.chunk_seq(), i))),
    {
        let c = self.and(other);
        let e = c.is_empty();
        proof {
            if e {
                assert forall|i: int|
                    !(seq_has_index(self.chunk_seq(), i) && seq_has_index(
                        other.chunk_seq(),
                        i,
                    )) by {
                    crate::laws::lemma_intersection_membership(&c, i);
                }
            } else {
                let i = choose|i: int| seq_has_index(c.chunk_seq(), i);
                crate::laws::lemma_intersection_membership(&c, i);
            }
        }
        e
    }
}

impl<T: ChunkRead> ChunkReadExt for T {
}

/// The verdict a full chunkwise comparison reaches is the inclusion
/// relation of the encoded sets.
proof fn lemma_set_cmp_verdict(s: Seq<Chunk>, o: Seq<Chunk>, at: int, ord: Ordering)
    requires
        forall|j: int| at <= j ==> seq_chunk(s, j) == 0,
        forall|j: int| at <= j ==> seq_chunk(o, j) == 0,
        ord == Ordering::Equal ==> forall|j: int| 0 <= j < at ==> seq_chunk(s, j) == seq_chunk(o, j),
        ord == Ordering::Greater ==> (forall|j: int|
            0 <= j < at ==> seq_chunk(o, j) & !seq_chunk(s, j) == 0),
        ord == Ordering::Greater ==> (exists|j: int|
            0 <= j < at && seq_chunk(s, j) & !seq_chunk(o, j) != 0),
        ord == Ordering::Less ==> (forall|j: int|
            0 <= j < at ==> seq_chunk(s, j) & !seq_chunk(o, j) == 0),
        ord == Ordering::Less ==> (exists|j: int|
            0 <= j < at && seq_chunk(o, j) & !seq_chunk(s, j) != 0),
    ensures
        ord == Ordering::Equal ==> seq_same_set(s, o),
        ord == Ordering::Greater ==> (seq_subset(o, s) && !seq_same_set(s, o) && !seq_subset(
            s,
            o,
        )),
        ord == Ordering::Less ==> (seq_subset(s, o) && !seq_same_set(s, o) && !seq_subset(o, s)),
{
    match ord {
        Ordering::Equal => {
            lemma_pointwise_same_set(s, o);
        },
        Ordering::Greater => {
            assert forall|j: int| 0 <= j implies seq_chunk(o, j) & !seq_chunk(s, j) == 0 by {
                lemma_chunk_zero_ops(seq_chunk(s, j));
            }
            lemma_chunkwise_subset(o, s);
            let j = choose|j: int| 0 <= j < at && seq_chunk(s, j) & !seq_chunk(o, j) != 0;
            lemma_chunk_witness_not_subset(s, o, j);
        },
        Ordering::Less => {
            assert forall|j: int| 0 <= j implies seq_chunk(s, j) & !seq_chunk(o, j) == 0 by {
                lemma_chunk_zero_ops(seq_chunk(o, j));
            }
            lemma_chunkwise_subset(s, o);
            let j = choose|j: int| 0 <= j < at && seq_chunk(o, j) & !seq_chunk(s, j) != 0;
            lemma_chunk_witness_not_subset(o, s, j);
        },
    }
}

/// Sameness both ways: a helper binding the subset facts that the
/// inclusion tests read off the comparison verdict.
proof fn lemma_same_implies_subset_helper(s: Seq<Chunk>, o: Seq<Chunk>)
    ensures
        seq_same_set(s, o) ==> seq_subset(s, o) && seq_subset(o, s),
{
    if seq_same_set(s, o) {
        lemma_same_implies_subset(s, o);
    }
}

/// A single chunk is itself a readable source: position zero holds it and
/// everything after is absent.
impl ChunkRead for Chunk {
    open spec fn chunk_seq(&self) -> Seq<Chunk> {
        seq![*self]
    }

    proof fn lemma_chunk_seq_len(&self) {
    }

    fn get_chunk(&self, idx_of_chunk: Index) -> (r: Option<Chunk>) {
        if idx_of_chunk == 0 {
            Some(*self)
        } else {
            None
        }
    }

    fn zero_chunks_from_conservative(&self) -> (r: usize) {
        1
    }
}

} // verus!
