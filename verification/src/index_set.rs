//! The owning, mutable packed set: a contiguous buffer of chunks that is
//! never shorter than the inline capacity parameter `N`, growing in powers
//! of two and shrinking only on request.

use vstd::prelude::*;

use crate::chunk_facts::{lemma_chunk_bitwise, lemma_mask_bit, lemma_mask_test};
use crate::seq_model::{
    lemma_index_addr_unique, lemma_set_chunk_members, seq_chunk, seq_has_index,
};
use crate::combinators::BinChunkOp;
use crate::traits::{ChunkRead, ChunkReadExt};
use crate::{spec_bit_index, spec_chunk_index, Chunk, ChunkBitAddr, Index};

verus! {

/// Relies on `core::ops::RangeTo`, a plain public struct of std, so that a
/// capacity can be spoken of as the range of indices below it.
#[verifier::external_type_specification]
pub struct ExRangeTo<Idx>(core::ops::RangeTo<Idx>);

/// How far a power-of-two doubling from `cur` must go to reach `target`.
pub open spec fn spec_pow2_at_least(target: int, cur: int) -> int
    decreases (if target - cur < 0 { 0int } else { target - cur }) when 1 <= cur
{
    if cur >= target || cur < 1 {
        cur
    } else {
        spec_pow2_at_least(target, 2 * cur)
    }
}

/// The chunk count a growth step reserves so that the chunk position
/// `idx_of_chunk` becomes addressable: the least power of two above it.
pub open spec fn spec_size_accomodating(idx_of_chunk: int) -> int {
    spec_pow2_at_least(idx_of_chunk + 1, 1)
}

/// The doubling search never answers below its start or below its target.
pub proof fn lemma_pow2_at_least_ge(target: int, cur: int)
    requires
        1 <= cur,
    ensures
        spec_pow2_at_least(target, cur) >= cur,
        spec_pow2_at_least(target, cur) >= target,
    decreases (if target - cur < 0 { 0int } else { target - cur }),
{
    if cur < target {
        lemma_pow2_at_least_ge(target, 2 * cur);
    }
}

/// The doubling search grows with its target.
pub proof fn lemma_pow2_at_least_monotone(t1: int, t2: int, cur: int)
    requires
        1 <= cur,
        t1 <= t2,
    ensures
        spec_pow2_at_least(t1, cur) <= spec_pow2_at_least(t2, cur),
    decreases (if t2 - cur < 0 { 0int } else { t2 - cur }),
{
    if cur < t2 {
        if cur < t1 {
            lemma_pow2_at_least_monotone(t1, t2, 2 * cur);
        } else {
            lemma_pow2_at_least_ge(t2, cur);
        }
    }
}

/// The doubling search from a reached value continues the search from the
/// start: growing in steps lands exactly where one growth to the larger
/// target would.
pub proof fn lemma_pow2_chain(t1: int, t2: int, cur: int)
    requires
        1 <= cur,
        t1 <= t2,
    ensures
        spec_pow2_at_least(t2, cur) == spec_pow2_at_least(t2, spec_pow2_at_least(t1, cur)),
    decreases (if t1 - cur < 0 { 0int } else { t1 - cur }),
{
    if cur < t1 {
        lemma_pow2_chain(t1, t2, 2 * cur);
    }
}

/// A set of indices, packed as a contiguous buffer of chunks.
///
/// The buffer never holds fewer than `N` chunks: a set that needs at most
/// `N` chunks sits at exactly that inline capacity, and only a larger set
/// takes a longer buffer. Logical equality and ordering are defined over
/// the encoded member set, so trailing zero chunks never matter.
#[derive(Debug)]
pub struct IndexSet<const N: usize> {
    chunks: Vec<Chunk>,
}

impl<const N: usize> View for IndexSet<N> {
    type V = Seq<Chunk>;

    closed spec fn view(&self) -> Seq<Chunk> {
        self.chunks@
    }
}

impl<const N: usize> IndexSet<N> {
    /// The representation invariant: at least the inline capacity, and
    /// small enough that every held index fits a `usize`.
    pub open spec fn wf(&self) -> bool {
        N <= self@.len() && self@.len() <= usize::MAX / 64
    }

    /// Returns the set's index capacity: all indices below it are
    /// addressable without growth.
    pub fn capacity(&self) -> (r: core::ops::RangeTo<usize>)
        requires
            self.wf(),
        ensures
            r.end == self@.len() * 64,
    {
        ..(self.chunks.len() * 64)
    }

    /// Returns the set's chunk capacity.
    pub fn chunk_capacity(&self) -> (r: usize)
        ensures
            r == self@.len(),
    {
        self.chunks.len()
    }

    /// Creates an empty set with the given chunk capacity, clamped to at
    /// least the inline capacity `N`.
    pub fn with_chunk_capacity(chunk_count: usize) -> (r: Self)
        requires
            N <= usize::MAX / 64,
            chunk_count <= usize::MAX / 64,
        ensures
            r.wf(),
            r@.len() == if chunk_count < N {
                N as int
            } else {
                chunk_count as int
            },
            forall|j: int| seq_chunk(r@, j) == 0,
            forall|j: int| 0 <= j < r@.len() ==> r@[j] == 0,
    {
        let n = if chunk_count < N {
            N
        } else {
            chunk_count
        };
        let chunks = vec![0u64; n];
        IndexSet { chunks }
    }

    /// Creates an empty set whose capacity covers at least `index_count`
    /// indices.
    pub fn with_min_capacity(index_count: usize) -> (r: Self)
        requires
            N <= usize::MAX / 64,
            index_count + 63 <= usize::MAX,
            (index_count + 63) / 64 <= usize::MAX / 64,
        ensures
            r.wf(),
            forall|j: int| seq_chunk(r@, j) == 0,
            index_count <= r@.len() * 64,
            r@.len() == if (index_count + 63) / 64 < N {
                N as int
            } else {
                (index_count + 63) / 64
            },
    {
        Self::with_chunk_capacity(crate::index_count_to_chunk_count(index_count))
    }

    /// Creates a set from a sequence of contiguous chunks. The result's
    /// chunk capacity is the slice's length, clamped to at least `N`.
    pub fn from_chunk_slice(chunks: &[Chunk]) -> (r: Self)
        requires
            N <= usize::MAX / 64,
            chunks@.len() <= usize::MAX / 64,
        ensures
            r.wf(),
            forall|j: int| seq_chunk(r@, j) == seq_chunk(chunks@, j),
            r@.len() == if chunks@.len() < N {
                N as int
            } else {
                chunks@.len() as int
            },
    {
        let mut me = Self::with_chunk_capacity(chunks.len());
        let mut at: usize = 0;
        while at < chunks.len()
            invariant
                me.wf(),
                at <= chunks@.len() <= me@.len(),
                me@.len() == if chunks@.len() < N {
                    N as int
                } else {
                    chunks@.len() as int
                },
                forall|j: int| 0 <= j < at ==> me@[j] == chunks@[j],
                forall|j: int| at <= j < me@.len() ==> me@[j] == 0,
            decreases chunks@.len() - at,
        {
            let c = *vstd::slice::slice_index_get(chunks, at);
            me.set_chunk(at, c);
            at = at + 1;
        }
        me
    }

    /// Creates a set holding exactly the given indices; duplicates
    /// collapse.
    pub fn from_index_slice(indexes: &[Index]) -> (r: Self)
        requires
            N <= usize::MAX / 64,
            forall|k: int|
                0 <= k < indexes@.len() ==> (spec_chunk_index(#[trigger] indexes@[k] as int)
                    < N || spec_size_accomodating(spec_chunk_index(indexes@[k] as int))
                    <= usize::MAX / 64),
        ensures
            r.wf(),
            forall|i: int|
                seq_has_index(r@, i) <==> (exists|k: int|
                    0 <= k < indexes@.len() && indexes@[k] as int == i),
    {
        let mut m = Self::default();
        let mut at: usize = 0;
        while at < indexes.len()
            invariant
                m.wf(),
                at <= indexes@.len(),
                forall|k: int|
                    0 <= k < indexes@.len() ==> (spec_chunk_index(#[trigger] indexes@[k] as int)
                        < N || spec_size_accomodating(spec_chunk_index(indexes@[k] as int))
                        <= usize::MAX / 64),
                N <= m@.len(),
                forall|i: int|
                    seq_has_index(m@, i) <==> (exists|k: int|
                        0 <= k < at && indexes@[k] as int == i),
            decreases indexes@.len() - at,
        {
            let idx = *vstd::slice::slice_index_get(indexes, at);
            let ghost pre = m@;
            m.insert(idx);
            proof {
                assert forall|i: int|
                    seq_has_index(m@, i) <==> (exists|k: int|
                        0 <= k < at + 1 && indexes@[k] as int == i) by {
                    if seq_has_index(m@, i) {
                        if i == idx as int {
                            assert(indexes@[at as int] as int == i);
                        } else {
                            let k = choose|k: int| 0 <= k < at && indexes@[k] as int == i;
                            assert(0 <= k < at + 1 && indexes@[k] as int == i);
                        }
                    } else {
                        if exists|k: int| 0 <= k < at + 1 && indexes@[k] as int == i {
                            let k = choose|k: int| 0 <= k < at + 1 && indexes@[k] as int == i;
                            if k < at {
                                assert(seq_has_index(pre, i));
                            }
                            assert(false);
                        }
                    }
                }
            }
            at = at + 1;
        }
        m
    }

    /// Writes one chunk in place.
    pub(crate) fn set_chunk(&mut self, idx_of_chunk: usize, c: Chunk)
        requires
            idx_of_chunk < old(self)@.len(),
        ensures
            final(self)@ == old(self)@.update(idx_of_chunk as int, c),
    {
        self.chunks[idx_of_chunk] = c;
    }

    /// Returns an immutable view of the stored chunks.
    pub fn as_chunks(&self) -> (r: &[Chunk])
        ensures
            r@ == self@,
    {
        self.chunks.as_slice()
    }

    /// Reads one stored chunk.
    fn chunk_at(&self, idx_of_chunk: usize) -> (r: Chunk)
        requires
            idx_of_chunk < self@.len(),
        ensures
            r == self@[idx_of_chunk as int],
    {
        self.chunks[idx_of_chunk]
    }

    /// The chunk count to reserve so that chunk position `idx_of_chunk`
    /// becomes addressable: the least power of two above it, which
    /// amortizes repeated growth.
    fn size_accomodating_chunk_idx(idx_of_chunk: usize) -> (r: usize)
        requires
            spec_size_accomodating(idx_of_chunk as int) <= usize::MAX / 64,
        ensures
            r == spec_size_accomodating(idx_of_chunk as int),
            idx_of_chunk < r,
    {
        proof {
            lemma_pow2_at_least_ge(idx_of_chunk as int + 1, 1);
        }
        let target = idx_of_chunk + 1;
        let mut cur: usize = 1;
        while cur < target
            invariant
                1 <= cur,
                spec_pow2_at_least(target as int, cur as int) == spec_size_accomodating(
                    idx_of_chunk as int,
                ),
                spec_size_accomodating(idx_of_chunk as int) <= usize::MAX / 64,
                target == idx_of_chunk + 1,
            decreases (if target <= cur { 0int } else { target - cur }),
        {
            proof {
                lemma_pow2_at_least_ge(target as int, 2 * cur as int);
            }
            cur = cur * 2;
        }
        proof {
            lemma_pow2_at_least_ge(target as int, cur as int);
        }
        cur
    }

    /// Resizes the chunk storage to `chunk_count` (clamped to at least
    /// `N`), keeping the chunks that still fit and zero-filling the rest;
    /// truncation drops the chunks past the new end.
    pub fn resize_chunks_to(&mut self, chunk_count: usize)
        requires
            old(self).wf(),
            chunk_count <= usize::MAX / 64,
        ensures
            final(self).wf(),
            final(self)@.len() == if chunk_count < N {
                N as int
            } else {
                chunk_count as int
            },
            forall|j: int|
                0 <= j < final(self)@.len() ==> final(self)@[j] == (if j < old(self)@.len() {
                    old(self)@[j]
                } else {
                    0
                }),
    {
        let mut new = Self::with_chunk_capacity(chunk_count);
        let src_len = self.chunks.len();
        let count = if src_len < new.chunks.len() {
            src_len
        } else {
            new.chunks.len()
        };
        let mut at: usize = 0;
        while at < count
            invariant
                new.wf(),
                count <= new@.len(),
                count <= self@.len(),
                at <= count,
                new@.len() == if chunk_count < N {
                    N as int
                } else {
                    chunk_count as int
                },
                forall|j: int| 0 <= j < at ==> new@[j] == self@[j],
                forall|j: int| at <= j < new@.len() ==> new@[j] == 0,
            decreases count - at,
        {
            let c = self.chunk_at(at);
            new.set_chunk(at, c);
            at = at + 1;
        }
        *self = new;
    }

    /// Grows (or, called below the current size, shrinks) the storage so
    /// that chunk position `idx_of_chunk` is addressable, to the least
    /// power-of-two chunk count above that position.
    pub fn resize_chunks_to_accomodate(&mut self, idx_of_chunk: usize)
        requires
            old(self).wf(),
            spec_size_accomodating(idx_of_chunk as int) <= usize::MAX / 64,
        ensures
            final(self).wf(),
            idx_of_chunk < final(self)@.len(),
            final(self)@.len() == ({
                let s = spec_size_accomodating(idx_of_chunk as int);
                if s < N {
                    N as int
                } else {
                    s
                }
            }),
            forall|j: int|
                0 <= j < final(self)@.len() ==> final(self)@[j] == (if j < old(self)@.len() {
                    old(self)@[j]
                } else {
                    0
                }),
    {
        let size = Self::size_accomodating_chunk_idx(idx_of_chunk);
        self.resize_chunks_to(size);
    }

    /// Adds the given index to the set, growing storage if its chunk lies
    /// beyond the current capacity. Returns whether it was absent before,
    /// i.e. whether the set has changed.
    pub fn insert(&mut self, index: Index) -> (r: bool)
        requires
            old(self).wf(),
            spec_chunk_index(index as int) < old(self)@.len() || spec_size_accomodating(
                spec_chunk_index(index as int),
            ) <= usize::MAX / 64,
        ensures
            final(self).wf(),
            final(self)@.len() == if spec_chunk_index(index as int) < old(self)@.len() {
                old(self)@.len() as int
            } else {
                ({
                    let s = spec_size_accomodating(spec_chunk_index(index as int));
                    if s < N {
                        N as int
                    } else {
                        s
                    }
                })
            },
            r == !seq_has_index(old(self)@, index as int),
            forall|i: int|
                seq_has_index(final(self)@, i) == (seq_has_index(old(self)@, i) || i
                    == index as int),
    {
        let cba = ChunkBitAddr::from_bit_idx(index);
        let ghost pre = self@;
        if self.chunks.len() <= cba.idx_of_chunk {
            self.resize_chunks_to_accomodate(cba.idx_of_chunk);
        }
        proof {
            assert(forall|j: int| seq_chunk(self@, j) == seq_chunk(pre, j));
            crate::seq_model::lemma_pointwise_same_set(self@, pre);
        }
        let ghost grown = self@;
        let chunk = self.chunk_at(cba.idx_of_chunk);
        let mask = cba.chunk_mask();
        let was_unset = chunk & mask == 0;
        self.set_chunk(cba.idx_of_chunk, chunk | mask);
        proof {
            let j = cba.idx_of_chunk as int;
            let o = cba.idx_in_chunk;
            lemma_mask_test(chunk, o);
            vstd::arithmetic::div_mod::lemma_fundamental_div_mod(index as int, 64);
            assert forall|i: int|
                seq_has_index(self@, i) == (seq_has_index(old(self)@, i) || i
                    == index as int) by {
                lemma_set_chunk_members(grown, j, chunk | (1u64 << o), i);
                if 0 <= i && spec_chunk_index(i) == j {
                    lemma_mask_bit(o, spec_bit_index(i));
                    lemma_chunk_bitwise(chunk, 1u64 << o, spec_bit_index(i));
                    lemma_index_addr_unique(i, index as int);
                }
            }
        }
        was_unset
    }

    /// Removes the given index from the set. Returns whether it was present
    /// before, i.e. whether the set has changed. Never grows or shrinks
    /// storage; an index beyond capacity was absent and is a no-op.
    pub fn remove(&mut self, index: Index) -> (r: bool)
        ensures
            final(self)@.len() == old(self)@.len(),
            r == seq_has_index(old(self)@, index as int),
            forall|i: int|
                seq_has_index(final(self)@, i) == (seq_has_index(old(self)@, i) && i != index as int),
    {
        let cba = ChunkBitAddr::from_bit_idx(index);
        if cba.idx_of_chunk < self.chunks.len() {
            let chunk = self.chunk_at(cba.idx_of_chunk);
            let mask = cba.chunk_mask();
            let was_set = chunk & mask != 0;
            self.set_chunk(cba.idx_of_chunk, chunk & !mask);
            proof {
                let j = cba.idx_of_chunk as int;
                let o = cba.idx_in_chunk;
                lemma_mask_test(chunk, o);
                vstd::arithmetic::div_mod::lemma_fundamental_div_mod(index as int, 64);
                assert forall|i: int|
                    seq_has_index(self@, i) == (seq_has_index(old(self)@, i) && i
                        != index as int) by {
                    lemma_set_chunk_members(old(self)@, j, chunk & !(1u64 << o), i);
                    if 0 <= i && spec_chunk_index(i) == j {
                        lemma_mask_bit(o, spec_bit_index(i));
                        lemma_chunk_bitwise(chunk, 1u64 << o, spec_bit_index(i));
                        lemma_index_addr_unique(i, index as int);
                    }
                }
            }
            was_set
        } else {
            proof {
                assert(seq_chunk(old(self)@, spec_chunk_index(index as int)) == 0);
                crate::chunk_facts::lemma_chunk_no_bits(0u64);
                assert forall|i: int|
                    seq_has_index(self@, i) == (seq_has_index(old(self)@, i) && i
                        != index as int) by {
                    if 0 <= i && spec_chunk_index(i) == spec_chunk_index(index as int) {
                        lemma_index_addr_unique(i, index as int);
                    }
                }
            }
            false
        }
    }

    /// Sets every bit in the half-open index range `[range.start,
    /// range.end)`, growing storage first if the range's last chunk lies
    /// beyond the current capacity. An empty or inverted range is a no-op.
    pub fn insert_all_in_range(&mut self, range: core::ops::Range<usize>)
        requires
            old(self).wf(),
            range.start < range.end ==> (spec_chunk_index(range.end as int - 1) < old(
                self,
            )@.len() || spec_size_accomodating(spec_chunk_index(range.end as int - 1))
                <= usize::MAX / 64),
        ensures
            final(self).wf(),
            range.start >= range.end ==> final(self)@ == old(self)@,
            final(self)@.len() == if range.start >= range.end || spec_chunk_index(
                range.end as int - 1,
            ) < old(self)@.len() {
                old(self)@.len() as int
            } else {
                ({
                    let s = spec_size_accomodating(spec_chunk_index(range.end as int - 1));
                    if s < N {
                        N as int
                    } else {
                        s
                    }
                })
            },
            forall|i: int|
                seq_has_index(final(self)@, i) == (seq_has_index(old(self)@, i) || (
                range.start <= i < range.end)),
    {
        let lo = range.start;
        let hi = range.end;
        if lo >= hi {
            return ;
        }
        proof {
            vstd::arithmetic::div_mod::lemma_fundamental_div_mod(lo as int, 64);
            vstd::arithmetic::div_mod::lemma_fundamental_div_mod(hi as int, 64);
        }
        let s: u64 = (lo % 64) as u64;
        let first_mask: u64 = (!0u64) << s;
        let first_at = lo / 64;
        let e: u64 = (hi % 64) as u64;
        let mut last_mask: u64 = !((!0u64) << e);
        let mut last_at = hi / 64;
        proof {
            crate::chunk_facts::lemma_low_mask_zero(e);
        }
        if last_mask == 0 {
            last_at = last_at - 1;
            last_mask = !0u64;
        }
        proof {
            if e == 0 {
                vstd::arithmetic::div_mod::lemma_fundamental_div_mod_converse(
                    hi as int - 1,
                    64,
                    hi as int / 64 - 1,
                    63,
                );
            } else {
                vstd::arithmetic::div_mod::lemma_fundamental_div_mod_converse(
                    hi as int - 1,
                    64,
                    hi as int / 64,
                    e as int - 1,
                );
            }
            assert(last_at == spec_chunk_index(hi as int - 1));
            vstd::arithmetic::div_mod::lemma_div_is_ordered(lo as int, hi as int - 1, 64);
            assert(first_at <= last_at);
        }
        if self.chunks.len() <= last_at {
            self.resize_chunks_to_accomodate(last_at);
        }
        proof {
            assert(forall|j: int| seq_chunk(self@, j) == seq_chunk(old(self)@, j));
            crate::seq_model::lemma_pointwise_same_set(self@, old(self)@);
        }
        let ghost g = self@;
        if first_at == last_at {
            let c = self.chunk_at(first_at);
            self.set_chunk(first_at, c | (first_mask & last_mask));
        } else {
            let c = self.chunk_at(first_at);
            self.set_chunk(first_at, c | first_mask);
            let mut j = first_at + 1;
            while j < last_at
                invariant
                    first_at < j <= last_at < self@.len(),
                    self@.len() == g.len(),
                    self@[first_at as int] == g[first_at as int] | first_mask,
                    forall|k: int| first_at < k < j ==> self@[k] == !0u64,
                    forall|k: int|
                        0 <= k < self@.len() && !(first_at <= k < j) ==> self@[k] == g[k],
                decreases last_at - j,
            {
                self.set_chunk(j, !0u64);
                j = j + 1;
            }
            let c2 = self.chunk_at(last_at);
            self.set_chunk(last_at, c2 | last_mask);
        }
        proof {
            let fa = first_at as int;
            let la = last_at as int;
            assert forall|i: int|
                seq_has_index(self@, i) == (seq_has_index(old(self)@, i) || (lo <= i < hi)) by {
                assert(seq_has_index(g, i) == seq_has_index(old(self)@, i));
                if 0 <= i {
                    let ci = spec_chunk_index(i);
                    let bi = spec_bit_index(i);
                    vstd::arithmetic::div_mod::lemma_fundamental_div_mod(i, 64);
                    if ci < fa || ci > la {
                        assert(seq_chunk(self@, ci) == seq_chunk(g, ci));
                        assert(!(lo <= i < hi));
                    } else {
                        crate::chunk_facts::lemma_range_masks(s, e, bi);
                        if fa == la {
                            lemma_chunk_bitwise(first_mask, if e == 0 {
                                !0u64
                            } else {
                                !((!0u64) << e)
                            }, bi);
                            lemma_chunk_bitwise(g[ci], first_mask & (if e == 0 {
                                !0u64
                            } else {
                                !((!0u64) << e)
                            }), bi);
                        } else if ci == fa {
                            lemma_chunk_bitwise(g[ci], first_mask, bi);
                            assert(i < hi);
                        } else if ci == la {
                            lemma_chunk_bitwise(g[ci], if e == 0 {
                                !0u64
                            } else {
                                !((!0u64) << e)
                            }, bi);
                            assert(lo <= i);
                        } else {
                            assert(seq_chunk(self@, ci) == !0u64);
                            assert(lo <= i < hi);
                        }
                    }
                }
            }
        }
    }

    /// Clears every bit in the half-open index range `[range.start,
    /// range.end)`. Never grows or shrinks storage; the part of the range
    /// beyond capacity was already absent. An empty or inverted range is a
    /// no-op.
    pub fn remove_all_in_range(&mut self, range: core::ops::Range<usize>)
        ensures
            final(self)@.len() == old(self)@.len(),
            range.start >= range.end ==> final(self)@ == old(self)@,
            forall|i: int|
                seq_has_index(final(self)@, i) == (seq_has_index(old(self)@, i) && !(
                range.start <= i < range.end)),
    {
        let lo = range.start;
        let hi = range.end;
        if lo >= hi {
            return ;
        }
        proof {
            vstd::arithmetic::div_mod::lemma_fundamental_div_mod(lo as int, 64);
            vstd::arithmetic::div_mod::lemma_fundamental_div_mod(hi as int, 64);
        }
        let s: u64 = (lo % 64) as u64;
        let first_mask: u64 = (!0u64) << s;
        let first_at = lo / 64;
        if self.chunks.len() <= first_at {
            proof {
                lemma_outside_capacity(self@, lo as int, hi as int, first_at as int);
            }
            return ;
        }
        let e: u64 = (hi % 64) as u64;
        let mut last_mask: u64 = !((!0u64) << e);
        let mut last_at = hi / 64;
        proof {
            crate::chunk_facts::lemma_low_mask_zero(e);
        }
        if last_mask == 0 {
            last_at = last_at - 1;
            last_mask = !0u64;
        }
        proof {
            if e == 0 {
                vstd::arithmetic::div_mod::lemma_fundamental_div_mod_converse(
                    hi as int - 1,
                    64,
                    hi as int / 64 - 1,
                    63,
                );
            } else {
                vstd::arithmetic::div_mod::lemma_fundamental_div_mod_converse(
                    hi as int - 1,
                    64,
                    hi as int / 64,
                    e as int - 1,
                );
            }
            assert(last_at == spec_chunk_index(hi as int - 1));
            vstd::arithmetic::div_mod::lemma_div_is_ordered(lo as int, hi as int - 1, 64);
            assert(first_at <= last_at);
        }
        let ghost g = self@;
        if first_at == last_at {
            let c = self.chunk_at(first_at);
            self.set_chunk(first_at, c & !(first_mask & last_mask));
        } else {
            let c = self.chunk_at(first_at);
            self.set_chunk(first_at, c & !first_mask);
            let mut j = first_at + 1;
            while j < last_at && j < self.chunks.len()
                invariant
                    first_at < j <= last_at,
                    first_at < self@.len(),
                    self@.len() == g.len(),
                    self@[first_at as int] == g[first_at as int] & !first_mask,
                    forall|k: int| first_at < k < j && k < self@.len() ==> self@[k] == 0u64,
                    forall|k: int|
                        0 <= k < self@.len() && !(first_at <= k < j) ==> self@[k] == g[k],
                decreases last_at - j,
            {
                self.set_chunk(j, 0u64);
                j = j + 1;
            }
            if last_at < self.chunks.len() {
                let c2 = self.chunk_at(last_at);
                self.set_chunk(last_at, c2 & !last_mask);
            }
        }
        proof {
            let fa = first_at as int;
            let la = last_at as int;
            let len = g.len() as int;
            assert forall|i: int|
                seq_has_index(self@, i) == (seq_has_index(old(self)@, i) && !(lo <= i < hi)) by {
                assert(seq_has_index(g, i) == seq_has_index(old(self)@, i));
                if 0 <= i {
                    let ci = spec_chunk_index(i);
                    let bi = spec_bit_index(i);
                    vstd::arithmetic::div_mod::lemma_fundamental_div_mod(i, 64);
                    if ci < fa || ci > la {
                        assert(seq_chunk(self@, ci) == seq_chunk(g, ci));
                        assert(!(lo <= i < hi));
                    } else if ci >= len {
                        crate::chunk_facts::lemma_chunk_no_bits(0u64);
                        assert(seq_chunk(self@, ci) == 0 && seq_chunk(g, ci) == 0);
                    } else {
                        crate::chunk_facts::lemma_range_masks(s, e, bi);
                        if fa == la {
                            lemma_chunk_bitwise(first_mask, if e == 0 {
                                !0u64
                            } else {
                                !((!0u64) << e)
                            }, bi);
                            lemma_chunk_bitwise(g[ci], first_mask & (if e == 0 {
                                !0u64
                            } else {
                                !((!0u64) << e)
                            }), bi);
                        } else if ci == fa {
                            lemma_chunk_bitwise(g[ci], first_mask, bi);
                            assert(i < hi);
                        } else if ci == la {
                            lemma_chunk_bitwise(g[ci], if e == 0 {
                                !0u64
                            } else {
                                !((!0u64) << e)
                            }, bi);
                            assert(lo <= i);
                        } else {
                            crate::chunk_facts::lemma_chunk_no_bits(0u64);
                            assert(seq_chunk(self@, ci) == 0u64);
                            assert(lo <= i < hi);
                        }
                    }
                }
            }
        }
    }

    /// Inserts every member of the readable source `r`, chunk by chunk,
    /// growing storage as the source's nonzero chunks demand.
    pub fn insert_all<R: ChunkRead>(&mut self, r: &R)
        requires
            old(self).wf(),
            r.chunk_seq().len() <= old(self)@.len() || spec_size_accomodating(
                r.chunk_seq().len() - 1,
            ) <= usize::MAX / 64,
        ensures
            final(self).wf(),
            final(self)@.len() == ({
                let e = crate::seq_model::seq_exact_len(r.chunk_seq());
                if e <= old(self)@.len() {
                    old(self)@.len() as int
                } else {
                    spec_size_accomodating(e - 1)
                }
            }),
            forall|j: int|
                seq_chunk(final(self)@, j) == (seq_chunk(old(self)@, j) | seq_chunk(
                    r.chunk_seq(),
                    j,
                )),
            forall|i: int|
                seq_has_index(final(self)@, i) == (seq_has_index(old(self)@, i) || seq_has_index(
                    r.chunk_seq(),
                    i,
                )),
    {
        proof {
            r.lemma_chunk_seq_len();
        }
        let ghost orig = self@;
        let ghost e = crate::seq_model::seq_exact_len(r.chunk_seq());
        let ghost mut gsrc: int = 0;
        proof {
            crate::seq_model::lemma_seq_exact_len(r.chunk_seq());
        }
        let mut at: usize = 0;
        loop
            invariant
                self.wf(),
                orig == old(self)@,
                self@.len() >= orig.len(),
                at <= r.chunk_seq().len() <= usize::MAX,
                r.chunk_seq().len() <= orig.len() || spec_size_accomodating(
                    r.chunk_seq().len() - 1,
                ) <= usize::MAX / 64,
                forall|j: int|
                    0 <= j < at ==> seq_chunk(self@, j) == (seq_chunk(orig, j) | seq_chunk(
                        r.chunk_seq(),
                        j,
                    )),
                forall|j: int| at <= j ==> seq_chunk(self@, j) == seq_chunk(orig, j),
                e == crate::seq_model::seq_exact_len(r.chunk_seq()),
                0 <= e <= r.chunk_seq().len(),
                forall|j: int| e <= j ==> seq_chunk(r.chunk_seq(), j) == 0,
                e > 0 ==> seq_chunk(r.chunk_seq(), e - 1) != 0,
                forall|j: int|
                    0 <= j < at && seq_chunk(r.chunk_seq(), j) != 0 ==> j < self@.len(),
                gsrc == 0 ==> self@.len() == orig.len(),
                gsrc != 0 ==> (orig.len() < gsrc <= e && self@.len() == spec_pow2_at_least(
                    gsrc,
                    1,
                )),
            ensures
                self.wf(),
                self@.len() >= orig.len(),
                forall|j: int|
                    seq_chunk(self@, j) == (seq_chunk(orig, j) | seq_chunk(
                        r.chunk_seq(),
                        j,
                    )),
                e <= at,
                forall|j: int|
                    0 <= j < at && seq_chunk(r.chunk_seq(), j) != 0 ==> j < self@.len(),
                gsrc == 0 ==> self@.len() == orig.len(),
                gsrc != 0 ==> (orig.len() < gsrc <= e && self@.len() == spec_pow2_at_least(
                    gsrc,
                    1,
                )),
            decreases r.chunk_seq().len() - at,
        {
            match r.get_chunk(at) {
                None => {
                    proof {
                        assert forall|j: int|
                            seq_chunk(self@, j) == (seq_chunk(orig, j) | seq_chunk(
                                r.chunk_seq(),
                                j,
                            )) by {
                            crate::chunk_facts::lemma_chunk_zero_ops(seq_chunk(orig, j));
                            crate::chunk_facts::lemma_chunk_zero_ops(
                                seq_chunk(r.chunk_seq(), j),
                            );
                        }
                    }
                    break ;
                },
                Some(c) => {
                    let ghost pre = self@;
                    if c != 0 {
                        proof {
                            assert(at < e);
                        }
                        if self.chunks.len() <= at {
                            proof {
                                lemma_pow2_at_least_monotone(
                                    at as int + 1,
                                    r.chunk_seq().len() as int,
                                    1,
                                );
                                gsrc = at as int + 1;
                            }
                            self.resize_chunks_to_accomodate(at);
                            proof {
                                lemma_pow2_at_least_ge(at as int + 1, 1);
                                assert(self@.len() == spec_pow2_at_least(at as int + 1, 1));
                                assert(forall|j: int| seq_chunk(self@, j) == seq_chunk(pre, j));
                            }
                        }
                        proof {
                            assert forall|j: int| at <= j implies seq_chunk(self@, j)
                                == seq_chunk(orig, j) by {
                                assert(seq_chunk(self@, j) == seq_chunk(pre, j));
                            }
                            assert forall|j: int| 0 <= j < at implies seq_chunk(self@, j) == (
                            seq_chunk(orig, j) | seq_chunk(r.chunk_seq(), j)) by {
                                assert(seq_chunk(self@, j) == seq_chunk(pre, j));
                            }
                        }
                        let ghost grown = self@;
                        let own = self.chunk_at(at);
                        self.set_chunk(at, own | c);
                        proof {
                            assert forall|j: int|
                                0 <= j < at + 1 implies seq_chunk(self@, j) == (seq_chunk(orig, j)
                                | seq_chunk(r.chunk_seq(), j)) by {
                                if j != at {
                                    assert(seq_chunk(self@, j) == seq_chunk(grown, j));
                                }
                            }
                            assert forall|j: int|
                                at + 1 <= j implies seq_chunk(self@, j) == seq_chunk(orig, j) by {
                                assert(seq_chunk(self@, j) == seq_chunk(grown, j));
                            }
                        }
                    } else {
                        proof {
                            crate::chunk_facts::lemma_chunk_zero_ops(
                                seq_chunk(orig, at as int),
                            );
                        }
                    }
                    at = at + 1;
                },
            }
        }
        proof {
            assert(orig == old(self)@);
            if e <= orig.len() {
                assert(gsrc == 0);
                assert(self@.len() == orig.len());
            } else {
                assert(seq_chunk(r.chunk_seq(), e - 1) != 0);
                assert(e - 1 < self@.len());
                assert(gsrc != 0);
                lemma_pow2_chain(gsrc, e, 1);
                assert(spec_pow2_at_least(e, self@.len() as int) == self@.len());
                assert(self@.len() == spec_size_accomodating(e - 1));
            }
            assert forall|i: int| #![trigger seq_has_index(self@, i)]
                seq_has_index(self@, i) == (seq_has_index(old(self)@, i) || seq_has_index(
                    r.chunk_seq(),
                    i,
                )) by {
                if 0 <= i {
                    assert(seq_chunk(self@, spec_chunk_index(i)) == (seq_chunk(
                        orig,
                        spec_chunk_index(i),
                    ) | seq_chunk(r.chunk_seq(), spec_chunk_index(i))));
                    lemma_chunk_bitwise(
                        seq_chunk(orig, spec_chunk_index(i)),
                        seq_chunk(r.chunk_seq(), spec_chunk_index(i)),
                        spec_bit_index(i),
                    );
                }
            }
        }
    }

    /// Removes every member of the readable source `r`, chunk by chunk.
    /// Never grows storage: the source's members beyond this set's capacity
    /// were absent already.
    pub fn remove_all<R: ChunkRead>(&mut self, r: &R)
        ensures
            final(self)@.len() == old(self)@.len(),
            forall|j: int|
                seq_chunk(final(self)@, j) == (seq_chunk(old(self)@, j) & !seq_chunk(
                    r.chunk_seq(),
                    j,
                )),
            forall|i: int|
                seq_has_index(final(self)@, i) == (seq_has_index(old(self)@, i) && !seq_has_index(
                    r.chunk_seq(),
                    i,
                )),
    {
        let ghost orig = self@;
        let len = self.chunks.len();
        let mut at: usize = 0;
        loop
            invariant
                orig == old(self)@,
                len == self@.len(),
                self@.len() == orig.len(),
                at <= len,
                forall|j: int|
                    0 <= j < at ==> seq_chunk(self@, j) == (seq_chunk(orig, j) & !seq_chunk(
                        r.chunk_seq(),
                        j,
                    )),
                forall|j: int| at <= j ==> seq_chunk(self@, j) == seq_chunk(orig, j),
            ensures
                len == self@.len(),
                self@.len() == orig.len(),
                forall|j: int|
                    seq_chunk(self@, j) == (seq_chunk(orig, j) & !seq_chunk(
                        r.chunk_seq(),
                        j,
                    )),
            decreases len - at,
        {
            if at == len {
                proof {
                    assert forall|j: int|
                        seq_chunk(self@, j) == (seq_chunk(orig, j) & !seq_chunk(
                            r.chunk_seq(),
                            j,
                        )) by {
                        crate::chunk_facts::lemma_chunk_zero_ops(seq_chunk(orig, j));
                        crate::chunk_facts::lemma_chunk_zero_ops(
                            seq_chunk(r.chunk_seq(), j),
                        );
                    }
                }
                break ;
            }
            match r.get_chunk(at) {
                None => {
                    proof {
                        assert forall|j: int|
                            seq_chunk(self@, j) == (seq_chunk(orig, j) & !seq_chunk(
                                r.chunk_seq(),
                                j,
                            )) by {
                            crate::chunk_facts::lemma_chunk_zero_ops(seq_chunk(orig, j));
                            crate::chunk_facts::lemma_chunk_zero_ops(
                                seq_chunk(r.chunk_seq(), j),
                            );
                        }
                    }
                    break ;
                },
                Some(c) => {
                    if c != 0 {
                        let ghost pre = self@;
                        let own = self.chunk_at(at);
                        self.set_chunk(at, own & !c);
                        proof {
                            assert forall|j: int|
                                0 <= j < at + 1 implies seq_chunk(self@, j) == (seq_chunk(orig, j)
                                & !seq_chunk(r.chunk_seq(), j)) by {
                                if j != at {
                                    assert(seq_chunk(self@, j) == seq_chunk(pre, j));
                                }
                            }
                            assert forall|j: int|
                                at + 1 <= j implies seq_chunk(self@, j) == seq_chunk(orig, j) by {
                                assert(seq_chunk(self@, j) == seq_chunk(pre, j));
                            }
                        }
                    } else {
                        proof {
                            crate::chunk_facts::lemma_chunk_zero_ops(
                                seq_chunk(orig, at as int),
                            );
                        }
                    }
                    at = at + 1;
                },
            }
        }
        proof {
            assert forall|i: int|
                seq_has_index(self@, i) == (seq_has_index(orig, i) && !seq_has_index(
                    r.chunk_seq(),
                    i,
                )) by {
                if 0 <= i {
                    lemma_chunk_bitwise(
                        seq_chunk(orig, spec_chunk_index(i)),
                        seq_chunk(r.chunk_seq(), spec_chunk_index(i)),
                        spec_bit_index(i),
                    );
                }
            }
        }
    }

    /// Replaces this set, in place, with the combination of itself and
    /// `other` under `op`: grow once to the combination's exact bound, then
    /// rewrite every chunk through the operator.
    pub fn overwrite_from_combination<O: BinChunkOp, A: ChunkRead>(&mut self, op: O, other: &A)
        requires
            old(self).wf(),
            other.chunk_seq().len() <= usize::MAX / 64,
        ensures
            final(self).wf(),
            final(self)@.len() == ({
                let z = crate::seq_model::seq_exact_len(
                    Seq::new(
                        op.spec_combine_bound(old(self)@.len(), other.chunk_seq().len()),
                        |j: int|
                            op.spec_combine(
                                seq_chunk(old(self)@, j),
                                seq_chunk(other.chunk_seq(), j),
                            ),
                    ),
                );
                if z <= old(self)@.len() {
                    old(self)@.len() as int
                } else {
                    z
                }
            }),
            forall|j: int|
                0 <= j ==> seq_chunk(final(self)@, j) == op.spec_combine(
                    seq_chunk(old(self)@, j),
                    seq_chunk(other.chunk_seq(), j),
                ),
    {
        proof {
            other.lemma_chunk_seq_len();
            op.law_bound_le(old(self)@.len(), other.chunk_seq().len());
        }
        let ghost cb = Seq::new(
            op.spec_combine_bound(old(self)@.len(), other.chunk_seq().len()),
            |j: int|
                op.spec_combine(seq_chunk(old(self)@, j), seq_chunk(other.chunk_seq(), j)),
        );
        let zcf = op.combine_readers(&*self, other).zero_chunks_from_exact();
        proof {
            crate::seq_model::lemma_exact_len_unique(cb, zcf as int);
            assert forall|j: int| zcf <= j implies op.spec_combine(
                seq_chunk(old(self)@, j),
                seq_chunk(other.chunk_seq(), j),
            ) == 0 by {
                if j >= cb.len() {
                    op.law_bound_absent(old(self)@.len(), other.chunk_seq().len(), j);
                    op.law_absent_zero(
                        seq_chunk(old(self)@, j),
                        seq_chunk(other.chunk_seq(), j),
                        old(self)@.len() <= j,
                        other.chunk_seq().len() <= j,
                    );
                } else {
                    assert(seq_chunk(cb, j) == 0);
                }
            }
        }
        if self.chunks.len() < zcf {
            self.resize_chunks_to(zcf);
        }
        let ghost orig = old(self)@;
        let len = self.chunks.len();
        let mut at: usize = 0;
        loop
            invariant
                orig == old(self)@,
                cb == Seq::new(
                    op.spec_combine_bound(orig.len(), other.chunk_seq().len()),
                    |j: int|
                        op.spec_combine(seq_chunk(orig, j), seq_chunk(other.chunk_seq(), j)),
                ),
                zcf as int == crate::seq_model::seq_exact_len(cb),
                len == if crate::seq_model::seq_exact_len(cb) <= orig.len() {
                    orig.len() as int
                } else {
                    crate::seq_model::seq_exact_len(cb)
                },
                len == self@.len(),
                self@.len() <= usize::MAX / 64,
                N <= self@.len(),
                zcf <= len,
                at <= len,
                forall|j: int|
                    0 <= j < at ==> self@[j] == op.spec_combine(
                        seq_chunk(orig, j),
                        seq_chunk(other.chunk_seq(), j),
                    ),
                forall|j: int| at <= j < len ==> self@[j] == seq_chunk(orig, j),
                forall|j: int|
                    zcf <= j ==> op.spec_combine(
                        seq_chunk(orig, j),
                        seq_chunk(other.chunk_seq(), j),
                    ) == 0,
            decreases len - at,
        {
            if at == len {
                return ;
            }
            let own = self.chunk_at(at);
            let rb = other.get_chunk(at);
            let combined = op.combine_chunks(Some(own), rb);
            let v = match combined {
                Some(c) => c,
                None => 0,
            };
            proof {
                if rb is None {
                    assert(seq_chunk(other.chunk_seq(), at as int) == 0);
                }
                if combined is None {
                    op.law_absent_zero(own, crate::combinators::opt_chunk(rb), false, rb is None);
                }
            }
            self.set_chunk(at, v);
            at = at + 1;
        }
    }

    /// If possible, replaces this set with its predecessor in the powerset
    /// order, the ordering of sets obtained by reading the chunk pattern as
    /// one little-endian binary counter. Returns `false`, leaving the set
    /// unchanged, only on the empty set.
    pub fn try_decrease_in_powerset_order(&mut self) -> (r: bool)
        ensures
            final(self)@.len() == old(self)@.len(),
            r == (crate::seq_model::seq_chunks_nat(old(self)@) != 0),
            r ==> crate::seq_model::seq_chunks_nat(final(self)@) + 1
                == crate::seq_model::seq_chunks_nat(old(self)@),
            !r ==> final(self)@ == old(self)@,
    {
        let ghost orig = self@;
        let len = self.chunks.len();
        let mut at: usize = 0;
        loop
            invariant
                orig == old(self)@,
                self@ == orig,
                len == self@.len(),
                at <= len,
                forall|j: int| 0 <= j < at ==> orig[j] == 0,
            ensures
                orig == old(self)@,
                self@ == orig,
                len == self@.len(),
                at < len,
                orig[at as int] != 0,
                forall|j: int| 0 <= j < at ==> orig[j] == 0,
            decreases len - at,
        {
            if at == len {
                proof {
                    crate::seq_model::lemma_chunks_nat_zero(orig, 0);
                }
                return false;
            }
            if self.chunk_at(at) != 0 {
                break ;
            }
            at = at + 1;
        }
        let c = self.chunk_at(at);
        let mut j: usize = 0;
        while j < at
            invariant
                j <= at < len,
                len == self@.len(),
                c == orig[at as int],
                c != 0,
                forall|m: int| 0 <= m < at ==> orig[m] == 0,
                forall|m: int| 0 <= m < j ==> self@[m] == !0u64,
                forall|m: int| j <= m < len ==> self@[m] == orig[m],
            decreases at - j,
        {
            self.set_chunk(j, !0u64);
            j = j + 1;
        }
        self.set_chunk(at, c - 1);
        proof {
            crate::seq_model::lemma_chunks_nat_decrement(orig, self@, 0, at as int);
            crate::seq_model::lemma_chunks_nat_zero(orig, 0);
        }
        true
    }

    /// Shrinks the storage to the exact zero bound of the held chunks
    /// (never below the inline capacity `N`), keeping the member set.
    pub fn shrink_to_fit(&mut self)
        requires
            old(self).wf(),
        ensures
            final(self).wf(),
            final(self)@.len() == ({
                let e = crate::seq_model::seq_exact_len(old(self)@);
                if e < N {
                    N as int
                } else {
                    e
                }
            }),
            final(self)@ == old(self)@.take(final(self)@.len() as int),
            forall|i: int| seq_has_index(final(self)@, i) == seq_has_index(old(self)@, i),
    {
        let b = self.zero_chunks_from_exact();
        proof {
            crate::seq_model::lemma_exact_len_unique(self@, b as int);
        }
        if b < self.chunks.len() {
            self.resize_chunks_to(b);
        }
        proof {
            assert(final(self)@ =~= old(self)@.take(self@.len() as int));
            assert(forall|j: int| seq_chunk(self@, j) == seq_chunk(old(self)@, j));
            crate::seq_model::lemma_pointwise_same_set(self@, old(self)@);
        }
    }

    /// Zeroes every chunk in place: afterwards the set has no members, and
    /// storage is neither shrunk nor released.
    pub fn clear(&mut self)
        ensures
            final(self)@.len() == old(self)@.len(),
            forall|j: int| seq_chunk(final(self)@, j) == 0,
            forall|i: int| !seq_has_index(final(self)@, i),
    {
        let n = self.chunks.len();
        let mut at: usize = 0;
        while at < n
            invariant
                n == self@.len(),
                at <= n,
                forall|j: int| 0 <= j < at ==> self@[j] == 0,
            decreases n - at,
        {
            self.set_chunk(at, 0);
            at = at + 1;
        }
        proof {
            crate::seq_model::lemma_all_zero_empty(self@);
        }
    }
}

impl<const N: usize> PartialEq for IndexSet<N> {
    /// Two packed sets are equal exactly when they encode the same member
    /// set, whatever their storage sizes.
    fn eq(&self, other: &Self) -> (r: bool) {
        match self.set_cmp(other) {
            Some(core::cmp::Ordering::Equal) => true,
            _ => false,
        }
    }
}

impl<const N: usize> vstd::std_specs::cmp::PartialEqSpecImpl for IndexSet<N> {
    open spec fn obeys_eq_spec() -> bool {
        true
    }

    open spec fn eq_spec(&self, other: &Self) -> bool {
        crate::seq_model::seq_same_set(self@, other@)
    }
}

impl<const N: usize> Clone for IndexSet<N> {
    /// The clone holds the same member set, shrunk to the exact zero
    /// bound (never below the inline capacity).
    fn clone(&self) -> (r: Self)
        ensures
            forall|i: int| seq_has_index(r@, i) == seq_has_index(self@, i),
            forall|j: int| seq_chunk(r@, j) == seq_chunk(self@, j),
            r@.len() == ({
                let e = crate::seq_model::seq_exact_len(self@);
                if e < N {
                    N as int
                } else {
                    e
                }
            }),
            self.wf() ==> r.wf(),
    {
        let b = self.zero_chunks_from_exact();
        proof {
            crate::seq_model::lemma_exact_len_unique(self@, b as int);
        }
        let count = if b < N {
            N
        } else {
            b
        };
        let mut chunks: Vec<Chunk> = Vec::new();
        let mut at: usize = 0;
        while at < count
            invariant
                at <= count,
                b <= count,
                b <= self@.len(),
                chunks@.len() == at,
                forall|j: int| b <= j ==> seq_chunk(self@, j) == 0,
                forall|j: int| 0 <= j < at ==> chunks@[j] == seq_chunk(self@, j),
            decreases count - at,
        {
            if at < b {
                let c = self.chunk_at(at);
                chunks.push(c);
            } else {
                chunks.push(0);
            }
            at = at + 1;
        }
        let r = IndexSet { chunks };
        proof {
            assert(forall|j: int| seq_chunk(r@, j) == seq_chunk(self@, j));
            crate::seq_model::lemma_pointwise_same_set(r@, self@);
        }
        r
    }
}

impl<const N: usize> Default for IndexSet<N> {
    /// The empty set at the inline capacity.
    fn default() -> (r: Self)
        ensures
            r@.len() == N,
            forall|j: int| seq_chunk(r@, j) == 0,
            forall|i: int| !seq_has_index(r@, i),
            N <= usize::MAX / 64 ==> r.wf(),
    {
        let r = IndexSet { chunks: vec![0u64; N] };
        proof {
            crate::seq_model::lemma_all_zero_empty(r@);
        }
        r
    }
}

/// A removal range that starts past the stored chunks removes nothing.
proof fn lemma_outside_capacity(g: Seq<Chunk>, lo: int, hi: int, fa: int)
    requires
        0 <= lo < hi,
        fa == lo / 64,
        g.len() <= fa,
    ensures
        forall|i: int| seq_has_index(g, i) ==> !(lo <= i <= hi),
{
    assert forall|i: int| seq_has_index(g, i) implies !(lo <= i <= hi) by {
        if lo <= i {
            vstd::arithmetic::div_mod::lemma_div_is_ordered(lo, i, 64);
            crate::chunk_facts::lemma_chunk_no_bits(0u64);
            assert(seq_chunk(g, spec_chunk_index(i)) == 0);
        }
    }
}

impl<const N: usize> ChunkRead for IndexSet<N> {
    open spec fn chunk_seq(&self) -> Seq<Chunk> {
        self@
    }

    proof fn lemma_chunk_seq_len(&self) {
        vstd::std_specs::vec::axiom_spec_len(&self.chunks);
    }

    fn get_chunk(&self, idx_of_chunk: Index) -> (r: Option<Chunk>) {
        if idx_of_chunk < self.chunks.len() {
            Some(self.chunk_at(idx_of_chunk))
        } else {
            None
        }
    }

    fn zero_chunks_from_conservative(&self) -> (r: usize) {
        self.chunks.len()
    }
}

} // verus!
