//! Packed bitmap index sets: a set of non-negative integers ("indices") is
//! stored as a contiguous run of 64-bit chunks, bit `b` of chunk `i` marking
//! membership of index `i * 64 + b`.

use vstd::prelude::*;

pub mod chunk_facts;
pub mod combinators;
mod index_set;
pub mod iterators;
pub mod laws;
pub mod seq_model;
mod traits;

pub use index_set::IndexSet;
pub use traits::{ChunkRead, ChunkReadExt};

verus! {

/// A chunk: 64 contiguous membership bits.
pub type Chunk = u64;

/// An index: a non-negative integer member of a set.
pub type Index = usize;

/// The number of membership bits in one chunk.
pub const CHUNK_BITS: usize = 64;

/// True iff bit `b` of chunk `c` is set.
pub open spec fn chunk_bit(c: Chunk, b: u64) -> bool {
    b < 64 && (c >> b) & 1u64 == 1u64
}

/// The chunk position that holds index `i`.
pub open spec fn spec_chunk_index(i: int) -> int {
    i / 64
}

/// The bit position of index `i` inside its chunk.
pub open spec fn spec_bit_index(i: int) -> u64 {
    (i % 64) as u64
}

/// The splitting of a linear bit index into a chunk position and a bit
/// offset inside that chunk.
#[derive(Debug, Copy, Clone)]
pub(crate) struct ChunkBitAddr {
    pub idx_of_chunk: usize,
    /// Invariant: in `0..64`.
    pub idx_in_chunk: u64,
}

impl ChunkBitAddr {
    pub(crate) fn from_bit_idx(bit_idx: usize) -> (r: Self)
        ensures
            r.idx_in_chunk < 64,
            r.idx_of_chunk == spec_chunk_index(bit_idx as int),
            r.idx_in_chunk == spec_bit_index(bit_idx as int),
    {
        ChunkBitAddr { idx_of_chunk: bit_idx / 64, idx_in_chunk: (bit_idx % 64) as u64 }
    }

    /// The chunk holding only this address's bit.
    pub(crate) fn chunk_mask(&self) -> (r: Chunk)
        requires
            self.idx_in_chunk < 64,
        ensures
            r == (1u64 << self.idx_in_chunk),
    {
        1u64 << self.idx_in_chunk
    }

    pub(crate) fn to_bit_idx(self) -> (r: usize)
        requires
            self.idx_in_chunk < 64,
            self.idx_of_chunk * 64 + self.idx_in_chunk <= usize::MAX,
        ensures
            r == self.idx_of_chunk * 64 + self.idx_in_chunk,
    {
        self.idx_of_chunk * 64 + (self.idx_in_chunk as usize)
    }
}

/// A borrowed view of a readable source from which the member list can be
/// read out in ascending order, ready for rendering.
pub struct DisplayableIndexSet<'a, A: ChunkRead>(pub &'a A);

impl<'a, A: ChunkRead> DisplayableIndexSet<'a, A> {
    /// The members of the source, each exactly once, in ascending order.
    pub fn index_list(&self) -> (r: Vec<Index>)
        requires
            self.0.chunk_seq().len() <= usize::MAX / 64,
        ensures
            forall|k: int|
                0 <= k < r@.len() ==> crate::seq_model::seq_has_index(
                    self.0.chunk_seq(),
                    r@[k] as int,
                ),
            forall|k1: int, k2: int| 0 <= k1 < k2 < r@.len() ==> r@[k1] < r@[k2],
            forall|i: int|
                crate::seq_model::seq_has_index(self.0.chunk_seq(), i) ==> exists|k: int|
                    0 <= k < r@.len() && r@[k] == i,
    {
        let ghost s = self.0.chunk_seq();
        let mut out: Vec<Index> = Vec::new();
        let mut it = crate::iterators::IndexIter::new(self.0);
        proof {
            crate::iterators::lemma_pending_finite(&it);
        }
        loop
            invariant
                it.pending().finite(),
                it.wf(),
                it.wi.a == self.0,
                s == self.0.chunk_seq(),
                forall|k: int|
                    0 <= k < out@.len() ==> crate::seq_model::seq_has_index(s, out@[k] as int),
                forall|k1: int, k2: int| 0 <= k1 < k2 < out@.len() ==> out@[k1] < out@[k2],
                forall|k: int, i: int|
                    0 <= k < out@.len() && it.pending().contains(i) ==> out@[k] < i,
                forall|i: int|
                    crate::seq_model::seq_has_index(s, i) && !it.pending().contains(i)
                        ==> exists|k: int| 0 <= k < out@.len() && out@[k] == i,
            decreases it.pending().len(),
        {
            proof {
                crate::iterators::lemma_pending_members(&it);
            }
            let ghost pend0 = it.pending();
            let ghost out0 = out@;
            match it.next() {
                None => {
                    return out;
                },
                Some(m) => {
                    out.push(m);
                    proof {
                        assert(out@ == out0.push(m));
                        assert forall|i: int|
                            crate::seq_model::seq_has_index(s, i) && !it.pending().contains(
                                i,
                            ) implies exists|k: int| 0 <= k < out@.len() && out@[k] == i by {
                            if i == m as int {
                                assert(out@[out@.len() - 1] == m);
                            } else {
                                assert(!pend0.contains(i));
                                let k = choose|k: int| 0 <= k < out0.len() && out0[k] == i;
                                assert(out@[k] == i);
                            }
                        }
                    }
                },
            }
        }
    }
}

/// The least number of chunks whose bits cover `index_count` indices.
pub(crate) fn index_count_to_chunk_count(index_count: usize) -> (r: usize)
    requires
        index_count + 63 <= usize::MAX,
    ensures
        r == (index_count + 63) / 64,
        index_count <= r * 64,
{
    (index_count + 63) / 64
}

} // verus!
