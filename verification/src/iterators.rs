//! Lazy enumeration over any readable chunk source: the chunk sequence
//! itself, and the members it encodes in ascending order.

use vstd::prelude::*;

use crate::chunk_facts::{
    first_bit, lemma_chunk_bitwise, lemma_chunk_no_bits, lemma_mask_bit, lemma_nonzero_has_bit,
};
use crate::seq_model::seq_chunk;
use crate::traits::ChunkRead;
use crate::{chunk_bit, spec_bit_index, spec_chunk_index, Chunk, ChunkBitAddr, Index};

verus! {

/// Yields the chunks of a source, in position order, up to the absence
/// sentinel.
pub struct ChunkIter<'a, A: ChunkRead> {
    pub a: &'a A,
    pub idx_of_next_chunk: usize,
}

impl<'a, A: ChunkRead> ChunkIter<'a, A> {
    pub fn new(a: &'a A) -> (r: Self)
        ensures
            r.a == a,
            r.idx_of_next_chunk == 0,
    {
        ChunkIter { a, idx_of_next_chunk: 0 }
    }

    /// The next chunk, or `None` once every remaining chunk is zero.
    pub fn next(&mut self) -> (r: Option<Chunk>)
        ensures
            final(self).a == old(self).a,
            r matches Some(c) ==> {
                &&& c == seq_chunk(old(self).a.chunk_seq(), old(self).idx_of_next_chunk as int)
                &&& final(self).idx_of_next_chunk == old(self).idx_of_next_chunk + 1
            },
            r is None ==> {
                &&& final(self).idx_of_next_chunk == old(self).idx_of_next_chunk
                &&& forall|j: int|
                    old(self).idx_of_next_chunk as int <= j ==> seq_chunk(
                        old(self).a.chunk_seq(),
                        j,
                    ) == 0
            },
            (r is None) <==> (old(self).a.chunk_seq().len() <= old(self).idx_of_next_chunk as int),
    {
        proof {
            self.a.lemma_chunk_seq_len();
        }
        match self.a.get_chunk(self.idx_of_next_chunk) {
            None => None,
            Some(c) => {
                self.idx_of_next_chunk = self.idx_of_next_chunk + 1;
                Some(c)
            },
        }
    }
}

/// Yields the members of a source in strictly ascending order: a chunk
/// iterator plus the not-yet-drained remainder of its last chunk.
pub struct IndexIter<'a, A: ChunkRead> {
    pub wi: ChunkIter<'a, A>,
    pub cached: Chunk,
}

impl<'a, A: ChunkRead> IndexIter<'a, A> {
    /// The state reads coherently: the remainder belongs to the chunk just
    /// pulled, and decoded indices fit a `usize`.
    pub open spec fn wf(&self) -> bool {
        &&& self.wi.idx_of_next_chunk <= self.wi.a.chunk_seq().len()
        &&& self.wi.a.chunk_seq().len() <= usize::MAX / 64
        &&& (self.wi.idx_of_next_chunk == 0 ==> self.cached == 0)
        &&& (self.wi.idx_of_next_chunk > 0 ==> self.cached & !seq_chunk(
            self.wi.a.chunk_seq(),
            self.wi.idx_of_next_chunk - 1,
        ) == 0)
    }

    /// The members not yet yielded: the bits left in the remainder, and
    /// everything in the chunks not yet pulled.
    pub open spec fn pending(&self) -> Set<int> {
        Set::new(
            |i: int|
                {
                    &&& 0 <= i
                    &&& {
                        ||| (spec_chunk_index(i) == self.wi.idx_of_next_chunk - 1 && chunk_bit(
                            self.cached,
                            spec_bit_index(i),
                        ))
                        ||| (spec_chunk_index(i) >= self.wi.idx_of_next_chunk && crate::seq_model::seq_has_index(
                            self.wi.a.chunk_seq(),
                            i,
                        ))
                    }
                },
        )
    }

    pub fn new(a: &'a A) -> (r: Self)
        requires
            a.chunk_seq().len() <= usize::MAX / 64,
        ensures
            r.wf(),
            r.wi.a == a,
            r.pending() == Set::new(|i: int| crate::seq_model::seq_has_index(a.chunk_seq(), i)),
    {
        let r = IndexIter { wi: ChunkIter::new(a), cached: 0 };
        proof {
            assert(r.pending() =~= Set::new(
                |i: int| crate::seq_model::seq_has_index(a.chunk_seq(), i),
            ));
        }
        r
    }

    /// The least member not yet yielded, or `None` once all are out.
    pub fn next(&mut self) -> (r: Option<Index>)
        requires
            old(self).wf(),
        ensures
            final(self).wf(),
            final(self).wi.a == old(self).wi.a,
            r matches Some(m) ==> {
                &&& old(self).pending().contains(m as int)
                &&& forall|x: int| old(self).pending().contains(x) ==> m as int <= x
                &&& final(self).pending() == old(self).pending().remove(m as int)
            },
            r is None ==> {
                &&& old(self).pending() == Set::<int>::empty()
                &&& final(self).pending() == Set::<int>::empty()
            },
    {
        while self.cached == 0
            invariant
                self.wf(),
                self.wi.a == old(self).wi.a,
                self.pending() == old(self).pending(),
            decreases self.wi.a.chunk_seq().len() - self.wi.idx_of_next_chunk,
        {
            let ghost prev = *self;
            match self.wi.next() {
                None => {
                    proof {
                        lemma_pending_empty(prev);
                    }
                    return None;
                },
                Some(c) => {
                    self.cached = c;
                    proof {
                        crate::chunk_facts::lemma_chunk_zero_ops(c);
                        lemma_pending_pull(prev, *self, c);
                    }
                },
            }
        }
        let ghost pre = *self;
        let p = self.wi.idx_of_next_chunk;
        let b = first_bit_exec(self.cached);
        self.cached = self.cached & !(1u64 << b);
        let cba = ChunkBitAddr { idx_of_chunk: p - 1, idx_in_chunk: b };
        proof {
            lemma_nonzero_has_bit(pre.cached);
            lemma_yield_step(pre, *self, (p - 1) as int, b);
            let ch = seq_chunk(pre.wi.a.chunk_seq(), p - 1);
            assert forall|t: u64| chunk_bit(self.cached, t) implies chunk_bit(ch, t) by {
                lemma_chunk_bitwise(pre.cached, 1u64 << b, t);
                crate::chunk_facts::lemma_andnot_zero(pre.cached, ch);
            }
            crate::chunk_facts::lemma_andnot_zero(self.cached, ch);
        }
        Some(cba.to_bit_idx())
    }
}

/// Locates the lowest set bit.
fn first_bit_exec(c: Chunk) -> (r: u64)
    requires
        c != 0,
    ensures
        r == first_bit(c),
        r < 64,
{
    proof {
        lemma_nonzero_has_bit(c);
    }
    c.trailing_zeros() as u64
}

/// Every pending index is a member of the source.
pub proof fn lemma_pending_members<'a, A: ChunkRead>(it: &IndexIter<'a, A>)
    requires
        it.wf(),
    ensures
        forall|i: int|
            it.pending().contains(i) ==> crate::seq_model::seq_has_index(it.wi.a.chunk_seq(), i),
{
    let s = it.wi.a.chunk_seq();
    let p = it.wi.idx_of_next_chunk as int;
    assert forall|i: int| it.pending().contains(i) implies crate::seq_model::seq_has_index(
        s,
        i,
    ) by {
        if spec_chunk_index(i) == p - 1 {
            crate::chunk_facts::lemma_andnot_zero(it.cached, seq_chunk(s, p - 1));
        }
    }
}

/// The pending set is finite: every pending index lies below the source's
/// bit capacity.
pub proof fn lemma_pending_finite<'a, A: ChunkRead>(it: &IndexIter<'a, A>)
    requires
        it.wf(),
    ensures
        it.pending().finite(),
{
    let len = it.wi.a.chunk_seq().len() as int;
    let range = vstd::set_lib::set_int_range(0, 64 * len);
    vstd::set_lib::lemma_int_range(0, 64 * len);
    assert forall|i: int| it.pending().contains(i) implies range.contains(i) by {
        vstd::arithmetic::div_mod::lemma_fundamental_div_mod(i, 64);
        if spec_chunk_index(i) >= len {
            lemma_chunk_no_bits(seq_chunk(it.wi.a.chunk_seq(), spec_chunk_index(i)));
        }
    }
    assert(it.pending().subset_of(range));
    vstd::set_lib::lemma_len_subset(it.pending(), range);
}

/// With nothing cached and every remaining chunk zero, nothing is pending.
proof fn lemma_pending_empty<'a, A: ChunkRead>(it: IndexIter<'a, A>)
    requires
        it.cached == 0,
        forall|j: int|
            it.wi.idx_of_next_chunk as int <= j ==> seq_chunk(it.wi.a.chunk_seq(), j) == 0,
    ensures
        it.pending() == Set::<int>::empty(),
{
    assert forall|i: int| !it.pending().contains(i) by {
        lemma_chunk_no_bits(0u64);
        if 0 <= i && spec_chunk_index(i) >= it.wi.idx_of_next_chunk {
            lemma_chunk_no_bits(seq_chunk(it.wi.a.chunk_seq(), spec_chunk_index(i)));
        }
    }
    assert(it.pending() =~= Set::<int>::empty());
}

/// Pulling the next chunk into the cache moves members between the two
/// pending regions without changing the pending set.
proof fn lemma_pending_pull<'a, A: ChunkRead>(pre: IndexIter<'a, A>, post: IndexIter<'a, A>, c: Chunk)
    requires
        pre.cached == 0,
        post.wi.a == pre.wi.a,
        post.wi.idx_of_next_chunk == pre.wi.idx_of_next_chunk + 1,
        post.cached == c,
        c == seq_chunk(pre.wi.a.chunk_seq(), pre.wi.idx_of_next_chunk as int),
    ensures
        post.pending() == pre.pending(),
{
    lemma_chunk_no_bits(0u64);
    crate::chunk_facts::lemma_chunk_zero_ops(c);
    assert(post.pending() =~= pre.pending());
}

/// Clearing the lowest cached bit yields exactly that member, the least
/// pending one.
proof fn lemma_yield_step<'a, A: ChunkRead>(
    pre: IndexIter<'a, A>,
    post: IndexIter<'a, A>,
    p: int,
    b: u64,
)
    requires
        pre.wf(),
        pre.cached != 0,
        b == first_bit(pre.cached),
        b < 64,
        p == pre.wi.idx_of_next_chunk - 1,
        post.wi == pre.wi,
        post.cached == pre.cached & !(1u64 << b),
    ensures
        pre.pending().contains(64 * p + b),
        forall|x: int| pre.pending().contains(x) ==> 64 * p + b <= x,
        post.pending() == pre.pending().remove(64 * p + b),
        64 * p + b <= usize::MAX,
{
    let m = 64 * p + b;
    let s = pre.wi.a.chunk_seq();
    lemma_nonzero_has_bit(pre.cached);
    crate::chunk_facts::lemma_chunk_addr_roundtrip(p, b as int);
    assert(pre.pending().contains(m));
    assert forall|x: int| pre.pending().contains(x) implies m <= x by {
        vstd::arithmetic::div_mod::lemma_fundamental_div_mod(x, 64);
        if spec_chunk_index(x) == p {
            assert(chunk_bit(pre.cached, spec_bit_index(x)));
            assert(spec_bit_index(x) >= b);
        } else {
            assert(spec_chunk_index(x) >= p + 1);
        }
    }
    assert forall|x: int| #[trigger] post.pending().contains(x) == pre.pending().remove(m).contains(
        x,
    ) by {
        if 0 <= x && spec_chunk_index(x) == p {
            lemma_mask_bit(b, spec_bit_index(x));
            lemma_chunk_bitwise(pre.cached, 1u64 << b, spec_bit_index(x));
        }
    }
    assert(post.pending() =~= pre.pending().remove(m));
    assert(p + 1 <= usize::MAX / 64);
}

} // verus!
