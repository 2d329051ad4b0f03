//! Lazy set combinators: a stateless binary chunk operator applied across
//! two borrowed sources, itself readable, never materializing a result.

pub mod bin_ops;

use vstd::prelude::*;

use crate::seq_model::seq_chunk;
use crate::traits::ChunkRead;
use crate::{Chunk, Index};

verus! {

/// The chunk value an optional answer stands for: zero when absent.
pub open spec fn opt_chunk(c: Option<Chunk>) -> Chunk {
    match c {
        Some(v) => v,
        None => 0,
    }
}

/// A readable source with no members at all.
pub struct EmptyIndexSet;

impl ChunkRead for EmptyIndexSet {
    open spec fn chunk_seq(&self) -> Seq<Chunk> {
        Seq::empty()
    }

    proof fn lemma_chunk_seq_len(&self) {
    }

    fn get_chunk(&self, _idx_of_chunk: Index) -> (r: Option<Chunk>) {
        None
    }

    fn zero_chunks_from_conservative(&self) -> (r: usize) {
        0
    }
}

/// A stateless binary operator on chunks, lifted pointwise to sets.
///
/// Absence must be sound: the operator may only answer `None` when, given
/// which operands are absent, the combined chunk there and at every later
/// position is forced to zero.
pub trait BinChunkOp: Copy + Sized {
    /// The operator's value on two present chunks (an absent operand reads
    /// as zero).
    spec fn spec_combine(&self, x: Chunk, y: Chunk) -> Chunk;

    /// Whether the operator reports absence, from the operands' absence.
    spec fn spec_absent(&self, a_absent: bool, b_absent: bool) -> bool;

    /// The conservative zero bound of the combination, from the bounds of
    /// the operands.
    spec fn spec_combine_bound(&self, ba: nat, bb: nat) -> nat;

    /// Absence forces the combined chunk to zero, whatever the present
    /// operand holds.
    proof fn law_absent_zero(&self, x: Chunk, y: Chunk, p: bool, q: bool)
        requires
            self.spec_absent(p, q),
            p ==> x == 0,
            q ==> y == 0,
        ensures
            self.spec_combine(x, y) == 0,
    ;

    /// Absence is monotone: more absent operands keep the answer absent.
    proof fn law_absent_monotone(&self, p1: bool, q1: bool, p2: bool, q2: bool)
        requires
            self.spec_absent(p1, q1),
            p1 ==> p2,
            q1 ==> q2,
        ensures
            self.spec_absent(p2, q2),
    ;

    /// From the combined bound on, both operands read as absent enough for
    /// the operator to report absence.
    proof fn law_bound_absent(&self, ba: nat, bb: nat, j: int)
        requires
            self.spec_combine_bound(ba, bb) <= j,
        ensures
            self.spec_absent(ba <= j, bb <= j),
    ;

    /// Below the combined bound, the operands' absence pattern is not yet
    /// enough for the operator to report absence.
    proof fn law_bound_tight(&self, ba: nat, bb: nat, j: int)
        requires
            0 <= j < self.spec_combine_bound(ba, bb),
        ensures
            !self.spec_absent(ba <= j, bb <= j),
    ;

    /// The combined bound never exceeds both operands' bounds.
    proof fn law_bound_le(&self, ba: nat, bb: nat)
        ensures
            self.spec_combine_bound(ba, bb) <= ba || self.spec_combine_bound(ba, bb) <= bb,
    ;

    /// Apply the operator to one pair of chunk answers.
    fn combine_chunks(self, a: Option<Chunk>, b: Option<Chunk>) -> (r: Option<Chunk>)
        ensures
            r matches Some(c) ==> c == self.spec_combine(opt_chunk(a), opt_chunk(b)),
            r is None <==> self.spec_absent(a is None, b is None),
    ;

    /// Combine the conservative zero bounds of two sources.
    fn combine_zero_chunks_from_conservative(self, ncfa: usize, ncfb: usize) -> (r: usize)
        requires
            self.spec_combine_bound(ncfa as nat, ncfb as nat) <= usize::MAX,
        ensures
            r as nat == self.spec_combine_bound(ncfa as nat, ncfb as nat),
    ;

    /// View two borrowed sources through this operator.
    fn combine_readers<'a, A: ChunkRead, B: ChunkRead>(self, a: &'a A, b: &'a B) -> (r:
        CombinedChunkReads<'a, A, B, Self>)
        ensures
            r.a == a,
            r.b == b,
            r.op == self,
    {
        CombinedChunkReads { a, b, op: self }
    }
}

/// Two borrowed sources seen through a binary operator; itself a readable
/// source, computed chunk by chunk on demand.
pub struct CombinedChunkReads<'a, A: ChunkRead, B: ChunkRead, O: BinChunkOp> {
    pub a: &'a A,
    pub b: &'a B,
    pub op: O,
}

impl<'a, A: ChunkRead, B: ChunkRead, O: BinChunkOp> ChunkRead for CombinedChunkReads<'a, A, B, O> {
    open spec fn chunk_seq(&self) -> Seq<Chunk> {
        Seq::new(
            self.op.spec_combine_bound(self.a.chunk_seq().len(), self.b.chunk_seq().len()),
            |j: int| self.op.spec_combine(seq_chunk(self.a.chunk_seq(), j), seq_chunk(self.b.chunk_seq(), j)),
        )
    }

    proof fn lemma_chunk_seq_len(&self) {
        self.a.lemma_chunk_seq_len();
        self.b.lemma_chunk_seq_len();
        self.op.law_bound_le(self.a.chunk_seq().len(), self.b.chunk_seq().len());
    }

    fn get_chunk(&self, idx_of_chunk: Index) -> (r: Option<Chunk>) {
        let ra = self.a.get_chunk(idx_of_chunk);
        let rb = self.b.get_chunk(idx_of_chunk);
        let r = self.op.combine_chunks(ra, rb);
        proof {
            let i = idx_of_chunk as int;
            let sa = self.a.chunk_seq();
            let sb = self.b.chunk_seq();
            let bound = self.op.spec_combine_bound(sa.len(), sb.len());
            match r {
                Some(c) => {
                    if bound <= i {
                        self.op.law_bound_absent(sa.len(), sb.len(), i);
                        self.op.law_absent_monotone(
                            sa.len() <= i,
                            sb.len() <= i,
                            ra is None,
                            rb is None,
                        );
                        assert(false);
                    }
                    assert(c == seq_chunk(self.chunk_seq(), i));
                },
                None => {
                    if i < bound {
                        self.op.law_bound_tight(sa.len(), sb.len(), i);
                        self.op.law_absent_monotone(
                            ra is None,
                            rb is None,
                            sa.len() <= i,
                            sb.len() <= i,
                        );
                        assert(false);
                    }
                    assert forall|j: int| i <= j implies seq_chunk(self.chunk_seq(), j) == 0 by {
                        if j < bound {
                            self.op.law_absent_zero(
                                seq_chunk(sa, j),
                                seq_chunk(sb, j),
                                ra is None,
                                rb is None,
                            );
                        }
                    }
                },
            }
        }
        r
    }

    fn zero_chunks_from_conservative(&self) -> (r: usize) {
        proof {
            self.a.lemma_chunk_seq_len();
            self.b.lemma_chunk_seq_len();
            self.op.law_bound_le(self.a.chunk_seq().len(), self.b.chunk_seq().len());
        }
        let na = self.a.zero_chunks_from_conservative();
        let nb = self.b.zero_chunks_from_conservative();
        self.op.combine_zero_chunks_from_conservative(na, nb)
    }
}

/// Every padded chunk of a combined reader is the operator applied to the
/// operands' padded chunks, inside and beyond the combined bound alike.
pub proof fn lemma_combined_chunk<'a, A: ChunkRead, B: ChunkRead, O: BinChunkOp>(
    c: &CombinedChunkReads<'a, A, B, O>,
    j: int,
)
    requires
        0 <= j,
    ensures
        seq_chunk(c.chunk_seq(), j) == c.op.spec_combine(
            seq_chunk(c.a.chunk_seq(), j),
            seq_chunk(c.b.chunk_seq(), j),
        ),
{
    let la = c.a.chunk_seq().len();
    let lb = c.b.chunk_seq().len();
    if j >= c.op.spec_combine_bound(la, lb) {
        c.op.law_bound_absent(la, lb, j);
        c.op.law_absent_zero(
            seq_chunk(c.a.chunk_seq(), j),
            seq_chunk(c.b.chunk_seq(), j),
            la <= j,
            lb <= j,
        );
    }
}

} // verus!
