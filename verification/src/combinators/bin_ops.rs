//! The four canonical binary set operators, as stateless operator tags.

use vstd::prelude::*;

use super::{opt_chunk, BinChunkOp};
use crate::chunk_facts::lemma_chunk_zero_ops;
use crate::Chunk;

verus! {

/// Union: a member of either operand.
#[derive(Debug, Copy, Clone, Eq, PartialEq, Hash)]
pub struct Or;

/// Symmetric difference: a member of exactly one operand.
#[derive(Debug, Copy, Clone, Eq, PartialEq, Hash)]
pub struct Xor;

/// Intersection: a member of both operands.
#[derive(Debug, Copy, Clone, Eq, PartialEq, Hash)]
pub struct And;

/// Relative complement: a member of the first operand but not the second.
#[derive(Debug, Copy, Clone, Eq, PartialEq, Hash)]
pub struct Without;

/// The concrete chunk an optional answer stands for.
fn z(chunk: Option<Chunk>) -> (r: Chunk)
    ensures
        r == opt_chunk(chunk),
{
    match chunk {
        Some(c) => c,
        None => 0,
    }
}

impl BinChunkOp for Or {
    open spec fn spec_combine(&self, x: Chunk, y: Chunk) -> Chunk {
        x | y
    }

    open spec fn spec_absent(&self, a_absent: bool, b_absent: bool) -> bool {
        a_absent && b_absent
    }

    open spec fn spec_combine_bound(&self, ba: nat, bb: nat) -> nat {
        if ba < bb {
            bb
        } else {
            ba
        }
    }

    proof fn law_absent_zero(&self, x: Chunk, y: Chunk, p: bool, q: bool) {
        lemma_chunk_zero_ops(0u64);
    }

    proof fn law_absent_monotone(&self, p1: bool, q1: bool, p2: bool, q2: bool) {
    }

    proof fn law_bound_absent(&self, ba: nat, bb: nat, j: int) {
    }

    proof fn law_bound_tight(&self, ba: nat, bb: nat, j: int) {
    }

    proof fn law_bound_le(&self, ba: nat, bb: nat) {
    }

    fn combine_chunks(self, a: Option<Chunk>, b: Option<Chunk>) -> (r: Option<Chunk>) {
        if a.is_none() && b.is_none() {
            None
        } else {
            Some(z(a) | z(b))
        }
    }

    fn combine_zero_chunks_from_conservative(self, ncfa: usize, ncfb: usize) -> (r: usize) {
        if ncfa < ncfb {
            ncfb
        } else {
            ncfa
        }
    }
}

impl BinChunkOp for Xor {
    open spec fn spec_combine(&self, x: Chunk, y: Chunk) -> Chunk {
        x ^ y
    }

    open spec fn spec_absent(&self, a_absent: bool, b_absent: bool) -> bool {
        a_absent && b_absent
    }

    open spec fn spec_combine_bound(&self, ba: nat, bb: nat) -> nat {
        if ba < bb {
            bb
        } else {
            ba
        }
    }

    proof fn law_absent_zero(&self, x: Chunk, y: Chunk, p: bool, q: bool) {
        lemma_chunk_zero_ops(0u64);
    }

    proof fn law_absent_monotone(&self, p1: bool, q1: bool, p2: bool, q2: bool) {
    }

    proof fn law_bound_absent(&self, ba: nat, bb: nat, j: int) {
    }

    proof fn law_bound_tight(&self, ba: nat, bb: nat, j: int) {
    }

    proof fn law_bound_le(&self, ba: nat, bb: nat) {
    }

    fn combine_chunks(self, a: Option<Chunk>, b: Option<Chunk>) -> (r: Option<Chunk>) {
        if a.is_none() && b.is_none() {
            None
        } else {
            Some(z(a) ^ z(b))
        }
    }

    fn combine_zero_chunks_from_conservative(self, ncfa: usize, ncfb: usize) -> (r: usize) {
        if ncfa < ncfb {
            ncfb
        } else {
            ncfa
        }
    }
}

impl BinChunkOp for And {
    open spec fn spec_combine(&self, x: Chunk, y: Chunk) -> Chunk {
        x & y
    }

    open spec fn spec_absent(&self, a_absent: bool, b_absent: bool) -> bool {
        a_absent || b_absent
    }

    open spec fn spec_combine_bound(&self, ba: nat, bb: nat) -> nat {
        if ba < bb {
            ba
        } else {
            bb
        }
    }

    proof fn law_absent_zero(&self, x: Chunk, y: Chunk, p: bool, q: bool) {
        lemma_chunk_zero_ops(x);
        lemma_chunk_zero_ops(y);
    }

    proof fn law_absent_monotone(&self, p1: bool, q1: bool, p2: bool, q2: bool) {
    }

    proof fn law_bound_absent(&self, ba: nat, bb: nat, j: int) {
    }

    proof fn law_bound_tight(&self, ba: nat, bb: nat, j: int) {
    }

    proof fn law_bound_le(&self, ba: nat, bb: nat) {
    }

    fn combine_chunks(self, a: Option<Chunk>, b: Option<Chunk>) -> (r: Option<Chunk>) {
        match (a, b) {
            (Some(x), Some(y)) => Some(x & y),
            _ => None,
        }
    }

    fn combine_zero_chunks_from_conservative(self, ncfa: usize, ncfb: usize) -> (r: usize) {
        if ncfa < ncfb {
            ncfa
        } else {
            ncfb
        }
    }
}

impl BinChunkOp for Without {
    open spec fn spec_combine(&self, x: Chunk, y: Chunk) -> Chunk {
        x & !y
    }

    open spec fn spec_absent(&self, a_absent: bool, b_absent: bool) -> bool {
        a_absent
    }

    open spec fn spec_combine_bound(&self, ba: nat, bb: nat) -> nat {
        ba
    }

    proof fn law_absent_zero(&self, x: Chunk, y: Chunk, p: bool, q: bool) {
        lemma_chunk_zero_ops(y);
    }

    proof fn law_absent_monotone(&self, p1: bool, q1: bool, p2: bool, q2: bool) {
    }

    proof fn law_bound_absent(&self, ba: nat, bb: nat, j: int) {
    }

    proof fn law_bound_tight(&self, ba: nat, bb: nat, j: int) {
    }

    proof fn law_bound_le(&self, ba: nat, bb: nat) {
    }

    fn combine_chunks(self, a: Option<Chunk>, b: Option<Chunk>) -> (r: Option<Chunk>) {
        match a {
            Some(x) => Some(x & !z(b)),
            None => None,
        }
    }

    fn combine_zero_chunks_from_conservative(self, ncfa: usize, ncfb: usize) -> (r: usize) {
        ncfa
    }
}

} // verus!
