//! The partition laws, stated and proved over the partition contract.

use vstd::prelude::*;
use crate::bitset::singleton_bits;
use crate::chunk::Chunk;
use crate::graph::Graph;
use crate::partition::valid_partition;
use crate::reach::{reaches, sig_of, valid_path};

verus! {

/// Every non-runtime module of the graph is a member of exactly one chunk.
pub proof fn lemma_module_in_exactly_one_chunk(
    g: &Graph,
    chunks: Seq<Chunk>,
    map: Seq<Option<usize>>,
    m: int,
)
    requires
        valid_partition(g, chunks, map),
        0 <= m < g.modules@.len(),
        m != g.runtime,
    ensures
        exists|j: int| 0 <= j < chunks.len() && (#[trigger] chunks[j]).modules@.contains(m as usize),
        forall|j1: int, j2: int|
            0 <= j1 < chunks.len() && 0 <= j2 < chunks.len() && (
            #[trigger] chunks[j1]).modules@.contains(m as usize) && (
            #[trigger] chunks[j2]).modules@.contains(m as usize) ==> j1 == j2,
{
    let j = map[m]->Some_0 as int;
    assert(0 <= j < chunks.len() && chunks[j].modules@.contains(m as usize));
    assert forall|j1: int, j2: int|
        0 <= j1 < chunks.len() && 0 <= j2 < chunks.len() && (#[trigger] chunks[j1]).modules@.contains(
            m as usize,
        ) && (#[trigger] chunks[j2]).modules@.contains(m as usize) implies j1 == j2 by {
        let k1 = choose|k: int|
            0 <= k < chunks[j1].modules@.len() && chunks[j1].modules@[k] == m as usize;
        let k2 = choose|k: int|
            0 <= k < chunks[j2].modules@.len() && chunks[j2].modules@[k] == m as usize;
        assert(chunks[j1].bits@ == sig_of(g, chunks[j1].modules@[k1] as int));
        assert(chunks[j2].bits@ == sig_of(g, chunks[j2].modules@[k2] as int));
        assert(chunks[j1].modules@[k1] == chunks[j2].modules@[k2]);
        if j1 != j2 {
            assert(chunks[j1].bits@ != chunks[j2].bits@);
        }
    }
}

/// Two members share a chunk iff their reachability signatures are
/// bit-for-bit equal.
pub proof fn lemma_same_chunk_iff_equal_bits(
    g: &Graph,
    chunks: Seq<Chunk>,
    map: Seq<Option<usize>>,
    j1: int,
    k1: int,
    j2: int,
    k2: int,
)
    requires
        valid_partition(g, chunks, map),
        0 <= j1 < chunks.len(),
        0 <= k1 < chunks[j1].modules@.len(),
        0 <= j2 < chunks.len(),
        0 <= k2 < chunks[j2].modules@.len(),
    ensures
        (j1 == j2) <==> (sig_of(g, chunks[j1].modules@[k1] as int) == sig_of(
            g,
            chunks[j2].modules@[k2] as int,
        )),
{
    assert(chunks[j1].bits@ == sig_of(g, chunks[j1].modules@[k1] as int));
    assert(chunks[j2].bits@ == sig_of(g, chunks[j2].modules@[k2] as int));
    if j1 != j2 {
        assert(chunks[j1].bits@ != chunks[j2].bits@);
    }
}

/// For every declared entry point there is exactly one chunk designating
/// its module as entry module, and that chunk's signature is the singleton
/// of the entry's own bit.
pub proof fn lemma_entry_chunk_unique(
    g: &Graph,
    chunks: Seq<Chunk>,
    map: Seq<Option<usize>>,
    i: int,
)
    requires
        g.wf(),
        valid_partition(g, chunks, map),
        0 <= i < g.entries@.len(),
    ensures
        chunks[i].entry_module == Some(g.entries@[i].module),
        chunks[i].bits@ == singleton_bits(g.entries@.len(), i),
        forall|j: int|
            0 <= j < chunks.len() && (#[trigger] chunks[j]).entry_module == Some(
                g.entries@[i].module,
            ) ==> j == i,
{
    assert forall|j: int|
        0 <= j < chunks.len() && (#[trigger] chunks[j]).entry_module == Some(
            g.entries@[i].module,
        ) implies j == i by {
        if j < g.entries@.len() {
            assert(chunks[j].entry_module == Some(g.entries@[j].module));
            assert(g.entries@[j].module == g.entries@[i].module);
        } else {
            assert(chunks[j].entry_module is None);
        }
    }
}

/// A bit in a member's signature certifies a purely static import path from
/// that entry point: dynamic-import edges never propagate reachability, so
/// a module's signature can gain a bit only through static edges.
pub proof fn lemma_signature_bit_is_static_reachability(
    g: &Graph,
    chunks: Seq<Chunk>,
    map: Seq<Option<usize>>,
    j: int,
    k: int,
    i: int,
)
    requires
        valid_partition(g, chunks, map),
        0 <= j < chunks.len(),
        0 <= k < chunks[j].modules@.len(),
        0 <= i < g.entries@.len(),
        chunks[j].bits@[i],
    ensures
        reaches(g, g.entries@[i].module as int, chunks[j].modules@[k] as int),
        exists|p: Seq<int>|
            {
                &&& #[trigger] valid_path(g, p)
                &&& p.first() == g.entries@[i].module as int
                &&& p.last() == chunks[j].modules@[k] as int
            },
{
    let m = chunks[j].modules@[k] as int;
    assert(chunks[j].bits@ == sig_of(g, m));
    assert(sig_of(g, m)[i] == reaches(g, g.entries@[i].module as int, m));
    let p = choose|p: Seq<int>|
        {
            &&& #[trigger] valid_path(g, p)
            &&& p.first() == g.entries@[i].module as int
            &&& p.last() == m
            &&& forall|t: int| 0 <= t < p.len() ==> !Set::<int>::empty().contains(#[trigger] p[t])
        };
    assert(valid_path(g, p));
}

} // verus!
