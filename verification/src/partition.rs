//! What a finished partition guarantees: the authoritative contract of
//! chunk generation.

use vstd::prelude::*;
use crate::bitset::singleton_bits;
use crate::chunk::Chunk;
use crate::graph::Graph;
use crate::numeral::dec_str;
use crate::reach::sig_of;

verus! {

/// The leading chunks are the dedicated entry chunks, in declaration order,
/// each carrying the singleton signature of its entry's bit and the entry's
/// name; every later chunk is a common chunk with a generated counter name
/// and at least one member.
pub open spec fn entry_chunks_ok(g: &Graph, chunks: Seq<Chunk>) -> bool {
    &&& chunks.len() >= g.entries@.len()
    &&& forall|j: int|
        0 <= j < g.entries@.len() ==> {
            let c = #[trigger] chunks[j];
            &&& c.entry_module == Some(g.entries@[j].module)
            &&& c.bits@ == singleton_bits(g.entries@.len(), j)
            &&& (c.name matches Some(nm) && nm@ == g.entries@[j].name@)
        }
    &&& forall|j: int|
        g.entries@.len() <= j < chunks.len() ==> {
            let c = #[trigger] chunks[j];
            &&& c.entry_module is None
            &&& (c.name matches Some(nm) && nm@ == dec_str(j as nat))
            &&& c.modules@.len() > 0
        }
}

/// Some chunk lists module `m` as a member.
pub open spec fn covered(chunks: Seq<Chunk>, m: int) -> bool {
    exists|j: int| 0 <= j < chunks.len() && (#[trigger] chunks[j]).modules@.contains(m as usize)
}

/// No two chunks share a reachability signature.
pub open spec fn chunk_sigs_distinct(chunks: Seq<Chunk>) -> bool {
    forall|j1: int, j2: int|
        0 <= j1 < j2 < chunks.len() ==> (#[trigger] chunks[j1]).bits@ != (
        #[trigger] chunks[j2]).bits@
}

/// Every member is a valid non-runtime module whose true reachability
/// signature equals its chunk's signature; no chunk lists a member twice.
pub open spec fn members_ok(g: &Graph, chunks: Seq<Chunk>) -> bool {
    &&& forall|j: int|
        0 <= j < chunks.len() ==> (#[trigger] chunks[j]).bits@.len() == g.entries@.len()
    &&& forall|j: int, k: int|
        0 <= j < chunks.len() && 0 <= k < chunks[j].modules@.len() ==> {
            let m = (#[trigger] chunks[j].modules@[k]) as int;
            &&& m < g.modules@.len()
            &&& m != g.runtime
            &&& chunks[j].bits@ == sig_of(g, m)
        }
    &&& forall|j: int, k1: int, k2: int|
        0 <= j < chunks.len() && 0 <= k1 < k2 < chunks[j].modules@.len() ==> (
        #[trigger] chunks[j].modules@[k1]) != (#[trigger] chunks[j].modules@[k2])
}

/// Within every chunk the members appear in non-decreasing execution order.
pub open spec fn members_sorted(g: &Graph, chunks: Seq<Chunk>) -> bool {
    forall|j: int, k1: int, k2: int|
        0 <= j < chunks.len() && 0 <= k1 <= k2 < chunks[j].modules@.len()
            ==> g.modules@[(#[trigger] chunks[j].modules@[k1]) as int].exec_order <= g.modules@[(
        #[trigger] chunks[j].modules@[k2]) as int].exec_order
}

/// The module-to-chunk index is total over the non-runtime modules: each is
/// sent to a chunk that lists it, and the runtime module to no chunk.
pub open spec fn index_ok(g: &Graph, chunks: Seq<Chunk>, map: Seq<Option<usize>>) -> bool {
    &&& map.len() == g.modules@.len()
    &&& forall|m: int|
        0 <= m < map.len() && m != g.runtime ==> ((#[trigger] map[m]) matches Some(j) && (j as int)
            < chunks.len() && chunks[j as int].modules@.contains(m as usize))
    &&& 0 <= g.runtime < map.len() ==> map[g.runtime as int] is None
}

/// The full partition contract: entry chunks seeded in declaration order,
/// signatures pairwise distinct, members grouped exactly by signature,
/// ordered by execution order, and a total module-to-chunk index.
pub open spec fn valid_partition(g: &Graph, chunks: Seq<Chunk>, map: Seq<Option<usize>>) -> bool {
    &&& entry_chunks_ok(g, chunks)
    &&& chunk_sigs_distinct(chunks)
    &&& members_ok(g, chunks)
    &&& members_sorted(g, chunks)
    &&& index_ok(g, chunks, map)
}

} // verus!
