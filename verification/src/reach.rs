//! Entry reachability over static import edges.
//!
//! A module's reachability signature records which entry points transitively
//! depend on it through static imports alone; dynamic-import edges never
//! propagate reachability, because a dynamically imported module is already
//! registered upstream as its own entry point.

use vstd::prelude::*;
use crate::bitset::BitSet;
use crate::graph::{Graph, ImportKind};

verus! {

/// A static import edge from module `a` to module `b`.
pub open spec fn static_edge(g: &Graph, a: int, b: int) -> bool {
    &&& 0 <= a < g.modules@.len()
    &&& exists|k: int|
        0 <= k < g.modules@[a].import_records@.len()
            && (#[trigger] g.modules@[a].import_records@[k]).kind is Static
            && g.modules@[a].import_records@[k].resolved_module == b
}

/// A non-empty walk through the graph along static edges.
pub open spec fn valid_path(g: &Graph, p: Seq<int>) -> bool {
    &&& p.len() > 0
    &&& forall|k: int| 0 <= k < p.len() ==> 0 <= #[trigger] p[k] < g.modules@.len()
    &&& forall|k: int| 0 <= k < p.len() - 1 ==> static_edge(g, #[trigger] p[k], p[k + 1])
}

/// `to` is reachable from `from` along static edges whose every node
/// (endpoints included) lies outside `avoid`.
pub open spec fn reaches_avoiding(g: &Graph, from: int, to: int, avoid: Set<int>) -> bool {
    exists|p: Seq<int>|
        {
            &&& #[trigger] valid_path(g, p)
            &&& p.first() == from
            &&& p.last() == to
            &&& forall|k: int| 0 <= k < p.len() ==> !avoid.contains(#[trigger] p[k])
        }
}

/// `to` is transitively statically imported from `from` (every module
/// reaches itself).
pub open spec fn reaches(g: &Graph, from: int, to: int) -> bool {
    reaches_avoiding(g, from, to, Set::empty())
}

/// The true reachability signature of module `m`: bit `j` iff entry point
/// `j` statically reaches `m`.
pub open spec fn sig_of(g: &Graph, m: int) -> Seq<bool> {
    Seq::new(g.entries@.len(), |j: int| reaches(g, g.entries@[j].module as int, m))
}

/// A node outside `avoid` reaches itself avoiding `avoid`.
pub proof fn lemma_reaches_self(g: &Graph, m: int, avoid: Set<int>)
    requires
        0 <= m < g.modules@.len(),
        !avoid.contains(m),
    ensures
        reaches_avoiding(g, m, m, avoid),
{
    let p = seq![m];
    assert(valid_path(g, p));
    assert(forall|k: int| 0 <= k < p.len() ==> !avoid.contains(#[trigger] p[k]));
}

/// A reachable node's static successor outside `avoid` is reachable too.
pub proof fn lemma_reaches_step(g: &Graph, from: int, mid: int, to: int, avoid: Set<int>)
    requires
        reaches_avoiding(g, from, mid, avoid),
        static_edge(g, mid, to),
        0 <= to < g.modules@.len(),
        !avoid.contains(to),
    ensures
        reaches_avoiding(g, from, to, avoid),
{
    let p = choose|p: Seq<int>|
        {
            &&& #[trigger] valid_path(g, p)
            &&& p.first() == from
            &&& p.last() == mid
            &&& forall|k: int| 0 <= k < p.len() ==> !avoid.contains(#[trigger] p[k])
        };
    let q = p.push(to);
    assert(q.last() == to);
    assert(forall|k: int| 0 <= k < q.len() - 1 ==> static_edge(g, #[trigger] q[k], q[k + 1])) by {
        assert(forall|k: int| 0 <= k < p.len() ==> #[trigger] q[k] == p[k]);
        assert(q[q.len() - 2] == p.last());
    }
    assert(valid_path(g, q));
    assert(forall|k: int| 0 <= k < q.len() ==> !avoid.contains(#[trigger] q[k]));
}

/// Every node on a path that avoids `avoid` and starts inside a set `s`
/// that is closed under static successors (outside `avoid`) ends inside `s`.
proof fn lemma_path_stays_in_closed_set(g: &Graph, p: Seq<int>, s: Set<int>, avoid: Set<int>)
    requires
        valid_path(g, p),
        forall|k: int| 0 <= k < p.len() ==> !avoid.contains(#[trigger] p[k]),
        s.contains(p.first()),
        forall|a: int, b: int|
            s.contains(a) && !avoid.contains(a) && static_edge(g, a, b) && !avoid.contains(b)
                ==> s.contains(b),
    ensures
        s.contains(p.last()),
    decreases p.len(),
{
    if p.len() == 1 {
    } else {
        assert(static_edge(g, p[0], p[1]));
        assert(s.contains(p[1]));
        let q = p.drop_first();
        assert(valid_path(g, q)) by {
            assert(forall|k: int| 0 <= k < q.len() ==> #[trigger] q[k] == p[k + 1]);
        }
        assert(forall|k: int| 0 <= k < q.len() ==> !avoid.contains(#[trigger] q[k])) by {
            assert(forall|k: int| 0 <= k < q.len() ==> #[trigger] q[k] == p[k + 1]);
        }
        lemma_path_stays_in_closed_set(g, q, s, avoid);
        assert(q.last() == p.last());
    }
}

/// Completeness of a marking that is closed under static successors: a set
/// containing `from`, closed under static edges to nodes outside `avoid`,
/// contains every node reachable from `from` avoiding `avoid`.
pub proof fn lemma_closed_set_contains_reachable(
    g: &Graph,
    from: int,
    to: int,
    s: Set<int>,
    avoid: Set<int>,
)
    requires
        reaches_avoiding(g, from, to, avoid),
        s.contains(from),
        forall|a: int, b: int|
            s.contains(a) && !avoid.contains(a) && static_edge(g, a, b) && !avoid.contains(b)
                ==> s.contains(b),
    ensures
        s.contains(to),
{
    let p = choose|p: Seq<int>|
        {
            &&& #[trigger] valid_path(g, p)
            &&& p.first() == from
            &&& p.last() == to
            &&& forall|k: int| 0 <= k < p.len() ==> !avoid.contains(#[trigger] p[k])
        };
    lemma_path_stays_in_closed_set(g, p, s, avoid);
}

/// The set of modules whose bit `index` is set in `bits`.
pub open spec fn marked(bits: Seq<BitSet>, index: int) -> Set<int> {
    Set::new(|m: int| 0 <= m < bits.len() && bits[m]@[index])
}

/// How many modules have bit `index` set; the termination measure of the
/// reachability traversal.
pub open spec fn count_marked(bits: Seq<BitSet>, index: int) -> int
    decreases bits.len(),
{
    if bits.len() == 0 {
        0
    } else {
        count_marked(bits.drop_last(), index) + if bits.last()@[index] {
            1int
        } else {
            0int
        }
    }
}

pub proof fn lemma_count_marked_bounds(bits: Seq<BitSet>, index: int)
    ensures
        0 <= count_marked(bits, index) <= bits.len(),
    decreases bits.len(),
{
    if bits.len() > 0 {
        lemma_count_marked_bounds(bits.drop_last(), index);
    }
}

/// Setting one unset bit raises the count by exactly one.
pub proof fn lemma_count_marked_set(bits1: Seq<BitSet>, bits2: Seq<BitSet>, index: int, m: int)
    requires
        bits1.len() == bits2.len(),
        0 <= m < bits1.len(),
        !bits1[m]@[index],
        bits2[m]@[index],
        forall|i: int| 0 <= i < bits1.len() && i != m ==> bits2[i]@[index] == bits1[i]@[index],
    ensures
        count_marked(bits2, index) == count_marked(bits1, index) + 1,
    decreases bits1.len(),
{
    if m == bits1.len() - 1 {
        lemma_count_marked_same(bits1.drop_last(), bits2.drop_last(), index);
    } else {
        lemma_count_marked_set(bits1.drop_last(), bits2.drop_last(), index, m);
    }
}

/// Bits equal at `index` everywhere give equal counts.
pub proof fn lemma_count_marked_same(bits1: Seq<BitSet>, bits2: Seq<BitSet>, index: int)
    requires
        bits1.len() == bits2.len(),
        forall|i: int| 0 <= i < bits1.len() ==> bits2[i]@[index] == bits1[i]@[index],
    ensures
        count_marked(bits2, index) == count_marked(bits1, index),
    decreases bits1.len(),
{
    if bits1.len() > 0 {
        lemma_count_marked_same(bits1.drop_last(), bits2.drop_last(), index);
    }
}

} // verus!
