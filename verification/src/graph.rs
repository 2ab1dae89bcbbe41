//! The resolved module graph consumed by the chunking core.
//!
//! Modules, their import records, the ordered entry points, the designated
//! runtime module and the shared symbol table are produced upstream; this
//! core reads them (and, during deconfliction and export wiring, renames
//! symbol-table entries in place).

use vstd::prelude::*;

verus! {

/// The kind of an import edge. Reachability propagates across static edges
/// only: a dynamically imported module is registered upstream as its own
/// entry point.
pub enum ImportKind {
    Static,
    Dynamic,
}

/// One import edge of a module.
pub struct ImportRecord {
    pub kind: ImportKind,
    /// Index of the imported module in `Graph::modules`.
    pub resolved_module: usize,
}

/// One entry of the shared symbol table.
pub struct Symbol {
    /// The symbol's rendered name; rewritten during deconfliction.
    pub name: String,
}

/// One exported binding of a module: an exported name bound to a
/// symbol-table entry.
pub struct ExportRecord {
    pub exported_name: String,
    /// Index into `Graph::symbols`; may dangle if upstream stages mis-wired
    /// the module, in which case export wiring reports an error.
    pub symbol: usize,
}

/// A module of the resolved graph. Immutable from this core's perspective.
pub struct Module {
    /// Position in a total order consistent with a topological sort of the
    /// static dependencies; sequences module code within a chunk.
    pub exec_order: u64,
    pub import_records: Vec<ImportRecord>,
    /// The symbol-table entries owned by this module: the symbols visible in
    /// whatever chunk the module joins.
    pub symbols: Vec<usize>,
    pub exports: Vec<ExportRecord>,
    /// The module's rendered code, produced upstream. Empty content marks a
    /// module that upstream stages failed to render.
    pub content: String,
}

/// One declared entry point: a name and the index of its root module.
pub struct Entry {
    pub name: String,
    pub module: usize,
}

/// The resolved dependency graph.
pub struct Graph {
    pub modules: Vec<Module>,
    pub entries: Vec<Entry>,
    /// The synthetic bootstrap module: present in `modules` but excluded
    /// from chunk clustering.
    pub runtime: usize,
    pub symbols: Vec<Symbol>,
}

impl Graph {
    /// Well-formedness: indices in range, entry modules pairwise distinct
    /// and none of them the runtime module, and each symbol-table entry
    /// owned by at most one module.
    pub open spec fn wf(&self) -> bool {
        &&& forall|m: int, k: int|
            0 <= m < self.modules@.len() && 0 <= k < self.modules@[m].import_records@.len()
                ==> (#[trigger] self.modules@[m].import_records@[k]).resolved_module
                < self.modules@.len()
        &&& forall|i: int|
            0 <= i < self.entries@.len() ==> (#[trigger] self.entries@[i]).module
                < self.modules@.len()
        &&& forall|i: int, j: int|
            0 <= i < self.entries@.len() && 0 <= j < self.entries@.len() && i != j
                ==> (#[trigger] self.entries@[i]).module != (#[trigger] self.entries@[j]).module
        &&& forall|i: int|
            0 <= i < self.entries@.len() ==> (#[trigger] self.entries@[i]).module != self.runtime
        &&& self.runtime < self.modules@.len()
        &&& forall|m1: int, k1: int, m2: int, k2: int|
            {
                &&& 0 <= m1 < self.modules@.len()
                &&& 0 <= k1 < self.modules@[m1].symbols@.len()
                &&& 0 <= m2 < self.modules@.len()
                &&& 0 <= k2 < self.modules@[m2].symbols@.len()
                &&& (m1 != m2 || k1 != k2)
            } ==> #[trigger] self.modules@[m1].symbols@[k1]
                != #[trigger] self.modules@[m2].symbols@[k2]
    }

    /// Decides well-formedness at run time, so that unverified callers can
    /// guard the preconditions of the bundling pass.
    #[verifier::loop_isolation(false)]
    #[verifier::rlimit(60)]
    pub fn check_wf(&self) -> (r: bool)
        ensures
            r == self.wf(),
    {
        let n = self.modules.len();
        if self.runtime >= n {
            return false;
        }
        // entries: in range, never the runtime module, pairwise distinct
        let ne = self.entries.len();
        let mut i: usize = 0;
        while i < ne
            invariant
                i <= ne,
                forall|a: int| 0 <= a < i ==> (#[trigger] self.entries@[a]).module < n,
                forall|a: int| 0 <= a < i ==> (#[trigger] self.entries@[a]).module != self.runtime,
                forall|a: int, b: int|
                    0 <= a < b < i ==> (#[trigger] self.entries@[a]).module != (
                    #[trigger] self.entries@[b]).module,
            decreases ne - i,
        {
            let em = self.entries[i].module;
            if em >= n || em == self.runtime {
                return false;
            }
            let mut b: usize = 0;
            while b < i
                invariant
                    b <= i,
                    forall|a: int|
                        0 <= a < b ==> (#[trigger] self.entries@[a]).module != self.entries@[i as int].module,
                decreases i - b,
            {
                if self.entries[b].module == em {
                    return false;
                }
                b += 1;
            }
            i += 1;
        }
        // import records: resolved targets in range
        let mut m: usize = 0;
        while m < n
            invariant
                m <= n,
                forall|a: int, k: int|
                    0 <= a < m && 0 <= k < self.modules@[a].import_records@.len() ==> (
                    #[trigger] self.modules@[a].import_records@[k]).resolved_module < n,
            decreases n - m,
        {
            let nk = self.modules[m].import_records.len();
            let mut k: usize = 0;
            while k < nk
                invariant
                    k <= nk,
                    forall|b: int|
                        0 <= b < k ==> (#[trigger] self.modules@[m as int].import_records@[b]).resolved_module
                            < n,
                decreases nk - k,
            {
                if self.modules[m].import_records[k].resolved_module >= n {
                    return false;
                }
                k += 1;
            }
            m += 1;
        }
        // symbol ownership: no symbol-table entry owned by two positions
        let mut seen: Vec<usize> = Vec::new();
        let ghost mut owner: Map<usize, (int, int)> = Map::empty();
        let mut m: usize = 0;
        while m < n
            invariant
                m <= n,
                forall|t: int|
                    0 <= t < seen@.len() ==> {
                        let p = owner[#[trigger] seen@[t]];
                        &&& 0 <= p.0 < m
                        &&& 0 <= p.1 < self.modules@[p.0].symbols@.len()
                        &&& self.modules@[p.0].symbols@[p.1] == seen@[t]
                    },
                forall|a: int, b: int|
                    0 <= a < m && 0 <= b < self.modules@[a].symbols@.len() ==> seen@.contains(
                        #[trigger] self.modules@[a].symbols@[b],
                    ),
                forall|m1: int, k1: int, m2: int, k2: int|
                    {
                        &&& 0 <= m1 < m
                        &&& 0 <= k1 < self.modules@[m1].symbols@.len()
                        &&& 0 <= m2 < m
                        &&& 0 <= k2 < self.modules@[m2].symbols@.len()
                        &&& (m1 != m2 || k1 != k2)
                    } ==> #[trigger] self.modules@[m1].symbols@[k1] != #[trigger] self.modules@[m2].symbols@[k2],
            decreases n - m,
        {
            let nk = self.modules[m].symbols.len();
            let mut k: usize = 0;
            while k < nk
                invariant
                    k <= nk,
                    forall|t: int|
                        0 <= t < seen@.len() ==> {
                            let p = owner[#[trigger] seen@[t]];
                            &&& (0 <= p.0 < m || (p.0 == m && 0 <= p.1 < k))
                            &&& 0 <= p.1 < self.modules@[p.0].symbols@.len()
                            &&& self.modules@[p.0].symbols@[p.1] == seen@[t]
                        },
                    forall|a: int, b: int|
                        (0 <= a < m || (a == m && 0 <= b)) && (a < m || b < k) && 0 <= b
                            < self.modules@[a].symbols@.len() && 0 <= a ==> seen@.contains(
                            #[trigger] self.modules@[a].symbols@[b],
                        ),
                    forall|m1: int, k1: int, m2: int, k2: int|
                        {
                            &&& (0 <= m1 < m || (m1 == m && 0 <= k1 < k))
                            &&& 0 <= k1 < self.modules@[m1].symbols@.len()
                            &&& (0 <= m2 < m || (m2 == m && 0 <= k2 < k))
                            &&& 0 <= k2 < self.modules@[m2].symbols@.len()
                            &&& 0 <= m1 && 0 <= m2 && 0 <= k1 && 0 <= k2
                            &&& (m1 != m2 || k1 != k2)
                        } ==> #[trigger] self.modules@[m1].symbols@[k1] != #[trigger] self.modules@[m2].symbols@[k2],
                decreases nk - k,
            {
                let s = self.modules[m].symbols[k];
                if contains_usize(&seen, s) {
                    proof {
                        let t = choose|t: int| 0 <= t < seen@.len() && seen@[t] == s;
                        let p = owner[s];
                        assert(self.modules@[p.0].symbols@[p.1] == self.modules@[m as int].symbols@[k as int]);
                        assert(p.0 != m as int || p.1 != k as int);
                        if self.wf() {
                            assert(false);
                        }
                    }
                    return false;
                }
                let ghost seen0 = seen@;
                seen.push(s);
                proof {
                    owner = owner.insert(s, (m as int, k as int));
                    assert(seen@.last() == s);
                    assert(seen@.contains(s));
                    assert forall|a: int, b: int|
                        (0 <= a < m || (a == m && 0 <= b)) && (a < m || b < k + 1) && 0 <= b
                            < self.modules@[a].symbols@.len() && 0 <= a implies seen@.contains(
                        #[trigger] self.modules@[a].symbols@[b],
                    ) by {
                        if a < m || b < k {
                            assert(seen0.contains(self.modules@[a].symbols@[b]));
                            let t = choose|t: int|
                                0 <= t < seen0.len() && seen0[t] == self.modules@[a].symbols@[b];
                            assert(seen@[t] == self.modules@[a].symbols@[b]);
                        }
                    }
                }
                k += 1;
            }
            m += 1;
        }
        proof {
            assert(self.wf());
        }
        true
    }
}

/// Linear membership scan over plain symbol ids.
fn contains_usize(v: &Vec<usize>, s: usize) -> (r: bool)
    ensures
        r == v@.contains(s),
{
    let mut j: usize = 0;
    while j < v.len()
        invariant
            j <= v@.len(),
            forall|t: int| 0 <= t < j ==> (#[trigger] v@[t]) != s,
        decreases v@.len() - j,
    {
        if v[j] == s {
            proof {
                assert(v@[j as int] == s);
            }
            return true;
        }
        j += 1;
    }
    proof {
        if v@.contains(s) {
            let t = choose|t: int| 0 <= t < v@.len() && v@[t] == s;
            assert(false);
        }
    }
    false
}

} // verus!
