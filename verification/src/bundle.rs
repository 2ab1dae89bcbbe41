//! The bundling pass: reachability marking, chunk partitioning and the
//! post-partition pipeline.

use vstd::prelude::*;
use crate::asset::Asset;
use crate::bitset::{singleton_bits, BitSet};
use crate::chunk::{
    chunk_content, chunk_syms, deconflicted, lemma_chunk_syms_contains, lemma_chunk_syms_disjoint,
    lemma_chunk_syms_elem, lemma_chunk_syms_no_dup, Chunk,
};
use crate::errors::BundleError;
use crate::graph::{Graph, Module, Symbol};
use crate::numeral::usize_to_string;
use crate::options::OutputOptions;
use crate::template::{has_marker, is_rendered, template_is_valid};
use crate::partition::{
    chunk_sigs_distinct, covered, entry_chunks_ok, index_ok, members_ok, valid_partition,
};
use crate::reach::{
    count_marked, lemma_closed_set_contains_reachable, lemma_count_marked_bounds,
    lemma_count_marked_set, lemma_reaches_self, lemma_reaches_step, marked, reaches,
    reaches_avoiding, sig_of, static_edge,
};

verus! {

/// Finds the chunk keyed by exactly `bits`: membership in a chunk is
/// decided by signature equality alone.
fn find_chunk(chunks: &Vec<Chunk>, bits: &BitSet) -> (r: Option<usize>)
    ensures
        match r {
            Some(j) => (j as int) < chunks@.len() && chunks@[j as int].bits@ == bits@,
            None => forall|t: int| 0 <= t < chunks@.len() ==> (#[trigger] chunks@[t]).bits@ != bits@,
        },
{
    let mut j: usize = 0;
    while j < chunks.len()
        invariant
            j <= chunks@.len(),
            forall|t: int| 0 <= t < j ==> (#[trigger] chunks@[t]).bits@ != bits@,
        decreases chunks@.len() - j,
    {
        if chunks[j].bits.same_bits(bits) {
            return Some(j);
        }
        j += 1;
    }
    None
}

/// Stable insertion sort of a member list by execution order.
#[verifier::loop_isolation(false)]
fn sort_members(v: &mut Vec<usize>, modules: &Vec<Module>)
    requires
        forall|k: int| 0 <= k < old(v)@.len() ==> (#[trigger] old(v)@[k]) < modules@.len(),
    ensures
        final(v)@.to_multiset() == old(v)@.to_multiset(),
        final(v)@.len() == old(v)@.len(),
        forall|k1: int, k2: int|
            0 <= k1 <= k2 < final(v)@.len() ==> modules@[(#[trigger] final(v)@[k1]) as int].exec_order
                <= modules@[(#[trigger] final(v)@[k2]) as int].exec_order,
        forall|x: usize| final(v)@.contains(x) == old(v)@.contains(x),
        old(v)@.no_duplicates() ==> final(v)@.no_duplicates(),
{
    let ghost orig = v@;
    let mut i: usize = 1;
    while i < v.len()
        invariant
            1 <= i,
            v@.len() == orig.len(),
            v@.to_multiset() == orig.to_multiset(),
            forall|k: int| 0 <= k < v@.len() ==> (#[trigger] v@[k]) < modules@.len(),
            forall|k1: int, k2: int|
                0 <= k1 <= k2 < i && k2 < v@.len() ==> modules@[(#[trigger] v@[k1]) as int].exec_order
                    <= modules@[(#[trigger] v@[k2]) as int].exec_order,
        decreases v@.len() - i,
    {
        let x = v[i];
        let mut p: usize = i;
        while p > 0 && modules[v[p - 1]].exec_order > modules[x].exec_order
            invariant
                p <= i,
                forall|k: int|
                    p <= k < i ==> modules@[(#[trigger] v@[k]) as int].exec_order > modules@[x as int].exec_order,
            decreases p,
        {
            p -= 1;
        }
        let ghost before = v@;
        v.remove(i);
        v.insert(p, x);
        proof {
            broadcast use vstd::seq_lib::group_to_multiset_ensures;
            broadcast use vstd::multiset::group_multiset_axioms;

            vstd::seq_lib::to_multiset_insert(before.remove(i as int), p as int, x);
            assert(v@.to_multiset() =~= before.to_multiset());
            assert forall|k1: int, k2: int|
                0 <= k1 <= k2 < i + 1 && k2 < v@.len() implies modules@[(
            #[trigger] v@[k1]) as int].exec_order <= modules@[(#[trigger] v@[k2]) as int].exec_order by {
                assert(forall|k: int| 0 <= k < p ==> #[trigger] v@[k] == before[k]);
                assert(v@[p as int] == x);
                assert(forall|k: int| p < k <= i ==> #[trigger] v@[k] == before[k - 1]);
                if p > 0 {
                    assert(modules@[before[p - 1] as int].exec_order <= modules@[x as int].exec_order);
                }
            }
        }
        i += 1;
    }
    proof {
        broadcast use vstd::seq_lib::group_to_multiset_ensures;
        broadcast use vstd::multiset::group_multiset_axioms;

        assert forall|x: usize| v@.contains(x) == orig.contains(x) by {
            assert(v@.contains(x) <==> v@.to_multiset().count(x) > 0);
            assert(orig.contains(x) <==> orig.to_multiset().count(x) > 0);
        }
        if orig.no_duplicates() {
            orig.lemma_multiset_has_no_duplicates();
            v@.lemma_multiset_has_no_duplicates_conv();
        }
    }
}

/// Bit `j` of module `m`'s signature in the per-module signature array.
pub open spec fn bit(bits: Seq<BitSet>, m: int, j: int) -> bool {
    bits[m]@[j]
}

/// A sequence that extends `pre` element-wise keeps everything `pre` holds.
proof fn lemma_contains_preserved(pre: Seq<usize>, post: Seq<usize>, x: usize)
    requires
        pre.contains(x),
        post.len() >= pre.len(),
        forall|t: int| 0 <= t < pre.len() ==> post[t] == #[trigger] pre[t],
    ensures
        post.contains(x),
{
    let t = choose|t: int| 0 <= t < pre.len() && pre[t] == x;
    assert(post[t] == x);
}

/// Dropping the last element keeps every other element.
proof fn lemma_contains_drop_last(s: Seq<usize>, x: usize)
    requires
        s.len() > 0,
        s.contains(x),
        x != s.last(),
    ensures
        s.drop_last().contains(x),
{
    let t = choose|t: int| 0 <= t < s.len() && s[t] == x;
    assert(t < s.len() - 1);
    assert(s.drop_last()[t] == x);
}

/// Some non-runtime module references a symbol-table entry outside the
/// table: deconfliction must fail.
pub open spec fn bad_symbol(g: &Graph) -> bool {
    exists|m: int, k: int|
        0 <= m < g.modules@.len() && m != g.runtime && 0 <= k < g.modules@[m].symbols@.len() && (
        #[trigger] g.modules@[m].symbols@[k]) >= g.symbols@.len()
}

/// Some entry module exports a symbol that the table cannot resolve:
/// export wiring must fail.
pub open spec fn bad_export(g: &Graph) -> bool {
    exists|i: int, k: int|
        0 <= i < g.entries@.len() && 0 <= k < g.modules@[g.entries@[i].module as int].exports@.len()
            && (#[trigger] g.modules@[g.entries@[i].module as int].exports@[k]).symbol
            >= g.symbols@.len()
}

/// Some non-runtime module carries empty content: rendering must fail.
pub open spec fn bad_content(g: &Graph) -> bool {
    exists|m: int|
        0 <= m < g.modules@.len() && m != g.runtime && (#[trigger] g.modules@[m]).content@.len()
            == 0
}

/// The returned assets line up with the partition: one asset per chunk, in
/// chunk order, its file name rendered from the template and the chunk's
/// name, its content the chunk's rendered member contents.
pub open spec fn assets_match(
    g: &Graph,
    opts: &OutputOptions,
    chunks: Seq<Chunk>,
    assets: Seq<Asset>,
) -> bool {
    &&& assets.len() == chunks.len()
    &&& forall|j: int|
        0 <= j < chunks.len() ==> {
            let c = #[trigger] chunks[j];
            &&& c.name is Some
            &&& is_rendered(opts.entry_file_names@, c.name->Some_0@, assets[j].file_name@)
            &&& assets[j].content@ == chunk_content(g.modules@, c.modules@)
        }
}

/// Every chunk is deconflicted against the final symbol table: within each
/// chunk no two distinct visible symbols share a rendered name.
pub open spec fn all_deconflicted(ms: Seq<Module>, table: Seq<Symbol>, chunks: Seq<Chunk>) -> bool {
    forall|j: int|
        0 <= j < chunks.len() ==> deconflicted(ms, table, (#[trigger] chunks[j]).modules@)
}

/// One bundling pass over a resolved graph.
pub struct Bundle {
    pub graph: Graph,
    pub output_options: OutputOptions,
}

impl Bundle {
    pub fn new(graph: Graph, output_options: OutputOptions) -> (r: Self)
        ensures
            r.graph == graph,
            r.output_options == output_options,
    {
        Self { graph, output_options }
    }

    /// Marks bit `index` in the signature of every module transitively
    /// statically imported from `module_id`, walking an explicit stack.
    /// Dynamic-import edges are never followed. A module whose bit is
    /// already set is not expanded again, which both terminates cyclic
    /// graphs and makes the traversal idempotent: a module becomes marked
    /// iff it was marked before, or is reachable from `module_id` along
    /// static edges that avoid every previously marked module.
    #[verifier::loop_isolation(false)]
    pub fn mark_modules_entry_bit(
        &self,
        module_id: usize,
        index: usize,
        modules_entry_bit: &mut Vec<BitSet>,
    )
        requires
            self.graph.wf(),
            module_id < self.graph.modules@.len(),
            old(modules_entry_bit)@.len() == self.graph.modules@.len(),
            forall|m: int|
                0 <= m < old(modules_entry_bit)@.len() ==> index < (#[trigger] old(modules_entry_bit)@[m])@.len(),
        ensures
            final(modules_entry_bit)@.len() == old(modules_entry_bit)@.len(),
            forall|m: int|
                0 <= m < old(modules_entry_bit)@.len() ==> (#[trigger] final(modules_entry_bit)@[m])@.len() == old(modules_entry_bit)@[m]@.len(),
            forall|m: int, j: int|
                0 <= m < old(modules_entry_bit)@.len() && 0 <= j < old(modules_entry_bit)@[m]@.len()
                    && j != index ==> bit(final(modules_entry_bit)@, m, j) == bit(old(modules_entry_bit)@, m, j),
            forall|m: int|
                0 <= m < old(modules_entry_bit)@.len() ==> (bit(final(modules_entry_bit)@, m, index as int) <==> (bit(old(modules_entry_bit)@, m, index as int) || reaches_avoiding(&self.graph, module_id as int, m, marked(old(modules_entry_bit)@, index as int)))),
    {
        let ghost old_bits = modules_entry_bit@;
        let ghost avoid = marked(old_bits, index as int);
        let ghost n = old_bits.len() as int;
        let mut stack: Vec<usize> = Vec::new();
        stack.push(module_id);
        proof {
            if !avoid.contains(module_id as int) {
                lemma_reaches_self(&self.graph, module_id as int, avoid);
            }
            assert(stack@.contains(module_id)) by {
                assert(stack@[0] == module_id);
            }
        }
        while stack.len() > 0
            invariant
                modules_entry_bit@.len() == n,
                forall|m: int|
                    0 <= m < n ==> (#[trigger] modules_entry_bit@[m])@.len()
                        == old_bits[m]@.len(),
                forall|m: int, j: int|
                    0 <= m < n && 0 <= j < old_bits[m]@.len() && j != index ==> bit(
                        modules_entry_bit@,
                        m,
                        j,
                    ) == bit(old_bits, m, j),
                forall|m: int|
                    0 <= m < n && bit(old_bits, m, index as int) ==> bit(
                        modules_entry_bit@,
                        m,
                        index as int,
                    ),
                forall|k: int| 0 <= k < stack@.len() ==> (#[trigger] stack@[k]) < n,
                // soundness: a newly set bit certifies reachability
                forall|m: int|
                    0 <= m < n && bit(modules_entry_bit@, m, index as int) && !bit(
                        old_bits,
                        m,
                        index as int,
                    ) ==> reaches_avoiding(&self.graph, module_id as int, m, avoid),
                // every stack element is already marked or certified reachable
                forall|k: int|
                    0 <= k < stack@.len() ==> (bit(
                        modules_entry_bit@,
                        #[trigger] stack@[k] as int,
                        index as int,
                    ) || reaches_avoiding(&self.graph, module_id as int, stack@[k] as int, avoid)),
                // closure: a newly marked module's static successors are
                // marked or still on the stack
                forall|m: int, b: int|
                    0 <= m < n && bit(modules_entry_bit@, m, index as int) && !bit(
                        old_bits,
                        m,
                        index as int,
                    ) && static_edge(&self.graph, m, b) ==> (bit(
                        modules_entry_bit@,
                        b,
                        index as int,
                    ) || stack@.contains(b as usize)),
                // the start module is marked, was marked before, or waits on
                // the stack
                bit(modules_entry_bit@, module_id as int, index as int) || bit(
                    old_bits,
                    module_id as int,
                    index as int,
                ) || stack@.contains(module_id),
            decreases n - count_marked(modules_entry_bit@, index as int), stack@.len(),
        {
            proof {
                lemma_count_marked_bounds(modules_entry_bit@, index as int);
            }
            let ghost stack0 = stack@;
            let m = stack.pop().unwrap();
            proof {
                assert(m == stack0.last());
                assert(stack@ == stack0.drop_last());
                assert(forall|t: int| 0 <= t < stack@.len() ==> stack@[t] == #[trigger] stack0[t]);
            }
            if !modules_entry_bit[m].has_bit(index) {
                let ghost pre = modules_entry_bit@;
                proof {
                    // m is not in avoid and is reachable
                    assert(!bit(old_bits, m as int, index as int));
                    assert(reaches_avoiding(&self.graph, module_id as int, m as int, avoid));
                }
                modules_entry_bit[m].set_bit(index);
                proof {
                    lemma_count_marked_set(pre, modules_entry_bit@, index as int, m as int);
                    lemma_count_marked_bounds(pre, index as int);
                    lemma_count_marked_bounds(modules_entry_bit@, index as int);
                }
                let ghost mid_bits = modules_entry_bit@;
                let ghost stack_snap = stack@;
                let imports = &self.graph.modules[m].import_records;
                let mut k: usize = 0;
                while k < imports.len()
                    invariant
                        k <= imports@.len(),
                        modules_entry_bit@ == mid_bits,
                        stack@.len() >= stack_snap.len(),
                        forall|t: int|
                            0 <= t < stack_snap.len() ==> stack@[t] == #[trigger] stack_snap[t],
                        forall|t: int| 0 <= t < stack@.len() ==> (#[trigger] stack@[t]) < n,
                        forall|t: int|
                            0 <= t < stack@.len() ==> (bit(
                                modules_entry_bit@,
                                #[trigger] stack@[t] as int,
                                index as int,
                            ) || reaches_avoiding(
                                &self.graph,
                                module_id as int,
                                stack@[t] as int,
                                avoid,
                            )),
                        // successors of m considered so far are marked or pushed
                        forall|b: int|
                            (exists|r: int|
                                0 <= r < k && (#[trigger] self.graph.modules@[
                                    m as int
                                ].import_records@[r]).kind is Static && self.graph.modules@[
                                    m as int
                                ].import_records@[r].resolved_module == b) ==> (bit(
                                modules_entry_bit@,
                                b,
                                index as int,
                            ) || stack@.contains(b as usize)),
                    decreases imports@.len() - k,
                {
                    let ghost stack_pre = stack@;
                    let rec = &imports[k];
                    match rec.kind {
                        crate::graph::ImportKind::Static => {
                            let b = rec.resolved_module;
                            proof {
                                assert(static_edge(&self.graph, m as int, b as int));
                                if !bit(old_bits, b as int, index as int) {
                                    assert(!avoid.contains(b as int));
                                    lemma_reaches_step(
                                        &self.graph,
                                        module_id as int,
                                        m as int,
                                        b as int,
                                        avoid,
                                    );
                                } else {
                                    assert(bit(pre, b as int, index as int));
                                    assert(bit(modules_entry_bit@, b as int, index as int));
                                }
                            }
                            stack.push(b);
                            proof {
                                assert(stack@.contains(b)) by {
                                    assert(stack@[stack@.len() - 1] == b);
                                }
                            }
                        },
                        crate::graph::ImportKind::Dynamic => {},
                    }
                    proof {
                        assert forall|b2: int|
                            (exists|r: int|
                                0 <= r < k + 1 && (#[trigger] self.graph.modules@[
                                    m as int
                                ].import_records@[r]).kind is Static && self.graph.modules@[
                                    m as int
                                ].import_records@[r].resolved_module == b2) implies (bit(
                            modules_entry_bit@,
                            b2,
                            index as int,
                        ) || stack@.contains(b2 as usize)) by {
                            let r = choose|r: int|
                                0 <= r < k + 1 && (#[trigger] self.graph.modules@[
                                    m as int
                                ].import_records@[r]).kind is Static && self.graph.modules@[
                                    m as int
                                ].import_records@[r].resolved_module == b2;
                            if r < k {
                                if !bit(modules_entry_bit@, b2, index as int) {
                                    lemma_contains_preserved(stack_pre, stack@, b2 as usize);
                                }
                            }
                        }
                    }
                    k += 1;
                }
                proof {
                    // every static successor of m is now marked or on the stack
                    assert forall|b: int| static_edge(&self.graph, m as int, b) implies (bit(
                        modules_entry_bit@,
                        b,
                        index as int,
                    ) || stack@.contains(b as usize)) by {
                        let r = choose|r: int|
                            0 <= r < self.graph.modules@[m as int].import_records@.len() && (
                            #[trigger] self.graph.modules@[m as int].import_records@[r]).kind
                                is Static && self.graph.modules@[
                                m as int
                            ].import_records@[r].resolved_module == b;
                        assert(0 <= r < k);
                    }
                    // restore the closure invariant
                    assert forall|m2: int, b2: int|
                        0 <= m2 < n && bit(modules_entry_bit@, m2, index as int) && !bit(
                            old_bits,
                            m2,
                            index as int,
                        ) && static_edge(&self.graph, m2, b2) implies (bit(
                        modules_entry_bit@,
                        b2,
                        index as int,
                    ) || stack@.contains(b2 as usize)) by {
                        if m2 != m as int {
                            assert(bit(pre, m2, index as int));
                            if !bit(modules_entry_bit@, b2, index as int) {
                                assert(!bit(pre, b2, index as int));
                                assert(stack0.contains(b2 as usize));
                                assert(b2 != m as int);
                                lemma_contains_drop_last(stack0, b2 as usize);
                                lemma_contains_preserved(stack_snap, stack@, b2 as usize);
                            }
                        }
                    }
                    // restore the start-module invariant
                    if !bit(modules_entry_bit@, module_id as int, index as int) && !bit(
                        old_bits,
                        module_id as int,
                        index as int,
                    ) {
                        assert(stack0.contains(module_id));
                        assert(module_id != m);
                        lemma_contains_drop_last(stack0, module_id);
                        lemma_contains_preserved(stack_snap, stack@, module_id);
                    }
                }
            } else {
                proof {
                    assert(bit(modules_entry_bit@, m as int, index as int));
                    // restore the closure invariant
                    assert forall|m2: int, b2: int|
                        0 <= m2 < n && bit(modules_entry_bit@, m2, index as int) && !bit(
                            old_bits,
                            m2,
                            index as int,
                        ) && static_edge(&self.graph, m2, b2) implies (bit(
                        modules_entry_bit@,
                        b2,
                        index as int,
                    ) || stack@.contains(b2 as usize)) by {
                        if !bit(modules_entry_bit@, b2, index as int) {
                            assert(stack0.contains(b2 as usize));
                            assert(b2 != m as int);
                            lemma_contains_drop_last(stack0, b2 as usize);
                        }
                    }
                    // restore the start-module invariant
                    if !bit(modules_entry_bit@, module_id as int, index as int) && !bit(
                        old_bits,
                        module_id as int,
                        index as int,
                    ) {
                        assert(stack0.contains(module_id));
                        assert(module_id != m);
                        lemma_contains_drop_last(stack0, module_id);
                    }
                }
            }
        }
        proof {
            let g = &self.graph;
            let s_set = Set::new(|m: int| 0 <= m < n && bit(modules_entry_bit@, m, index as int));
            assert forall|m: int|
                0 <= m < n && reaches_avoiding(g, module_id as int, m, avoid) implies bit(
                modules_entry_bit@,
                m,
                index as int,
            ) by {
                assert(!avoid.contains(module_id as int));
                assert(s_set.contains(module_id as int));
                assert forall|a: int, b: int|
                    s_set.contains(a) && !avoid.contains(a) && static_edge(g, a, b)
                        && !avoid.contains(b) implies s_set.contains(b) by {
                    assert(0 <= b < n);
                    assert(!bit(old_bits, a, index as int));
                }
                lemma_closed_set_contains_reachable(g, module_id as int, m, s_set, avoid);
            }
        }
    }

    /// Partitions the graph into chunks: seeds one dedicated chunk per
    /// declared entry point, marks reachability, clusters every other
    /// non-runtime module into the chunk keyed by its signature (creating a
    /// counter-named chunk for a signature seen first), sorts each member
    /// list by execution order, and builds the total module-to-chunk index.
    #[verifier::loop_isolation(false)]
    #[verifier::rlimit(60)]
    pub fn generate_chunks(&self) -> (r: (Vec<Chunk>, Vec<Option<usize>>))
        requires
            self.graph.wf(),
        ensures
            valid_partition(&self.graph, r.0@, r.1@),
    {
        let g = &self.graph;
        let n_modules = g.modules.len();
        let n_entries = g.entries.len();

        // reachability marking, one entry at a time, over an all-zero array
        let mut module_to_bits: Vec<BitSet> = Vec::new();
        while module_to_bits.len() < n_modules
            invariant
                module_to_bits@.len() <= n_modules,
                forall|m: int|
                    0 <= m < module_to_bits@.len() ==> (#[trigger] module_to_bits@[m])@
                        == crate::bitset::zero_bits(n_entries as nat),
            decreases n_modules - module_to_bits@.len(),
        {
            module_to_bits.push(BitSet::new(n_entries));
        }
        let mut i: usize = 0;
        while i < n_entries
            invariant
                i <= n_entries,
                module_to_bits@.len() == n_modules,
                forall|m: int|
                    0 <= m < n_modules ==> (#[trigger] module_to_bits@[m])@.len() == n_entries,
                forall|m: int, j: int|
                    0 <= m < n_modules && 0 <= j < i ==> (bit(module_to_bits@, m, j) <==> reaches(
                        g,
                        g.entries@[j].module as int,
                        m,
                    )),
                forall|m: int, j: int|
                    0 <= m < n_modules && i <= j < n_entries ==> !bit(module_to_bits@, m, j),
            decreases n_entries - i,
        {
            let entry_mod = g.entries[i].module;
            let ghost pre = module_to_bits@;
            proof {
                assert forall|mm: int| !marked(pre, i as int).contains(mm) by {
                    if 0 <= mm < pre.len() {
                        assert(!bit(pre, mm, i as int));
                    }
                }
                assert(marked(pre, i as int) =~= Set::<int>::empty());
            }
            self.mark_modules_entry_bit(entry_mod, i, &mut module_to_bits);
            i += 1;
        }
        proof {
            assert forall|m: int| 0 <= m < n_modules implies (#[trigger] module_to_bits@[m])@
                == sig_of(g, m) by {
                assert forall|j: int| 0 <= j < n_entries implies module_to_bits@[m]@[j] == sig_of(
                    g,
                    m,
                )[j] by {
                    assert(bit(module_to_bits@, m, j) <==> reaches(
                        g,
                        g.entries@[j].module as int,
                        m,
                    ));
                }
                assert(module_to_bits@[m]@ =~= sig_of(g, m));
            }
        }

        // seed one chunk per entry point, in declaration order
        let mut chunks: Vec<Chunk> = Vec::new();
        let mut i: usize = 0;
        while i < n_entries
            invariant
                i <= n_entries,
                chunks@.len() == i,
                forall|j: int|
                    0 <= j < i ==> {
                        let c = #[trigger] chunks@[j];
                        &&& c.entry_module == Some(g.entries@[j].module)
                        &&& c.bits@ == singleton_bits(n_entries as nat, j)
                        &&& (c.name matches Some(nm) && nm@ == g.entries@[j].name@)
                        &&& c.modules@.len() == 0
                    },
            decreases n_entries - i,
        {
            let name = g.entries[i].name.clone();
            let module_id = g.entries[i].module;
            let mut entry_bits = BitSet::new(n_entries);
            entry_bits.set_bit(i);
            proof {
                assert(entry_bits@ =~= singleton_bits(n_entries as nat, i as int));
            }
            let c = Chunk::new(Some(name), Some(module_id), entry_bits, Vec::new());
            chunks.push(c);
            i += 1;
        }
        proof {
            assert(entry_chunks_ok(g, chunks@));
            assert(chunk_sigs_distinct(chunks@)) by {
                assert forall|j1: int, j2: int| 0 <= j1 < j2 < chunks@.len() implies (
                #[trigger] chunks@[j1]).bits@ != (#[trigger] chunks@[j2]).bits@ by {
                    assert(chunks@[j1].bits@[j1] == true);
                    assert(chunks@[j2].bits@[j1] == false);
                }
            }
            assert(members_ok(g, chunks@));
        }

        // cluster every non-runtime module by signature, in canonical order
        let mut m: usize = 0;
        while m < n_modules
            invariant
                m <= n_modules,
                entry_chunks_ok(g, chunks@),
                chunk_sigs_distinct(chunks@),
                members_ok(g, chunks@),
                forall|j: int, k: int|
                    0 <= j < chunks@.len() && 0 <= k < chunks@[j].modules@.len() ==> (
                    #[trigger] chunks@[j].modules@[k]) < m,
                forall|m2: int|
                    0 <= m2 < m && m2 != g.runtime ==> #[trigger] covered(chunks@, m2),
            decreases n_modules - m,
        {
            if m != self.graph.runtime {
                let ghost pre_chunks = chunks@;
                let found = find_chunk(&chunks, &module_to_bits[m]);
                match found {
                    Some(j) => {
                        chunks[j].modules.push(m);
                        proof {
                            assert(chunks@[j as int].bits@ == sig_of(g, m as int));
                            assert forall|m2: int|
                                0 <= m2 < m + 1 && m2 != g.runtime implies #[trigger] covered(
                                chunks@,
                                m2,
                            ) by {
                                if m2 == m {
                                    assert(chunks@[j as int].modules@.last() == m as usize);
                                    assert(chunks@[j as int].modules@.contains(m as usize));
                                } else {
                                    assert(covered(pre_chunks, m2));
                                    let j2 = choose|j2: int|
                                        0 <= j2 < pre_chunks.len() && (
                                        #[trigger] pre_chunks[j2]).modules@.contains(m2 as usize);
                                    lemma_contains_preserved(
                                        pre_chunks[j2].modules@,
                                        chunks@[j2].modules@,
                                        m2 as usize,
                                    );
                                    assert(chunks@[j2].modules@.contains(m2 as usize));
                                }
                            }
                        }
                    },
                    None => {
                        let name = usize_to_string(chunks.len());
                        let nbits = module_to_bits[m].clone();
                        let mut mods: Vec<usize> = Vec::new();
                        mods.push(m);
                        let c = Chunk::new(Some(name), None, nbits, mods);
                        chunks.push(c);
                        proof {
                            let jn = chunks@.len() - 1;
                            assert(chunks@[jn].bits@ == sig_of(g, m as int));
                            assert forall|m2: int|
                                0 <= m2 < m + 1 && m2 != g.runtime implies #[trigger] covered(
                                chunks@,
                                m2,
                            ) by {
                                if m2 == m {
                                    assert(chunks@[jn].modules@[0] == m as usize);
                                    assert(chunks@[jn].modules@.contains(m as usize));
                                } else {
                                    assert(covered(pre_chunks, m2));
                                    let j2 = choose|j2: int|
                                        0 <= j2 < pre_chunks.len() && (
                                        #[trigger] pre_chunks[j2]).modules@.contains(m2 as usize);
                                    assert(chunks@[j2].modules@.contains(m2 as usize));
                                }
                            }
                        }
                    },
                }
            }
            m += 1;
        }

        // order each chunk's members by execution order
        let mut j: usize = 0;
        while j < chunks.len()
            invariant
                j <= chunks@.len(),
                entry_chunks_ok(g, chunks@),
                chunk_sigs_distinct(chunks@),
                members_ok(g, chunks@),
                forall|m2: int|
                    0 <= m2 < n_modules && m2 != g.runtime ==> #[trigger] covered(chunks@, m2),
                forall|j2: int, k1: int, k2: int|
                    0 <= j2 < j && 0 <= k1 <= k2 < chunks@[j2].modules@.len() ==> g.modules@[(
                    #[trigger] chunks@[j2].modules@[k1]) as int].exec_order <= g.modules@[(
                    #[trigger] chunks@[j2].modules@[k2]) as int].exec_order,
            decreases chunks@.len() - j,
        {
            let ghost pre_chunks = chunks@;
            proof {
                assert(pre_chunks[j as int].modules@.no_duplicates());
            }
            sort_members(&mut chunks[j].modules, &self.graph.modules);
            proof {
                let pre_mods = pre_chunks[j as int].modules@;
                let new_mods = chunks@[j as int].modules@;
                assert forall|k: int| 0 <= k < new_mods.len() implies {
                    let mm = (#[trigger] new_mods[k]) as int;
                    &&& mm < g.modules@.len()
                    &&& mm != g.runtime
                    &&& chunks@[j as int].bits@ == sig_of(g, mm)
                } by {
                    assert(new_mods.contains(new_mods[k]));
                    assert(pre_mods.contains(new_mods[k]));
                    let k0 = choose|k0: int| 0 <= k0 < pre_mods.len() && pre_mods[k0] == new_mods[k];
                    assert(pre_chunks[j as int].modules@[k0] == new_mods[k]);
                }
                assert(members_ok(g, chunks@));
                assert forall|m2: int|
                    0 <= m2 < n_modules && m2 != g.runtime implies #[trigger] covered(chunks@, m2) by {
                    assert(covered(pre_chunks, m2));
                    let j2 = choose|j2: int|
                        0 <= j2 < pre_chunks.len() && (#[trigger] pre_chunks[j2]).modules@.contains(
                            m2 as usize,
                        );
                    if j2 == j as int {
                        assert(chunks@[j2].modules@.contains(m2 as usize));
                    } else {
                        assert(chunks@[j2] == pre_chunks[j2]);
                        assert(chunks@[j2].modules@.contains(m2 as usize));
                    }
                }
            }
            j += 1;
        }

        // build the total module-to-chunk index
        let mut module_to_chunk: Vec<Option<usize>> = Vec::new();
        while module_to_chunk.len() < n_modules
            invariant
                module_to_chunk@.len() <= n_modules,
                forall|t: int| 0 <= t < module_to_chunk@.len() ==> (#[trigger] module_to_chunk@[t]) is None,
            decreases n_modules - module_to_chunk@.len(),
        {
            module_to_chunk.push(None);
        }
        let mut j: usize = 0;
        while j < chunks.len()
            invariant
                j <= chunks@.len(),
                module_to_chunk@.len() == n_modules,
                forall|t: int|
                    0 <= t < n_modules && (#[trigger] module_to_chunk@[t]) is Some ==> (
                    module_to_chunk@[t] matches Some(jj) && (jj as int) < j && chunks@[jj as int].modules@.contains(
                        t as usize,
                    )),
                forall|j2: int, k: int|
                    0 <= j2 < j && 0 <= k < chunks@[j2].modules@.len() ==> module_to_chunk@[(
                    #[trigger] chunks@[j2].modules@[k]) as int] == Some(j2 as usize),
            decreases chunks@.len() - j,
        {
            let mut k: usize = 0;
            while k < chunks[j].modules.len()
                invariant
                    k <= chunks@[j as int].modules@.len(),
                    module_to_chunk@.len() == n_modules,
                    forall|t: int|
                        0 <= t < n_modules && (#[trigger] module_to_chunk@[t]) is Some ==> (
                        module_to_chunk@[t] matches Some(jj) && (jj as int) <= j && chunks@[jj as int].modules@.contains(
                            t as usize,
                        )),
                    forall|j2: int, k2: int|
                        0 <= j2 < j && 0 <= k2 < chunks@[j2].modules@.len() ==> module_to_chunk@[(
                        #[trigger] chunks@[j2].modules@[k2]) as int] == Some(j2 as usize),
                    forall|k2: int|
                        0 <= k2 < k ==> module_to_chunk@[(#[trigger] chunks@[j as int].modules@[k2]) as int]
                            == Some(j as usize),
                decreases chunks@[j as int].modules@.len() - k,
            {
                let mm = chunks[j].modules[k];
                module_to_chunk[mm] = Some(j);
                proof {
                    assert(chunks@[j as int].modules@.contains(mm));
                    assert forall|j2: int, k2: int|
                        0 <= j2 < j && 0 <= k2 < chunks@[j2].modules@.len() implies module_to_chunk@[(
                    #[trigger] chunks@[j2].modules@[k2]) as int] == Some(j2 as usize) by {
                        if chunks@[j2].modules@[k2] == mm {
                            assert(chunks@[j2].modules@.contains(mm));
                            assert(chunks@[j2].bits@ == sig_of(g, mm as int));
                            assert(chunks@[j as int].bits@ == sig_of(g, mm as int));
                            assert(false);
                        }
                    }
                }
                k += 1;
            }
            j += 1;
        }
        proof {
            assert(index_ok(g, chunks@, module_to_chunk@)) by {
                assert forall|m2: int| 0 <= m2 < n_modules && m2 != g.runtime implies ((
                #[trigger] module_to_chunk@[m2]) matches Some(jj) && (jj as int) < chunks@.len()
                    && chunks@[jj as int].modules@.contains(m2 as usize)) by {
                    assert(covered(chunks@, m2));
                    let j2 = choose|j2: int|
                        0 <= j2 < chunks@.len() && (#[trigger] chunks@[j2]).modules@.contains(
                            m2 as usize,
                        );
                    let k2 = choose|k2: int|
                        0 <= k2 < chunks@[j2].modules@.len() && chunks@[j2].modules@[k2]
                            == m2 as usize;
                    assert(module_to_chunk@[m2] == Some(j2 as usize));
                }
                if module_to_chunk@[g.runtime as int] is Some {
                    assert(chunks@[module_to_chunk@[g.runtime as int]->Some_0 as int].modules@.contains(
                        g.runtime,
                    ));
                    let jr = module_to_chunk@[g.runtime as int]->Some_0 as int;
                    let kr = choose|kr: int|
                        0 <= kr < chunks@[jr].modules@.len() && chunks@[jr].modules@[kr]
                            == g.runtime;
                    assert(false);
                }
            }
        }
        (chunks, module_to_chunk)
    }

    /// The whole bundling pass: partition, then per chunk naming,
    /// deconfliction, export wiring and rendering, in that order. Naming
    /// and deconfliction are independent per chunk (each writes only
    /// chunk-local state or the member modules' own symbol entries); export
    /// wiring runs sequentially in chunk order; rendering only reads. Any
    /// phase failure aborts the pass with a typed error; no partial output
    /// is returned.
    #[verifier::loop_isolation(false)]
    #[verifier::rlimit(80)]
    pub fn generate(&mut self) -> (r: Result<Vec<Asset>, BundleError>)
        requires
            old(self).graph.wf(),
        ensures
            final(self).graph.modules == old(self).graph.modules,
            final(self).graph.entries == old(self).graph.entries,
            final(self).graph.runtime == old(self).graph.runtime,
            final(self).graph.symbols@.len() == old(self).graph.symbols@.len(),
            final(self).output_options == old(self).output_options,
            (r matches Err(e) && e is Configuration) <==> !has_marker(old(self).output_options.entry_file_names@),
            (r matches Err(e) && e is Deconfliction) <==> (has_marker(old(self).output_options.entry_file_names@) && bad_symbol(&old(self).graph)),
            (r matches Err(e) && e is ExportResolution) <==> (has_marker(old(self).output_options.entry_file_names@) && !bad_symbol(&old(self).graph) && bad_export(&old(self).graph)),
            (r matches Err(e) && e is Render) <==> (has_marker(old(self).output_options.entry_file_names@) && !bad_symbol(&old(self).graph) && !bad_export(&old(self).graph) && bad_content(&old(self).graph)),
            r is Ok <==> (has_marker(old(self).output_options.entry_file_names@) && !bad_symbol(&old(self).graph) && !bad_export(&old(self).graph) && !bad_content(&old(self).graph)),
            r matches Ok(assets) ==> exists|chunks: Seq<Chunk>, map: Seq<Option<usize>>|
                {
                    &&& #[trigger] valid_partition(&old(self).graph, chunks, map)
                    &&& assets_match(&old(self).graph, &old(self).output_options, chunks, assets@)
                    &&& all_deconflicted(old(self).graph.modules@, final(self).graph.symbols@, chunks)
                },
    {
        let ghost g0 = self.graph;
        let ghost t0 = self.output_options.entry_file_names@;
        let n_entries = self.graph.entries.len();
        let n_modules = self.graph.modules.len();

        if !template_is_valid(self.output_options.entry_file_names.as_str()) {
            return Err(BundleError::Configuration);
        }

        let (mut chunks, module_to_chunk) = self.generate_chunks();
        let ghost ms = g0.modules@;

        // Phase A: naming. Independent per chunk: a pure function of the
        // configuration and the chunk's own name.
        let mut j: usize = 0;
        while j < chunks.len()
            invariant
                j <= chunks@.len(),
                self == old(self),
                valid_partition(&g0, chunks@, module_to_chunk@),
                forall|j2: int|
                    0 <= j2 < j ==> ((#[trigger] chunks@[j2]).file_name matches Some(f) && chunks@[j2].name is Some
                        && is_rendered(t0, chunks@[j2].name->Some_0@, f@)),
            decreases chunks@.len() - j,
        {
            proof {
                assert(chunks@[j as int].name is Some);
            }
            chunks[j].render_file_name(&self.output_options);
            j += 1;
        }

        // Phase B: deconfliction. Independent per chunk: each call writes
        // only the symbol entries owned by that chunk's members, and member
        // sets of distinct chunks are disjoint.
        let mut j: usize = 0;
        while j < chunks.len()
            invariant
                j <= chunks@.len(),
                self.graph.modules == g0.modules,
                self.graph.entries == g0.entries,
                self.graph.runtime == g0.runtime,
                self.graph.symbols@.len() == g0.symbols@.len(),
                self.output_options == old(self).output_options,
                valid_partition(&g0, chunks@, module_to_chunk@),
                forall|j2: int|
                    0 <= j2 < chunks@.len() ==> ((#[trigger] chunks@[j2]).file_name matches Some(f)
                        && chunks@[j2].name is Some && is_rendered(t0, chunks@[j2].name->Some_0@, f@)),
                forall|j2: int, t: int|
                    0 <= j2 < j && 0 <= t < chunk_syms(ms, chunks@[j2].modules@).len() ==> (
                    #[trigger] chunk_syms(ms, chunks@[j2].modules@)[t]) < g0.symbols@.len(),
                forall|j2: int|
                    0 <= j2 < j ==> deconflicted(ms, self.graph.symbols@, (#[trigger] chunks@[j2]).modules@),
            decreases chunks@.len() - j,
        {
            proof {
                assert(chunks@[j as int].modules@.no_duplicates());
                lemma_chunk_syms_no_dup(&g0, chunks@[j as int].modules@);
            }
            let ghost pre_table = self.graph.symbols@;
            let res = chunks[j].de_conflict(&self.graph.modules, &mut self.graph.symbols);
            match res {
                Err(e) => {
                    proof {
                        let cm = chunks@[j as int].modules@;
                        let symbol = e->Deconfliction_symbol;
                        let t = choose|t: int|
                            0 <= t < chunk_syms(ms, cm).len() && chunk_syms(ms, cm)[t] == symbol;
                        lemma_chunk_syms_elem(ms, cm, t);
                        let (k, k2) = choose|k: int, k2: int|
                            0 <= k < cm.len() && 0 <= k2 < ms[cm[k] as int].symbols@.len()
                                && #[trigger] ms[cm[k] as int].symbols@[k2] == symbol;
                        assert(g0.modules@[cm[k] as int].symbols@[k2] >= g0.symbols@.len());
                        assert(bad_symbol(&g0));
                    }
                    return Err(e);
                },
                Ok(()) => {
                    proof {
                        let cjm = chunks@[j as int].modules@;
                        assert forall|j2: int| 0 <= j2 < j implies deconflicted(
                            ms,
                            self.graph.symbols@,
                            (#[trigger] chunks@[j2]).modules@,
                        ) by {
                            let c2m = chunks@[j2].modules@;
                            assert forall|k1: int, k2: int|
                                0 <= k1 < c2m.len() && 0 <= k2 < cjm.len() implies (
                            #[trigger] c2m[k1]) != (#[trigger] cjm[k2]) by {
                                if c2m[k1] == cjm[k2] {
                                    assert(chunks@[j2].bits@ == sig_of(&g0, c2m[k1] as int));
                                    assert(chunks@[j as int].bits@ == sig_of(&g0, cjm[k2] as int));
                                }
                            }
                            let s2 = chunk_syms(ms, c2m);
                            assert forall|t1: int, t2: int| 0 <= t1 < t2 < s2.len() implies {
                                &&& (#[trigger] s2[t1]) < self.graph.symbols@.len()
                                &&& (#[trigger] s2[t2]) < self.graph.symbols@.len()
                                &&& self.graph.symbols@[s2[t1] as int].name@ != self.graph.symbols@[s2[t2] as int].name@
                            } by {
                                assert(s2.contains(s2[t1]));
                                assert(s2.contains(s2[t2]));
                                lemma_chunk_syms_disjoint(&g0, c2m, cjm, s2[t1]);
                                lemma_chunk_syms_disjoint(&g0, c2m, cjm, s2[t2]);
                                assert(self.graph.symbols@[s2[t1] as int] == pre_table[s2[t1] as int]);
                                assert(self.graph.symbols@[s2[t2] as int] == pre_table[s2[t2] as int]);
                            }
                        }
                    }
                },
            }
            j += 1;
        }
        proof {
            assert(!bad_symbol(&g0)) by {
                if bad_symbol(&g0) {
                    let (m, k) = choose|m: int, k: int|
                        0 <= m < g0.modules@.len() && m != g0.runtime && 0 <= k < g0.modules@[m].symbols@.len()
                            && (#[trigger] g0.modules@[m].symbols@[k]) >= g0.symbols@.len();
                    assert(module_to_chunk@[m] is Some);
                    let j2 = module_to_chunk@[m]->Some_0 as int;
                    assert(0 <= j2 < chunks@.len());
                    assert(chunks@[j2].modules@.contains(m as usize));
                    let kk = choose|kk: int|
                        0 <= kk < chunks@[j2].modules@.len() && chunks@[j2].modules@[kk]
                            == m as usize;
                    assert((m as usize) as int == m);
                    assert(chunks@[j2].modules@[kk] as int == m);
                    lemma_chunk_syms_contains(ms, chunks@[j2].modules@, kk, k);
                    assert(chunk_syms(ms, chunks@[j2].modules@).contains(ms[m].symbols@[k]));
                    let t = choose|t: int|
                        0 <= t < chunk_syms(ms, chunks@[j2].modules@).len() && chunk_syms(
                            ms,
                            chunks@[j2].modules@,
                        )[t] == ms[m].symbols@[k];
                    assert(chunk_syms(ms, chunks@[j2].modules@)[t] < g0.symbols@.len());
                    assert(false);
                }
            }
        }

        // Phase C: export wiring, sequentially in chunk order, for the
        // chunks that own a designated entry module.
        let mut j: usize = 0;
        while j < chunks.len()
            invariant
                j <= chunks@.len(),
                self.graph.modules == g0.modules,
                self.graph.entries == g0.entries,
                self.graph.runtime == g0.runtime,
                self.graph.symbols@.len() == g0.symbols@.len(),
                self.output_options == old(self).output_options,
                valid_partition(&g0, chunks@, module_to_chunk@),
                forall|j2: int|
                    0 <= j2 < chunks@.len() ==> ((#[trigger] chunks@[j2]).file_name matches Some(f)
                        && chunks@[j2].name is Some && is_rendered(t0, chunks@[j2].name->Some_0@, f@)),
                all_deconflicted(ms, self.graph.symbols@, chunks@),
                forall|i2: int, k: int|
                    0 <= i2 < j && i2 < g0.entries@.len() && 0 <= k < g0.modules@[g0.entries@[i2].module as int].exports@.len()
                        ==> (#[trigger] g0.modules@[g0.entries@[i2].module as int].exports@[k]).symbol
                        < g0.symbols@.len(),
            decreases chunks@.len() - j,
        {
            if chunks[j].entry_module.is_some() {
                proof {
                    assert((j as int) < g0.entries@.len());
                    assert(chunks@[j as int].entry_module->Some_0 == g0.entries@[j as int].module);
                }
                let res = chunks[j].initialize_exports(&self.graph.modules, &self.graph.symbols);
                match res {
                    Err(e) => {
                        proof {
                            assert(bad_export(&g0));
                        }
                        return Err(e);
                    },
                    Ok(()) => {},
                }
            } else {
                proof {
                    assert((j as int) >= g0.entries@.len());
                }
            }
            j += 1;
        }
        proof {
            assert(!bad_export(&g0)) by {
                if bad_export(&g0) {
                    let (i, k) = choose|i: int, k: int|
                        0 <= i < g0.entries@.len() && 0 <= k < g0.modules@[g0.entries@[i].module as int].exports@.len()
                            && (#[trigger] g0.modules@[g0.entries@[i].module as int].exports@[k]).symbol
                            >= g0.symbols@.len();
                    assert(false);
                }
            }
        }

        // Phase D: rendering, per chunk; only reads the now-final names.
        let mut assets: Vec<Asset> = Vec::new();
        let mut j: usize = 0;
        while j < chunks.len()
            invariant
                j <= chunks@.len(),
                self.graph.modules == g0.modules,
                self.graph.entries == g0.entries,
                self.graph.runtime == g0.runtime,
                self.graph.symbols@.len() == g0.symbols@.len(),
                self.output_options == old(self).output_options,
                valid_partition(&g0, chunks@, module_to_chunk@),
                all_deconflicted(ms, self.graph.symbols@, chunks@),
                forall|j2: int|
                    0 <= j2 < chunks@.len() ==> ((#[trigger] chunks@[j2]).file_name matches Some(f)
                        && chunks@[j2].name is Some && is_rendered(t0, chunks@[j2].name->Some_0@, f@)),
                assets@.len() == j,
                forall|j2: int|
                    0 <= j2 < j ==> (is_rendered(
                        t0,
                        (#[trigger] chunks@[j2]).name->Some_0@,
                        assets@[j2].file_name@,
                    ) && assets@[j2].content@ == chunk_content(ms, chunks@[j2].modules@)),
                forall|j2: int, k: int|
                    0 <= j2 < j && 0 <= k < chunks@[j2].modules@.len() ==> ms[(
                    #[trigger] chunks@[j2].modules@[k]) as int].content@.len() > 0,
            decreases chunks@.len() - j,
        {
            let res = chunks[j].render(&self.graph.modules);
            match res {
                Ok(content) => {
                    let fname = chunks[j].file_name.as_ref().unwrap().clone();
                    assets.push(Asset { file_name: fname, content });
                },
                Err(e) => {
                    proof {
                        let module = e->Render_module;
                        assert(bad_content(&g0)) by {
                            let k = choose|k: int|
                                0 <= k < chunks@[j as int].modules@.len() && (
                                #[trigger] chunks@[j as int].modules@[k]) == module;
                            assert(g0.modules@[module as int].content@.len() == 0);
                        }
                    }
                    return Err(e);
                },
            }
            j += 1;
        }
        proof {
            assert(!bad_content(&g0)) by {
                if bad_content(&g0) {
                    let m = choose|m: int|
                        0 <= m < g0.modules@.len() && m != g0.runtime && (
                        #[trigger] g0.modules@[m]).content@.len() == 0;
                    let j2 = module_to_chunk@[m]->Some_0;
                    assert(chunks@[j2 as int].modules@.contains(m as usize));
                    let kk = choose|kk: int|
                        0 <= kk < chunks@[j2 as int].modules@.len() && chunks@[j2 as int].modules@[kk]
                            == m as usize;
                    assert(false);
                }
            }
            assert(valid_partition(&g0, chunks@, module_to_chunk@));
            assert(assets_match(&g0, &old(self).output_options, chunks@, assets@));
            assert(all_deconflicted(g0.modules@, self.graph.symbols@, chunks@));
        }
        Ok(assets)
    }
}

} // verus!
