//! Output chunks: maximal groups of modules sharing one reachability
//! signature, and the per-chunk pipeline steps (naming, deconfliction,
//! export wiring, rendering).

use vstd::prelude::*;
use crate::bitset::BitSet;
use crate::errors::BundleError;
use crate::graph::{Graph, Module, Symbol};
use crate::options::OutputOptions;
use crate::template::{has_marker, is_rendered, render_template};

verus! {

/// The symbol-table entries visible within a chunk: those owned by its
/// member modules, in member order.
pub open spec fn chunk_syms(ms: Seq<Module>, members: Seq<usize>) -> Seq<usize>
    decreases members.len(),
{
    if members.len() == 0 {
        Seq::empty()
    } else {
        chunk_syms(ms, members.drop_last()) + ms[members.last() as int].symbols@
    }
}

/// The rendered content of a chunk: the member contents in member order,
/// each followed by a line break.
pub open spec fn chunk_content(ms: Seq<Module>, members: Seq<usize>) -> Seq<char>
    decreases members.len(),
{
    if members.len() == 0 {
        Seq::empty()
    } else {
        chunk_content(ms, members.drop_last()) + ms[members.last() as int].content@ + seq!['\n']
    }
}

/// Symbol `s` is owned by one of the listed member modules.
pub open spec fn owns_sym(ms: Seq<Module>, members: Seq<usize>, s: usize) -> bool {
    exists|k: int, k2: int|
        0 <= k < members.len() && 0 <= k2 < ms[members[k] as int].symbols@.len()
            && #[trigger] ms[members[k] as int].symbols@[k2] == s
}

/// Every entry of a chunk's symbol list is owned by one of its members.
pub proof fn lemma_chunk_syms_elem(ms: Seq<Module>, members: Seq<usize>, t: int)
    requires
        0 <= t < chunk_syms(ms, members).len(),
    ensures
        owns_sym(ms, members, chunk_syms(ms, members)[t]),
    decreases members.len(),
{
    if members.len() > 0 {
        let pre = chunk_syms(ms, members.drop_last());
        let last = members.last();
        if t < pre.len() {
            lemma_chunk_syms_elem(ms, members.drop_last(), t);
            let (k, k2) = choose|k: int, k2: int|
                0 <= k < members.drop_last().len() && 0 <= k2 < ms[members.drop_last()[k] as int].symbols@.len()
                    && #[trigger] ms[members.drop_last()[k] as int].symbols@[k2] == pre[t];
            assert(members[k] == members.drop_last()[k]);
            assert(chunk_syms(ms, members)[t] == pre[t]);
            assert(ms[members[k] as int].symbols@[k2] == chunk_syms(ms, members)[t]);
        } else {
            let k2 = t - pre.len();
            let k = members.len() - 1;
            assert(members[k] == last);
            assert(ms[members[k] as int].symbols@[k2] == chunk_syms(ms, members)[t]);
        }
    }
}

/// Every member module's symbol appears in the chunk's symbol list.
pub proof fn lemma_chunk_syms_contains(ms: Seq<Module>, members: Seq<usize>, k: int, k2: int)
    requires
        0 <= k < members.len(),
        0 <= k2 < ms[members[k] as int].symbols@.len(),
    ensures
        chunk_syms(ms, members).contains(ms[members[k] as int].symbols@[k2]),
    decreases members.len(),
{
    let pre = chunk_syms(ms, members.drop_last());
    let x = ms[members[k] as int].symbols@[k2];
    if k == members.len() - 1 {
        assert(chunk_syms(ms, members)[pre.len() + k2] == x);
    } else {
        assert(members.drop_last()[k] == members[k]);
        lemma_chunk_syms_contains(ms, members.drop_last(), k, k2);
        let t = choose|t: int| 0 <= t < pre.len() && pre[t] == x;
        assert(chunk_syms(ms, members)[t] == x);
    }
}

/// With each symbol owned by at most one module and the members pairwise
/// distinct, a chunk's symbol list has no duplicates.
pub proof fn lemma_chunk_syms_no_dup(g: &Graph, members: Seq<usize>)
    requires
        g.wf(),
        members.no_duplicates(),
        forall|k: int| 0 <= k < members.len() ==> (#[trigger] members[k]) < g.modules@.len(),
    ensures
        chunk_syms(g.modules@, members).no_duplicates(),
    decreases members.len(),
{
    let ms = g.modules@;
    let full = chunk_syms(ms, members);
    if members.len() == 0 {
        assert(full =~= Seq::<usize>::empty());
    } else {
        let prefix_members = members.drop_last();
        assert(prefix_members.no_duplicates()) by {
            assert(forall|k: int|
                0 <= k < prefix_members.len() ==> prefix_members[k] == #[trigger] members[k]);
        }
        lemma_chunk_syms_no_dup(g, prefix_members);
        let pre = chunk_syms(ms, prefix_members);
        let last = members.last();
        let lsyms = ms[last as int].symbols@;
        assert forall|t1: int, t2: int|
            0 <= t1 < full.len() && 0 <= t2 < full.len() && t1 != t2 implies full[t1]
            != full[t2] by {
            let a = if t1 < t2 {
                t1
            } else {
                t2
            };
            let b = if t1 < t2 {
                t2
            } else {
                t1
            };
            if b < pre.len() {
                assert(pre[a] != pre[b]);
            } else if a >= pre.len() {
                assert(full[a] == lsyms[a - pre.len()]);
                assert(full[b] == lsyms[b - pre.len()]);
                assert(ms[last as int].symbols@[a - pre.len()] != ms[last as int].symbols@[b
                    - pre.len()]);
            } else {
                lemma_chunk_syms_elem(ms, prefix_members, a);
                let (k, k2) = choose|k: int, k2: int|
                    0 <= k < prefix_members.len() && 0 <= k2 < ms[prefix_members[k] as int].symbols@.len()
                        && #[trigger] ms[prefix_members[k] as int].symbols@[k2] == pre[a];
                assert(prefix_members[k] == members[k]);
                assert(members[k] != last);
                assert(ms[members[k] as int].symbols@[k2] != ms[last as int].symbols@[b
                    - pre.len()]);
                assert(full[b] == lsyms[b - pre.len()]);
            }
        }
    }
}

/// Chunks without a common member see disjoint symbol lists.
pub proof fn lemma_chunk_syms_disjoint(g: &Graph, c1: Seq<usize>, c2: Seq<usize>, s: usize)
    requires
        g.wf(),
        forall|k: int| 0 <= k < c1.len() ==> (#[trigger] c1[k]) < g.modules@.len(),
        forall|k: int| 0 <= k < c2.len() ==> (#[trigger] c2[k]) < g.modules@.len(),
        forall|k1: int, k2: int|
            0 <= k1 < c1.len() && 0 <= k2 < c2.len() ==> (#[trigger] c1[k1]) != (#[trigger] c2[k2]),
        chunk_syms(g.modules@, c1).contains(s),
    ensures
        !chunk_syms(g.modules@, c2).contains(s),
{
    let ms = g.modules@;
    let t1 = choose|t: int| 0 <= t < chunk_syms(ms, c1).len() && chunk_syms(ms, c1)[t] == s;
    lemma_chunk_syms_elem(ms, c1, t1);
    if chunk_syms(ms, c2).contains(s) {
        let t2 = choose|t: int| 0 <= t < chunk_syms(ms, c2).len() && chunk_syms(ms, c2)[t] == s;
        lemma_chunk_syms_elem(ms, c2, t2);
        let (k1, k12) = choose|k: int, k2: int|
            0 <= k < c1.len() && 0 <= k2 < ms[c1[k] as int].symbols@.len() && #[trigger] ms[c1[k] as int].symbols@[k2]
                == s;
        let (k2, k22) = choose|k: int, k2: int|
            0 <= k < c2.len() && 0 <= k2 < ms[c2[k] as int].symbols@.len() && #[trigger] ms[c2[k] as int].symbols@[k2]
                == s;
        assert(c1[k1] != c2[k2]);
        assert(ms[c1[k1] as int].symbols@[k12] != ms[c2[k2] as int].symbols@[k22]);
        assert(false);
    }
}

/// No two distinct symbols visible within the chunk resolve to the same
/// final rendered name.
pub open spec fn deconflicted(ms: Seq<Module>, table: Seq<Symbol>, members: Seq<usize>) -> bool {
    forall|t1: int, t2: int|
        0 <= t1 < t2 < chunk_syms(ms, members).len() ==> {
            &&& (#[trigger] chunk_syms(ms, members)[t1]) < table.len()
            &&& (#[trigger] chunk_syms(ms, members)[t2]) < table.len()
            &&& table[chunk_syms(ms, members)[t1] as int].name@ != table[chunk_syms(
                ms,
                members,
            )[t2] as int].name@
        }
}

/// Appending one member appends that member's symbols.
pub proof fn lemma_chunk_syms_step(ms: Seq<Module>, members: Seq<usize>, i: int)
    requires
        0 <= i < members.len(),
    ensures
        chunk_syms(ms, members.take(i + 1)) == chunk_syms(ms, members.take(i)) + ms[members[i] as int].symbols@,
{
    assert(members.take(i + 1).drop_last() =~= members.take(i));
    assert(members.take(i + 1).last() == members[i]);
}

/// Appending one member appends that member's content and a line break.
pub proof fn lemma_chunk_content_step(ms: Seq<Module>, members: Seq<usize>, i: int)
    requires
        0 <= i < members.len(),
    ensures
        chunk_content(ms, members.take(i + 1)) == chunk_content(ms, members.take(i)) + ms[members[i] as int].content@
            + seq!['\n'],
{
    assert(members.take(i + 1).drop_last() =~= members.take(i));
    assert(members.take(i + 1).last() == members[i]);
}

/// Linear scan for a name among the names already taken in this chunk.
fn contains_string(v: &Vec<String>, s: &String) -> (r: bool)
    ensures
        r == (exists|t: int| 0 <= t < v@.len() && (#[trigger] v@[t])@ == s@),
{
    let mut j: usize = 0;
    while j < v.len()
        invariant
            j <= v@.len(),
            forall|t: int| 0 <= t < j ==> (#[trigger] v@[t])@ != s@,
        decreases v@.len() - j,
    {
        if v[j].eq(s) {
            return true;
        }
        j += 1;
    }
    false
}

/// One resolved export of an entry chunk: an exported name bound to the
/// final (deconflicted) name of the symbol that backs it.
pub struct ChunkExport {
    pub exported_name: String,
    pub local_name: String,
}

/// A unit of final output: a group of modules sharing one reachability
/// signature.
pub struct Chunk {
    /// The chunk's name: the entry name for an entry chunk, a generated
    /// counter-derived name otherwise.
    pub name: Option<String>,
    /// Set iff this chunk was seeded for a declared entry point.
    pub entry_module: Option<usize>,
    /// The reachability signature that defines membership.
    pub bits: BitSet,
    /// Member modules, in non-decreasing execution order.
    pub modules: Vec<usize>,
    /// The final output file name, assigned after partitioning.
    pub file_name: Option<String>,
    /// The public export table; populated only for entry chunks.
    pub exports: Vec<ChunkExport>,
}

impl Chunk {
    pub fn new(
        name: Option<String>,
        entry_module: Option<usize>,
        bits: BitSet,
        modules: Vec<usize>,
    ) -> (r: Self)
        ensures
            r.name == name,
            r.entry_module == entry_module,
            r.bits == bits,
            r.modules == modules,
            r.file_name is None,
            r.exports@.len() == 0,
    {
        Self { name, entry_module, bits, modules, file_name: None, exports: Vec::new() }
    }

    /// Naming: computes the final output file name from the naming
    /// configuration and the chunk's name. A pure function of the two;
    /// touches no other chunk and no shared state.
    pub fn render_file_name(&mut self, options: &OutputOptions)
        requires
            has_marker(options.entry_file_names@),
            old(self).name is Some,
        ensures
            final(self).name == old(self).name,
            final(self).entry_module == old(self).entry_module,
            final(self).bits == old(self).bits,
            final(self).modules == old(self).modules,
            final(self).exports == old(self).exports,
            final(self).file_name matches Some(f) && is_rendered(options.entry_file_names@, old(self).name->Some_0@, f@),
    {
        let name_ref = self.name.as_ref().unwrap();
        let f = render_template(options.entry_file_names.as_str(), name_ref.as_str());
        self.file_name = Some(f);
    }

    /// Deconfliction: renames the symbols visible in this chunk so that no
    /// two distinct symbols share a final name. Writes only the member
    /// modules' own symbol-table entries, so distinct chunks can be
    /// deconflicted independently; a name chosen here may legitimately
    /// recur in another chunk.
    #[verifier::loop_isolation(false)]
    pub fn de_conflict(&self, modules: &Vec<Module>, symbols: &mut Vec<Symbol>) -> (r: Result<
        (),
        BundleError,
    >)
        requires
            forall|k: int|
                0 <= k < self.modules@.len() ==> (#[trigger] self.modules@[k]) < modules@.len(),
            chunk_syms(modules@, self.modules@).no_duplicates(),
        ensures
            final(symbols)@.len() == old(symbols)@.len(),
            forall|s: int|
                0 <= s < old(symbols)@.len() && !chunk_syms(modules@, self.modules@).contains(
                    s as usize,
                ) ==> final(symbols)@[s] == old(symbols)@[s],
            r is Ok <==> (forall|t: int|
                0 <= t < chunk_syms(modules@, self.modules@).len() ==> (#[trigger] chunk_syms(
                    modules@,
                    self.modules@,
                )[t]) < old(symbols)@.len()),
            r is Ok ==> deconflicted(modules@, final(symbols)@, self.modules@),
            r matches Err(e) ==> (e matches BundleError::Deconfliction { symbol } && chunk_syms(
                modules@,
                self.modules@,
            ).contains(symbol) && symbol >= old(symbols)@.len()),
    {
        let ghost syms = chunk_syms(modules@, self.modules@);
        // flatten the member modules' symbol lists, in member order
        let mut sids: Vec<usize> = Vec::new();
        let mut i: usize = 0;
        while i < self.modules.len()
            invariant
                i <= self.modules@.len(),
                sids@ == chunk_syms(modules@, self.modules@.take(i as int)),
            decreases self.modules@.len() - i,
        {
            let mi = self.modules[i];
            let ghost pre = sids@;
            let mut k: usize = 0;
            while k < modules[mi].symbols.len()
                invariant
                    k <= modules@[mi as int].symbols@.len(),
                    sids@ == pre + modules@[mi as int].symbols@.take(k as int),
                decreases modules@[mi as int].symbols@.len() - k,
            {
                sids.push(modules[mi].symbols[k]);
                proof {
                    assert(modules@[mi as int].symbols@.take(k + 1).drop_last() =~= modules@[
                        mi as int
                    ].symbols@.take(k as int));
                    assert(sids@ =~= pre + modules@[mi as int].symbols@.take(k + 1));
                }
                k += 1;
            }
            proof {
                assert(modules@[mi as int].symbols@.take(modules@[mi as int].symbols@.len() as int)
                    =~= modules@[mi as int].symbols@);
                lemma_chunk_syms_step(modules@, self.modules@, i as int);
            }
            i += 1;
        }
        proof {
            assert(self.modules@.take(self.modules@.len() as int) =~= self.modules@);
            assert(sids@ == syms);
        }
        // rename pass: pick for each symbol the first free name
        let mut used: Vec<String> = Vec::new();
        let mut max_len: usize = 0;
        let mut k: usize = 0;
        while k < sids.len()
            invariant
                k <= syms.len(),
                used@.len() == k,
                symbols@.len() == old(symbols)@.len(),
                forall|t: int| 0 <= t < k ==> (#[trigger] syms[t]) < symbols@.len(),
                forall|t: int|
                    0 <= t < k ==> symbols@[(#[trigger] syms[t]) as int].name@ == used@[t]@,
                forall|t1: int, t2: int|
                    0 <= t1 < t2 < k ==> (#[trigger] used@[t1])@ != (#[trigger] used@[t2])@,
                forall|t: int| 0 <= t < k ==> (#[trigger] used@[t])@.len() <= max_len,
                forall|s: int|
                    0 <= s < old(symbols)@.len() && !syms.take(k as int).contains(s as usize)
                        ==> symbols@[s] == old(symbols)@[s],
            decreases syms.len() - k,
        {
            let sid = sids[k];
            if sid >= symbols.len() {
                proof {
                    assert(syms[k as int] == sid);
                    assert(syms.contains(sid));
                    assert forall|s: int|
                        0 <= s < old(symbols)@.len() && !syms.contains(s as usize) implies symbols@[s]
                        == old(symbols)@[s] by {
                        if syms.take(k as int).contains(s as usize) {
                            let t = choose|t: int|
                                0 <= t < k && syms.take(k as int)[t] == s as usize;
                            assert(syms[t] == s as usize);
                        }
                    }
                }
                return Err(BundleError::Deconfliction { symbol: sid });
            }
            let mut candidate = symbols[sid].name.clone();
            while contains_string(&used, &candidate)
                invariant
                    symbols@.len() == old(symbols)@.len(),
                decreases max_len + 1 - candidate@.len(),
            {
                proof {
                    let t = choose|t: int|
                        0 <= t < used@.len() && (#[trigger] used@[t])@ == candidate@;
                    assert(candidate@.len() <= max_len);
                    reveal_strlit("_");
                }
                candidate.append("_");
            }
            symbols[sid] = Symbol { name: candidate.clone() };
            let clen = candidate.unicode_len();
            if clen > max_len {
                max_len = clen;
            }
            used.push(candidate);
            proof {
                assert forall|t: int|
                    0 <= t < k + 1 implies symbols@[(#[trigger] syms[t]) as int].name@
                    == used@[t]@ by {
                    if t < k {
                        assert(syms[t] != syms[k as int]);
                    }
                }
                assert forall|s: int|
                    0 <= s < old(symbols)@.len() && !syms.take(k + 1).contains(s as usize) implies symbols@[s]
                    == old(symbols)@[s] by {
                    assert(syms.take(k + 1)[k as int] == syms[k as int]);
                    assert(s != syms[k as int]);
                    if syms.take(k as int).contains(s as usize) {
                        let t = choose|t: int| 0 <= t < k && syms.take(k as int)[t] == s as usize;
                        assert(syms.take(k + 1)[t] == s as usize);
                    }
                }
            }
            k += 1;
        }
        proof {
            assert(syms.take(syms.len() as int) =~= syms);
        }
        Ok(())
    }

    /// Export wiring: resolves the designated entry module's exported
    /// symbols through the (deconflicted) symbol table and records the
    /// chunk's public export table.
    pub fn initialize_exports(&mut self, modules: &Vec<Module>, symbols: &Vec<Symbol>) -> (r:
        Result<(), BundleError>)
        requires
            old(self).entry_module matches Some(em) && (em as int) < modules@.len(),
        ensures
            final(self).name == old(self).name,
            final(self).entry_module == old(self).entry_module,
            final(self).bits == old(self).bits,
            final(self).modules == old(self).modules,
            final(self).file_name == old(self).file_name,
            r is Ok <==> (forall|k: int|
                0 <= k < modules@[old(self).entry_module->Some_0 as int].exports@.len() ==> (
                #[trigger] modules@[old(self).entry_module->Some_0 as int].exports@[k]).symbol
                    < symbols@.len()),
            r is Ok ==> {
                let exp = modules@[old(self).entry_module->Some_0 as int].exports@;
                &&& final(self).exports@.len() == exp.len()
                &&& forall|k: int|
                    0 <= k < exp.len() ==> (#[trigger] final(self).exports@[k]).exported_name@
                        == exp[k].exported_name@ && final(self).exports@[k].local_name@
                        == symbols@[exp[k].symbol as int].name@
            },
            r matches Err(e) ==> (e matches BundleError::ExportResolution { module, export }
                && module == old(self).entry_module->Some_0 && 0 <= export
                < modules@[old(self).entry_module->Some_0 as int].exports@.len() && modules@[old(
                self,
            ).entry_module->Some_0 as int].exports@[export as int].symbol >= symbols@.len()),
            r matches Err(_) ==> final(self).exports == old(self).exports,
    {
        let em = self.entry_module.unwrap();
        let mut exports: Vec<ChunkExport> = Vec::new();
        let mut k: usize = 0;
        while k < modules[em].exports.len()
            invariant
                self == old(self),
                em == old(self).entry_module->Some_0,
                (em as int) < modules@.len(),
                k <= modules@[em as int].exports@.len(),
                exports@.len() == k,
                forall|t: int|
                    0 <= t < k ==> (#[trigger] modules@[em as int].exports@[t]).symbol
                        < symbols@.len(),
                forall|t: int|
                    0 <= t < k ==> (#[trigger] exports@[t]).exported_name@ == modules@[
                    em as int
                ].exports@[t].exported_name@ && exports@[t].local_name@ == symbols@[modules@[
                    em as int
                ].exports@[t].symbol as int].name@,
            decreases modules@[em as int].exports@.len() - k,
        {
            let rec = &modules[em].exports[k];
            if rec.symbol >= symbols.len() {
                return Err(BundleError::ExportResolution { module: em, export: k });
            }
            exports.push(
                ChunkExport {
                    exported_name: rec.exported_name.clone(),
                    local_name: symbols[rec.symbol].name.clone(),
                },
            );
            k += 1;
        }
        self.exports = exports;
        Ok(())
    }

    /// Rendering: produces the chunk's final text content from its member
    /// list. A member whose content upstream left empty is a hard error for
    /// the whole pass.
    #[verifier::loop_isolation(false)]
    pub fn render(&self, modules: &Vec<Module>) -> (r: Result<String, BundleError>)
        requires
            forall|k: int|
                0 <= k < self.modules@.len() ==> (#[trigger] self.modules@[k]) < modules@.len(),
        ensures
            r is Ok <==> (forall|k: int|
                0 <= k < self.modules@.len() ==> modules@[(#[trigger] self.modules@[k]) as int].content@.len()
                    > 0),
            r matches Ok(s) ==> s@ == chunk_content(modules@, self.modules@),
            r matches Err(e) ==> (e matches BundleError::Render { module } && (exists|k: int|
                0 <= k < self.modules@.len() && (#[trigger] self.modules@[k]) == module) && modules@[
                module as int
            ].content@.len() == 0),
    {
        let mut out = String::new();
        let mut k: usize = 0;
        while k < self.modules.len()
            invariant
                k <= self.modules@.len(),
                out@ == chunk_content(modules@, self.modules@.take(k as int)),
                forall|t: int|
                    0 <= t < k ==> modules@[(#[trigger] self.modules@[t]) as int].content@.len()
                        > 0,
            decreases self.modules@.len() - k,
        {
            let mid = self.modules[k];
            if modules[mid].content.unicode_len() == 0 {
                return Err(BundleError::Render { module: mid });
            }
            out.append(modules[mid].content.as_str());
            out.append("\n");
            proof {
                reveal_strlit("\n");
                lemma_chunk_content_step(modules@, self.modules@, k as int);
                assert(out@ =~= chunk_content(modules@, self.modules@.take(k + 1)));
            }
            k += 1;
        }
        proof {
            assert(self.modules@.take(self.modules@.len() as int) =~= self.modules@);
        }
        Ok(out)
    }
}

} // verus!
