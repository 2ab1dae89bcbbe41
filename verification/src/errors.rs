//! Typed errors of the bundling pass. Every phase surfaces its failure
//! through the orchestrator; no partial output is ever returned.

use vstd::prelude::*;

verus! {

/// Why a bundling pass failed, identifying the failing phase and, where one
/// exists, the module or symbol at fault.
pub enum BundleError {
    /// Invalid output naming configuration: the file-name template lacks
    /// the `[name]` placeholder (detected before naming runs).
    Configuration,
    /// A module references a symbol-table entry outside the table: an
    /// internal-invariant violation surfaced during deconfliction.
    Deconfliction { symbol: usize },
    /// An entry module exports a symbol that cannot be resolved against
    /// the symbol table.
    ExportResolution { module: usize, export: usize },
    /// A chunk member whose content upstream failed to produce.
    Render { module: usize },
}

} // verus!
