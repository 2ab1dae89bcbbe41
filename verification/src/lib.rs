//! Chunking core of a module bundler.
//!
//! Given a resolved dependency graph of modules reachable from one or more
//! declared entry points, this library partitions the graph into output
//! chunks, assigns each module to exactly one chunk, resolves cross-module
//! naming conflicts, and renders each chunk into final output content.

pub mod asset;
pub mod bitset;
pub mod bundle;
pub mod chunk;
pub mod errors;
pub mod graph;
pub mod laws;
pub mod numeral;
pub mod options;
pub mod partition;
pub mod reach;
pub mod template;

pub use asset::Asset;
pub use bitset::BitSet;
pub use bundle::Bundle;
pub use chunk::{Chunk, ChunkExport};
pub use errors::BundleError;
pub use graph::{Entry, ExportRecord, Graph, ImportKind, ImportRecord, Module, Symbol};
pub use options::OutputOptions;
