//! Output configuration consumed by chunk naming.

use vstd::prelude::*;

verus! {

/// Normalized output configuration. `entry_file_names` is a file-name
/// template that must contain the `[name]` placeholder; the placeholder is
/// replaced by the chunk's name.
pub struct OutputOptions {
    pub entry_file_names: String,
}

} // verus!
