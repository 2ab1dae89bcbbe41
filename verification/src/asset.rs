//! The output record: one (file name, content) pair per chunk, the only
//! artifact that escapes the bundling pass.

use vstd::prelude::*;

verus! {

/// One final output file.
pub struct Asset {
    pub file_name: String,
    pub content: String,
}

} // verus!
