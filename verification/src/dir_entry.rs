//! A scanned directory summarised by its size, number of children and
//! depth below the scan root.

use vstd::prelude::*;

verus! {

/// A scanned directory with its aggregated size.
#[derive(Debug, Clone)]
pub struct DirEntry {
    /// Absolute path to the directory.
    pub path: String,
    /// Total size in bytes of all files contained recursively within this
    /// directory.
    pub size: u64,
    /// Number of direct children (files and sub-directories).
    pub child_count: usize,
    /// Depth relative to the scan root (the root itself is at depth 0).
    pub depth: usize,
}

impl DirEntry {
    /// An entry for `path` at `depth`, with no size and no children counted
    /// yet.
    pub fn new(path: &str, depth: usize) -> (e: Self)
        ensures
            e.path@ == path@,
            e.size == 0,
            e.child_count == 0,
            e.depth == depth,
    {
        DirEntry { path: path.to_string(), size: 0, child_count: 0, depth }
    }
}

} // verus!
