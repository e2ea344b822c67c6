//! Messages emitted during a scan session.

use vstd::prelude::*;
use crate::fs_node::FsNode;

verus! {

/// Messages produced by the scanner and consumed by the display or the
/// persistence layer during an active scan session.
#[derive(Debug)]
pub enum ScanMessage {
    /// Emitted each time a directory has been fully scanned.
    DirScanned {
        /// The node representing the scanned directory.
        node: FsNode,
        /// Number of directories scanned so far in this session.
        dirs_scanned: u64,
    },
    /// Emitted when a non-fatal error is encountered while scanning a path.
    ScanError {
        /// The path that could not be accessed or processed.
        path: String,
        /// A human-readable description of the error.
        message: String,
    },
    /// Emitted once when the entire scan has finished.
    Complete {
        /// Total number of files discovered.
        total_files: u64,
        /// Total number of directories discovered.
        total_dirs: u64,
        /// Aggregate size in bytes of all discovered items.
        total_size: u64,
        /// Number of non-fatal errors encountered during the scan.
        error_count: u64,
    },
}

impl ScanMessage {
    /// Returns `true` if this message signals scan completion.
    pub fn is_complete(&self) -> (r: bool)
        ensures
            r == self is Complete,
    {
        match self {
            ScanMessage::Complete { .. } => true,
            _ => false,
        }
    }

    /// Returns `true` if this message represents an error.
    pub fn is_error(&self) -> (r: bool)
        ensures
            r == self is ScanError,
    {
        match self {
            ScanMessage::ScanError { .. } => true,
            _ => false,
        }
    }

    /// Returns the path carried by a `ScanError`, or `None` for the other
    /// variants.
    pub fn error_path(&self) -> (p: Option<&str>)
        ensures
            match self {
                ScanMessage::ScanError { path, .. } => p is Some && p->0@ == path@,
                _ => p is None,
            },
    {
        match self {
            ScanMessage::ScanError { path, .. } => Some(path.as_str()),
            _ => None,
        }
    }
}

} // verus!
