//! Flat database representation of a filesystem node.

use vstd::prelude::*;

verus! {

/// A flat representation of a filesystem node suitable for a relational
/// table: the parent–child relation is carried by `parent_id`.
#[derive(Debug, Clone, PartialEq, Eq)]
pub struct DbNode {
    /// Unique identifier of this node within the database.
    pub id: i64,
    /// Identifier of the parent node, or `None` for root nodes.
    pub parent_id: Option<i64>,
    /// Display name of the file or directory.
    pub name: String,
    /// Absolute path to the file or directory.
    pub path: String,
    /// Current size in bytes.
    pub size: u64,
    /// Size in bytes from the previous scan session, if available.
    pub prev_size: Option<u64>,
    /// Number of files contained within this node.
    pub file_count: u64,
    /// Number of sub-folders contained within this node.
    pub folder_count: u64,
    /// Whether this node represents a directory.
    pub is_dir: bool,
    /// Unix timestamp (seconds) of the last modification, if known.
    pub modified_secs: Option<i64>,
    /// The scan session this node belongs to.
    pub scan_id: i64,
}

/// The mathematical value of a [`DbNode`].
pub struct DbView {
    pub id: int,
    pub parent_id: Option<int>,
    pub name: Seq<char>,
    pub path: Seq<char>,
    pub size: u64,
    pub prev_size: Option<u64>,
    pub file_count: u64,
    pub folder_count: u64,
    pub is_dir: bool,
    pub modified_secs: Option<i64>,
    pub scan_id: i64,
}

/// The view of an optional id.
pub open spec fn id_view(p: Option<i64>) -> Option<int> {
    match p {
        Some(x) => Some(x as int),
        None => None,
    }
}

impl View for DbNode {
    type V = DbView;

    open spec fn view(&self) -> DbView {
        DbView {
            id: self.id as int,
            parent_id: id_view(self.parent_id),
            name: self.name@,
            path: self.path@,
            size: self.size,
            prev_size: self.prev_size,
            file_count: self.file_count,
            folder_count: self.folder_count,
            is_dir: self.is_dir,
            modified_secs: self.modified_secs,
            scan_id: self.scan_id,
        }
    }
}

/// The views of a sequence of rows.
pub open spec fn rows_view(s: Seq<DbNode>) -> Seq<DbView> {
    Seq::new(s.len(), |i: int| s[i]@)
}

impl DbNode {
    /// Creates a node with the given identifiers, name and path; sizes and
    /// counters are zero, it is not a directory and optional fields are
    /// `None`.
    pub fn new(id: i64, scan_id: i64, parent_id: Option<i64>, name: &str, path: &str) -> (n: Self)
        ensures
            n.id == id,
            n.scan_id == scan_id,
            n.parent_id == parent_id,
            n.name@ == name@,
            n.path@ == path@,
            n.size == 0,
            n.prev_size is None,
            n.file_count == 0,
            n.folder_count == 0,
            !n.is_dir,
            n.modified_secs is None,
    {
        DbNode {
            id,
            parent_id,
            name: name.to_string(),
            path: path.to_string(),
            size: 0,
            prev_size: None,
            file_count: 0,
            folder_count: 0,
            is_dir: false,
            modified_secs: None,
            scan_id,
        }
    }

    /// Returns `true` if this node is a root node (has no parent).
    pub fn is_root(&self) -> (r: bool)
        ensures
            r == self.parent_id.is_none(),
    {
        self.parent_id.is_none()
    }
}

/// An in-memory node handed to the store as one saved tree: each node
/// carries its own children, so the tree can be walked depth-first.
#[derive(Debug)]
pub struct ScanNode {
    /// Absolute path of this node.
    pub path: String,
    /// `true` if this node is a directory.
    pub is_dir: bool,
    /// Size in bytes.
    pub size_bytes: i64,
    /// Child nodes (empty for files).
    pub children: Vec<ScanNode>,
}

} // verus!
