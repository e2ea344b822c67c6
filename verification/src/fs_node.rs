//! The in-memory filesystem tree and its mathematical view.

use vstd::prelude::*;
use crate::size_change::{as_signed, to_signed};

verus! {

/// A node of the in-memory filesystem tree: a file or a directory.
/// Directories carry their children; a directory's `size`, `file_count`
/// and `folder_count` are aggregates over its subtree once computed.
#[derive(Debug, PartialEq)]
pub struct FsNode {
    /// Display name of the file or directory (last path component).
    pub name: String,
    /// Absolute path to the file or directory.
    pub path: String,
    /// Current size in bytes (sum over the subtree for directories).
    pub size: u64,
    /// Size in bytes recorded during a previous scan, if any.
    pub prev_size: Option<u64>,
    /// Number of files within this node (0 for files).
    pub file_count: u64,
    /// Number of sub-directories within this node (0 for files).
    pub folder_count: u64,
    /// Last modification time as an ISO 8601 string, if known.
    pub modified: Option<String>,
    /// Whether this node represents a directory.
    pub is_dir: bool,
    /// Child nodes (empty for files).
    pub children: Vec<FsNode>,
}

/// The mathematical value of an [`FsNode`]: strings as character sequences
/// and children as a sequence of views.
pub struct NodeView {
    pub name: Seq<char>,
    pub path: Seq<char>,
    pub size: u64,
    pub prev_size: Option<u64>,
    pub file_count: u64,
    pub folder_count: u64,
    pub modified: Option<Seq<char>>,
    pub is_dir: bool,
    pub children: Seq<NodeView>,
}

/// The view of an optional string.
pub open spec fn opt_str_view(s: Option<String>) -> Option<Seq<char>> {
    match s {
        Some(t) => Some(t@),
        None => None,
    }
}

/// The view of a node, children included.
pub open spec fn node_view(n: FsNode) -> NodeView
    decreases n,
{
    NodeView {
        name: n.name@,
        path: n.path@,
        size: n.size,
        prev_size: n.prev_size,
        file_count: n.file_count,
        folder_count: n.folder_count,
        modified: opt_str_view(n.modified),
        is_dir: n.is_dir,
        children: Seq::new(
            n.children@.len(),
            |i: int|
                if 0 <= i < n.children@.len() {
                    node_view(n.children@[i])
                } else {
                    arbitrary()
                },
        ),
    }
}

/// The views of a sequence of nodes.
pub open spec fn forest_view(s: Seq<FsNode>) -> Seq<NodeView> {
    Seq::new(s.len(), |i: int| node_view(s[i]))
}

/// `m` is `n` or a node somewhere below it.
pub open spec fn is_subtree(m: NodeView, n: NodeView) -> bool
    decreases n,
{
    m == n || exists|i: int| #![trigger n.children[i]] 0 <= i < n.children.len() && is_subtree(m, n.children[i])
}

/// The children of a node's view are the views of its children.
pub proof fn lemma_children_view(n: FsNode)
    ensures
        n@.children == forest_view(n.children@),
{
    assert(n@.children =~= forest_view(n.children@));
}

impl View for FsNode {
    type V = NodeView;

    open spec fn view(&self) -> NodeView {
        node_view(*self)
    }
}

/// Copies an optional string.
pub fn copy_opt_string(s: &Option<String>) -> (r: Option<String>)
    ensures
        opt_str_view(r) == opt_str_view(*s),
{
    match s {
        Some(t) => Some(t.clone()),
        None => None,
    }
}

impl FsNode {
    /// Creates a node with the given name and path; all counters are zero,
    /// optional fields are `None` and there are no children.
    pub fn new(name: &str, path: &str, is_dir: bool) -> (n: Self)
        ensures
            n@.name == name@,
            n@.path == path@,
            n@.is_dir == is_dir,
            n@.size == 0,
            n@.prev_size is None,
            n@.file_count == 0,
            n@.folder_count == 0,
            n@.modified is None,
            n@.children.len() == 0,
    {
        FsNode {
            name: name.to_string(),
            path: path.to_string(),
            size: 0,
            prev_size: None,
            file_count: 0,
            folder_count: 0,
            modified: None,
            is_dir,
            children: Vec::new(),
        }
    }

    /// The difference between the current and the previous size, when a
    /// previous size is recorded (both read as `i64`).
    pub fn size_delta(&self) -> (d: Option<i64>)
        requires
            self.prev_size matches Some(p) ==> i64::MIN <= as_signed(self.size) - as_signed(p) <= i64::MAX,
        ensures
            match self.prev_size {
                Some(p) => d == Some((as_signed(self.size) - as_signed(p)) as i64),
                None => d is None,
            },
    {
        match self.prev_size {
            Some(prev) => Some(to_signed(self.size) - to_signed(prev)),
            None => None,
        }
    }

    /// A deep copy of this node and its whole subtree.
    pub fn duplicate(&self) -> (r: FsNode)
        ensures
            r@ == self@,
        decreases self,
    {
        let mut kids: Vec<FsNode> = Vec::new();
        let n = self.children.len();
        for i in 0..n
            invariant
                n == self.children@.len(),
                kids@.len() == i,
                forall|j: int| 0 <= j < i ==> #[trigger] kids@[j]@ == self.children@[j]@,
        {
            proof {
                assert(decreases_to!(self => self.children));
                assert(decreases_to!(self.children => self.children@));
                assert(decreases_to!(self.children@ => self.children@[i as int]));
            }
            kids.push(self.children[i].duplicate());
        }
        let ghost kv = kids@;
        let r = FsNode {
            name: self.name.clone(),
            path: self.path.clone(),
            size: self.size,
            prev_size: self.prev_size,
            file_count: self.file_count,
            folder_count: self.folder_count,
            modified: copy_opt_string(&self.modified),
            is_dir: self.is_dir,
            children: kids,
        };
        assert(r.children@ == kv);
        assert forall|j: int| 0 <= j < n implies #[trigger] r@.children[j] == self@.children[j] by {
            assert(kids@[j]@ == self.children@[j]@);
            assert(r@.children[j] == node_view(r.children@[j]));
            assert(self@.children[j] == node_view(self.children@[j]));
        }
        assert(r@.children =~= self@.children);
        r
    }
}

impl Default for FsNode {
    /// An empty, unnamed file node.
    fn default() -> (n: Self)
        ensures
            n@.name.len() == 0,
            n@.path.len() == 0,
            !n@.is_dir,
            n@.size == 0,
            n@.prev_size is None,
            n@.file_count == 0,
            n@.folder_count == 0,
            n@.modified is None,
            n@.children.len() == 0,
    {
        FsNode {
            name: String::new(),
            path: String::new(),
            size: 0,
            prev_size: None,
            file_count: 0,
            folder_count: 0,
            modified: None,
            is_dir: false,
            children: Vec::new(),
        }
    }
}

impl Clone for FsNode {
    fn clone(&self) -> (r: Self)
        ensures
            r@ == self@,
    {
        self.duplicate()
    }
}

} // verus!
