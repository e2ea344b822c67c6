//! Decisions the application view makes on user requests: expanding and
//! collapsing a directory, and comparing two saved scans.

use vstd::prelude::*;
use crate::db_node::{DbNode, rows_view};
use crate::flatten::ExpandedPaths;
use crate::fs_node::FsNode;
use crate::paths::{canonical_path, path_key};
use crate::persist::{build_fs_tree, built_tree};
use crate::tree::{baseline_of, build_baseline_map, merge_baseline, merged};

verus! {

/// The set of expanded paths after toggling `p`: removed when it was
/// expanded, added when it was not.
pub open spec fn toggled(s: Set<Seq<char>>, p: Seq<char>) -> Set<Seq<char>> {
    if s.contains(p) {
        s.remove(p)
    } else {
        s.insert(p)
    }
}

/// Expands `path` when it is collapsed and collapses it when it is
/// expanded (the set holds paths by their canonical text).
pub fn toggle_expanded(expanded: &mut ExpandedPaths, path: &str)
    ensures
        final(expanded)@ == toggled(old(expanded)@, path_key(path@)),
{
    let key = canonical_path(path);
    if expanded.contains(key.as_str()) {
        expanded.remove(key.as_str());
    } else {
        expanded.insert(key);
    }
}

/// Toggling the same path twice leaves the expanded set as it was.
pub proof fn lemma_toggle_twice(s: Set<Seq<char>>, p: Seq<char>)
    ensures
        toggled(toggled(s, p), p) == s,
{
    if s.contains(p) {
        assert(s.remove(p).insert(p) =~= s);
    } else {
        assert(s.insert(p).remove(p) =~= s);
    }
}

/// Toggling one path leaves whether any other path is expanded unchanged.
pub proof fn lemma_toggle_others(s: Set<Seq<char>>, p: Seq<char>, q: Seq<char>)
    requires
        p != q,
    ensures
        toggled(s, p).contains(q) == s.contains(q),
        toggled(s, p).contains(p) == !s.contains(p),
{
}

/// The tree to show when comparing the scan stored as `base_nodes` with the
/// later scan stored as `new_nodes`: the later scan's tree, with each
/// node's previous size taken from the earlier scan's node with the same
/// path. `None` when the later scan's rows hold no tree.
pub fn compare_scans(base_nodes: &Vec<DbNode>, new_nodes: &Vec<DbNode>) -> (tree: Option<FsNode>)
    ensures
        match (tree, built_tree(rows_view(new_nodes@))) {
            (Some(t), Some(b)) => t@ == merged(b, baseline_of(base_nodes@)),
            (None, None) => true,
            _ => false,
        },
{
    let root = match build_fs_tree(new_nodes) {
        Some(r) => r,
        None => return None,
    };
    let baseline = build_baseline_map(base_nodes.as_slice());
    let mut roots: Vec<FsNode> = Vec::new();
    roots.push(root);
    merge_baseline(&mut roots, &baseline);
    let root = roots.remove(0);
    Some(root)
}

} // verus!
