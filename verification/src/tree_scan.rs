//! The recursive scan that builds the in-memory tree: every node carries
//! its name, path and modification time, and directories aggregate the
//! sizes and counts of their subtree.
//!
//! The filesystem is read outside; what was found at each path is handed
//! in as plain values.

use vstd::prelude::*;
use crate::calendar::{format_system_time, iso_text};
use crate::fs_node::{FsNode, NodeView, forest_view, lemma_children_view};
use crate::tree::{recalc, recalc_fits, recalculate_sizes};
use crate::listing::IoFailure;
use crate::worker::paths_view;

verus! {

/// What reading a path's metadata returned.
#[derive(Debug, Clone, Copy, PartialEq, Eq)]
pub struct PathMeta {
    /// Whether the path is a directory.
    pub is_dir: bool,
    /// Length in bytes.
    pub len: u64,
    /// Modification time in seconds since the epoch, when known.
    pub modified_secs: Option<u64>,
}

/// What was found at one path: its metadata (when it could be read) and,
/// for a directory, what was found at each entry that could be listed.
#[derive(Debug)]
pub struct PathScan {
    /// The path.
    pub path: String,
    /// Its last component (the whole path when it has none).
    pub name: String,
    /// Its metadata, or `None` when it could not be read.
    pub meta: Option<PathMeta>,
    /// The entries of a directory, in listing order.
    pub entries: Vec<PathScan>,
}

/// The modification time shown for a node.
pub open spec fn modified_text(meta: Option<PathMeta>) -> Option<Seq<char>> {
    match meta {
        Some(m) => match m.modified_secs {
            Some(s) => Some(iso_text(s as nat)),
            None => None,
        },
        None => None,
    }
}

/// Whether a scanned path is a directory (unreadable metadata counts as a
/// file).
pub open spec fn scanned_dir(p: PathScan) -> bool {
    p.meta matches Some(m) && m.is_dir
}

/// The tree read at `p`, before aggregation: a file has its length (0 when
/// its metadata could not be read) and no children; a directory has its
/// scanned entries as children.
pub open spec fn read_tree(p: PathScan) -> NodeView
    decreases p,
{
    NodeView {
        name: p.name@,
        path: p.path@,
        size: if scanned_dir(p) {
            0
        } else {
            match p.meta {
                Some(m) => m.len,
                None => 0,
            }
        },
        prev_size: None,
        file_count: 0,
        folder_count: 0,
        modified: modified_text(p.meta),
        is_dir: scanned_dir(p),
        children: if scanned_dir(p) {
            Seq::new(
                p.entries@.len(),
                |i: int|
                    if 0 <= i < p.entries@.len() {
                        read_tree(p.entries@[i])
                    } else {
                        arbitrary()
                    },
            )
        } else {
            seq![]
        },
    }
}

/// Builds the tree read at `p` (see [`read_tree`]).
fn build(p: &PathScan) -> (n: FsNode)
    ensures
        n@ == read_tree(*p),
    decreases p,
{
    let is_dir = match p.meta {
        Some(m) => m.is_dir,
        None => false,
    };
    let size = if is_dir {
        0
    } else {
        match p.meta {
            Some(m) => m.len,
            None => 0,
        }
    };
    let modified = match p.meta {
        Some(m) => match m.modified_secs {
            Some(s) => Some(format_system_time(s)),
            None => None,
        },
        None => None,
    };
    let mut children: Vec<FsNode> = Vec::new();
    if is_dir {
        let n = p.entries.len();
        for i in 0..n
            invariant
                n == p.entries@.len(),
                children@.len() == i,
                forall|j: int| 0 <= j < i ==> #[trigger] children@[j]@ == read_tree(p.entries@[j]),
        {
            proof {
                assert(decreases_to!(p => p.entries));
                assert(decreases_to!(p.entries => p.entries@));
                assert(decreases_to!(p.entries@ => p.entries@[i as int]));
            }
            children.push(build(&p.entries[i]));
        }
    }
    let ghost kids = children@;
    let node = FsNode {
        name: p.name.clone(),
        path: p.path.clone(),
        size,
        prev_size: None,
        file_count: 0,
        folder_count: 0,
        modified,
        is_dir,
        children,
    };
    proof {
        lemma_children_view(node);
        let want = read_tree(*p);
        assert(node@.children == forest_view(kids));
        assert forall|j: int| 0 <= j < want.children.len() implies #[trigger] node@.children[j] == want.children[j] by {
            assert(node@.children[j] == kids[j]@);
        }
        assert(node@.children =~= want.children);
        assert(node@.modified == modified_text(p.meta));
    }
    node
}

/// Recursively scans the tree read at `root`, summing sizes bottom-up:
/// every directory's size is the sum of its children's sizes, its file
/// count the number of files below it and its folder count the number of
/// directories below it; files keep their length. Entries that could not
/// be read count as empty files.
pub fn scan_dir_sync(root: &PathScan) -> (node: FsNode)
    requires
        recalc_fits(read_tree(*root)),
    ensures
        node@ == recalc(read_tree(*root)),
{
    let mut node = build(root);
    recalculate_sizes(&mut node);
    node
}

/// One step of listing a directory's immediate contents.
#[derive(Debug)]
pub enum EntryRead {
    /// An entry: its path, its last component, and its metadata when it
    /// could be read.
    Entry { path: String, name: String, meta: Option<PathMeta> },
    /// Iterating failed here.
    Failed(IoFailure),
}

/// What opening and listing a directory returned.
#[derive(Debug)]
pub enum ListRead {
    /// The directory was opened; these are the listing steps in order.
    Opened(Vec<EntryRead>),
    /// The directory could not be opened.
    Failed(IoFailure),
}

/// The node for a listed entry: a sub-directory with size 0 and no
/// children yet, a file with its length (0 when its metadata could not be
/// read).
pub open spec fn entry_node(path: Seq<char>, name: Seq<char>, meta: Option<PathMeta>) -> NodeView {
    let is_dir = meta matches Some(m) && m.is_dir;
    NodeView {
        name,
        path,
        size: if is_dir {
            0
        } else {
            match meta {
                Some(m) => m.len,
                None => 0,
            }
        },
        prev_size: None,
        file_count: 0,
        folder_count: 0,
        modified: modified_text(meta),
        is_dir,
        children: seq![],
    }
}

/// The nodes listed from the steps `s`, or the first failure.
pub open spec fn listed_nodes(s: Seq<EntryRead>) -> Result<Seq<NodeView>, IoFailure>
    decreases s.len(),
{
    if s.len() == 0 {
        Ok(seq![])
    } else {
        match listed_nodes(s.drop_last()) {
            Err(f) => Err(f),
            Ok(nodes) => match s.last() {
                EntryRead::Failed(f) => Err(f),
                EntryRead::Entry { path, name, meta } => Ok(nodes.push(entry_node(path@, name@, meta))),
            },
        }
    }
}

proof fn lemma_listed_err_sticks(s: Seq<EntryRead>, k: int)
    requires
        0 <= k <= s.len(),
        listed_nodes(s.take(k)) is Err,
    ensures
        listed_nodes(s) == listed_nodes(s.take(k)),
    decreases s.len(),
{
    if k == s.len() {
        assert(s.take(k) =~= s);
    } else {
        assert(s.drop_last().take(k) =~= s.take(k));
        lemma_listed_err_sticks(s.drop_last(), k);
    }
}

/// Reads one directory's immediate contents without recursing: every
/// failure, opening the directory or listing it, is returned;
/// sub-directories come with size 0 and no children (they are scanned
/// later).
pub fn read_dir_immediate(read: &ListRead) -> (r: Result<Vec<FsNode>, IoFailure>)
    ensures
        match read {
            ListRead::Failed(f) => r matches Err(e) && e.kind == f.kind && e.message@ == f.message@,
            ListRead::Opened(steps) => match (r, listed_nodes(steps@)) {
                (Ok(v), Ok(nodes)) => forest_view(v@) == nodes,
                (Err(e), Err(f)) => e.kind == f.kind && e.message@ == f.message@,
                _ => false,
            },
        },
{
    let steps = match read {
        ListRead::Failed(f) => {
            return Err(IoFailure { kind: f.kind, message: f.message.clone() });
        },
        ListRead::Opened(steps) => steps,
    };
    let n = steps.len();
    let mut out: Vec<FsNode> = Vec::new();
    assert(steps@.take(0) =~= Seq::<EntryRead>::empty());
    assert(forest_view(out@) =~= Seq::<NodeView>::empty());
    for i in 0..n
        invariant
            n == steps@.len(),
            *read == ListRead::Opened(*steps),
            listed_nodes(steps@.take(i as int)) == Ok::<Seq<NodeView>, IoFailure>(forest_view(out@)),
    {
        let ghost pre = steps@.take(i as int);
        let ghost post = steps@.take(i + 1);
        proof {
            assert(post.drop_last() =~= pre);
            assert(post.last() == steps@[i as int]);
        }
        match &steps[i] {
            EntryRead::Failed(f) => {
                proof {
                    lemma_listed_err_sticks(steps@, i + 1);
                }
                return Err(IoFailure { kind: f.kind, message: f.message.clone() });
            },
            EntryRead::Entry { path, name, meta } => {
                let is_dir = match meta {
                    Some(m) => m.is_dir,
                    None => false,
                };
                let mut node = FsNode::new(name.as_str(), path.as_str(), is_dir);
                if !is_dir {
                    node.size = match meta {
                        Some(m) => m.len,
                        None => 0,
                    };
                }
                node.modified = match meta {
                    Some(m) => match m.modified_secs {
                        Some(secs) => Some(format_system_time(secs)),
                        None => None,
                    },
                    None => None,
                };
                assert(node@.children =~= Seq::<NodeView>::empty());
                assert(node@ == entry_node(path@, name@, *meta));
                let ghost before = forest_view(out@);
                out.push(node);
                assert(forest_view(out@) =~= before.push(entry_node(path@, name@, *meta)));
            },
        }
    }
    assert(steps@.take(n as int) =~= steps@);
    Ok(out)
}


/// The paths of the directories among `s`, in order.
pub open spec fn dir_paths(s: Seq<NodeView>) -> Seq<Seq<char>>
    decreases s.len(),
{
    if s.len() == 0 {
        seq![]
    } else {
        dir_paths(s.drop_last()) + if s.last().is_dir {
            seq![s.last().path]
        } else {
            Seq::<Seq<char>>::empty()
        }
    }
}

/// The paths of the sub-directories among a directory's listed children,
/// in listing order: the directories still to be scanned.
pub fn sub_dir_paths(children: &Vec<FsNode>) -> (paths: Vec<String>)
    ensures
        paths_view(paths@) == dir_paths(forest_view(children@)),
{
    let mut out: Vec<String> = Vec::new();
    let n = children.len();
    for i in 0..n
        invariant
            n == children@.len(),
            paths_view(out@) == dir_paths(forest_view(children@).take(i as int)),
    {
        let ghost f = forest_view(children@);
        proof {
            assert(f.take(i + 1).drop_last() =~= f.take(i as int));
            assert(f.take(i + 1).last() == f[i as int]);
        }
        let ghost before = paths_view(out@);
        if children[i].is_dir {
            out.push(children[i].path.clone());
            assert(paths_view(out@) =~= before + seq![f[i as int].path]);
        } else {
            assert(paths_view(out@) =~= before + Seq::<Seq<char>>::empty());
        }
    }
    assert(forest_view(children@).take(n as int) =~= forest_view(children@));
    out
}

} // verus!
