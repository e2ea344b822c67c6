//! What a scanner worker makes of one directory: the node it reports with
//! the aggregated size of its subtree, the errors it reports, and the
//! sub-directories it queues for other workers.
//!
//! The reads happen outside; what they returned, and where a cancellation
//! was observed, is handed in as plain values in the order they were made.

use vstd::prelude::*;
use crate::dir_walk::{DirWalk, lemma_walk_nonneg, scan_dir_sync, walk_result};
use crate::dir_walk::walk_fits as subtree_fits;
use crate::listing::{ErrorView, IoFailure, IoKind, ScanError};

verus! {

/// A single filesystem entry (file or directory) found in a directory.
#[derive(Debug)]
pub struct FsEntry {
    /// Path of this entry.
    pub path: String,
    /// `true` if this entry is a directory.
    pub is_dir: bool,
    /// Size in bytes. For a directory this is the aggregated size of its
    /// subtree when it comes from the recursive scan
    /// (`dir_walk::scan_dir_sync`), and the length its metadata reports
    /// otherwise.
    pub size: u64,
}

/// A scanned directory with the aggregated size of its subtree (the total
/// size of all files reachable from it) and its immediate children.
#[derive(Debug)]
pub struct DirNode {
    /// Path of this directory.
    pub path: String,
    /// Total size in bytes of all files reachable from this directory.
    pub size: u64,
    /// Immediate children (files and sub-directories).
    pub children: Vec<FsEntry>,
}

/// A non-fatal error to report for a directory.
#[derive(Debug)]
pub struct ErrorNote {
    /// The directory being scanned.
    pub path: String,
    /// Description of the failure.
    pub error: String,
}

/// One observation made while iterating a directory.
#[derive(Debug)]
pub enum WorkerStep {
    /// The scan had been cancelled when this point was reached.
    Cancelled,
    /// Iterating failed at this point.
    Failed(IoFailure),
    /// An entry whose metadata could not be read.
    Unreadable(String),
    /// A file and its length.
    File { path: String, len: u64 },
    /// A sub-directory, the length its metadata reports, and the walk of
    /// its subtree that gives its aggregated size.
    Dir { path: String, len: u64, subtree: DirWalk },
}

/// What opening a directory and iterating it returned.
#[derive(Debug)]
pub enum WorkerRead {
    /// The directory could not be opened.
    Failed(IoFailure),
    /// The directory was opened; these are the observations in order.
    Opened(Vec<WorkerStep>),
}

/// What the worker does with one directory: report these errors (in
/// order), queue these sub-directories, then report the node if any.
#[derive(Debug)]
pub struct DirOutcome {
    /// Errors to report, in order.
    pub errors: Vec<ErrorNote>,
    /// Sub-directories to queue, in listing order.
    pub sub_dirs: Vec<String>,
    /// The scanned directory, unless it was skipped or cancelled.
    pub node: Option<DirNode>,
}

/// Progress of the walk over a directory's observations.
pub struct WalkView {
    pub errors: Seq<Seq<char>>,
    pub children: Seq<(Seq<char>, bool, u64)>,
    pub sub_dirs: Seq<Seq<char>>,
    pub total: int,
    pub cancelled: bool,
}

/// The aggregated size a sub-directory adds to its parent: the total of
/// its recursive walk, or nothing when that walk failed; `None` when the
/// walk was cancelled.
pub open spec fn subtree_share(d: DirWalk) -> Option<int> {
    match walk_result(d) {
        Ok(acc) => Some(acc.0),
        Err(ErrorView::Cancelled) => None,
        Err(_) => Some(0),
    }
}

/// The walk after the observations `steps`: a cancellation (here or in the
/// walk of a sub-directory's subtree) stops it; permission failures are
/// skipped; other iteration failures are noted and skipped; entries whose
/// metadata cannot be read are skipped; files are listed and summed;
/// sub-directories are listed with the length their metadata reports,
/// queued, and summed with the aggregated size of their subtree.
pub open spec fn walk(steps: Seq<WorkerStep>) -> WalkView
    decreases steps.len(),
{
    if steps.len() == 0 {
        WalkView { errors: seq![], children: seq![], sub_dirs: seq![], total: 0, cancelled: false }
    } else {
        let w = walk(steps.drop_last());
        if w.cancelled {
            w
        } else {
            match steps.last() {
                WorkerStep::Cancelled => WalkView { cancelled: true, ..w },
                WorkerStep::Failed(f) => if f.kind == IoKind::PermissionDenied {
                    w
                } else {
                    WalkView { errors: w.errors.push(f.message@), ..w }
                },
                WorkerStep::Unreadable(_) => w,
                WorkerStep::File { path, len } => WalkView {
                    children: w.children.push((path@, false, len)),
                    total: w.total + len,
                    ..w
                },
                WorkerStep::Dir { path, len, subtree } => match subtree_share(subtree) {
                    None => WalkView { cancelled: true, ..w },
                    Some(share) => WalkView {
                        children: w.children.push((path@, true, len)),
                        sub_dirs: w.sub_dirs.push(path@),
                        total: w.total + share,
                        ..w
                    },
                },
            }
        }
    }
}

/// The aggregated size fits in `u64`, and so does every running total of
/// the walks of the sub-directories' subtrees.
pub open spec fn walk_fits(steps: Seq<WorkerStep>) -> bool {
    &&& walk(steps).total <= u64::MAX
    &&& forall|i: int| #![trigger steps[i]] 0 <= i < steps.len()
        ==> (steps[i] matches WorkerStep::Dir { subtree, .. } ==> subtree_fits(subtree))
}

proof fn lemma_walk_step(steps: Seq<WorkerStep>)
    requires
        steps.len() > 0,
    ensures
        walk(steps.drop_last()).total <= walk(steps).total,
        walk(steps.drop_last()).cancelled ==> walk(steps) == walk(steps.drop_last()),
{
    match steps.last() {
        WorkerStep::Dir { subtree, .. } => {
            lemma_walk_nonneg(subtree);
        },
        _ => {},
    }
}

proof fn lemma_walk_monotone(steps: Seq<WorkerStep>, k: int)
    requires
        0 <= k <= steps.len(),
    ensures
        0 <= walk(steps.take(k)).total <= walk(steps).total,
        walk(steps.take(k)).cancelled ==> walk(steps) == walk(steps.take(k)),
    decreases steps.len(),
{
    if steps.len() == 0 {
        assert(steps.take(k) =~= steps);
    } else {
        lemma_walk_step(steps);
        if k == steps.len() {
            assert(steps.take(k) =~= steps);
            lemma_walk_monotone(steps.drop_last(), k - 1);
            assert(steps.drop_last().take(k - 1) =~= steps.drop_last());
        } else {
            lemma_walk_monotone(steps.drop_last(), k);
            assert(steps.drop_last().take(k) =~= steps.take(k));
        }
    }
}

/// The view of an entry.
pub open spec fn entry_view(e: FsEntry) -> (Seq<char>, bool, u64) {
    (e.path@, e.is_dir, e.size)
}

/// The views of error notes' messages.
pub open spec fn notes_view(s: Seq<ErrorNote>) -> Seq<Seq<char>> {
    Seq::new(s.len(), |i: int| s[i].error@)
}

/// Every note names `dir`.
pub open spec fn notes_for(s: Seq<ErrorNote>, dir: Seq<char>) -> bool {
    forall|i: int| 0 <= i < s.len() ==> #[trigger] s[i].path@ == dir
}

/// The views of entries.
pub open spec fn fs_entries_view(s: Seq<FsEntry>) -> Seq<(Seq<char>, bool, u64)> {
    Seq::new(s.len(), |i: int| entry_view(s[i]))
}

/// The views of paths.
pub open spec fn paths_view(s: Seq<String>) -> Seq<Seq<char>> {
    Seq::new(s.len(), |i: int| s[i]@)
}

/// Processes one directory from what reading it returned: a directory that
/// cannot be opened for lack of permission is skipped silently, any other
/// failure to open it is reported; otherwise the observations are walked
/// (see [`walk`]). A cancelled walk reports its errors so far and nothing
/// else; a complete one queues the sub-directories and reports the node
/// with the aggregated size of the directory: its files and the subtrees
/// of its sub-directories.
pub fn process_directory(dir_path: &str, read: &WorkerRead) -> (out: DirOutcome)
    requires
        read matches WorkerRead::Opened(steps) ==> walk_fits(steps@),
    ensures
        notes_for(out.errors@, dir_path@),
        match *read {
            WorkerRead::Failed(f) => {
                &&& out.sub_dirs@.len() == 0
                &&& out.node is None
                &&& notes_view(out.errors@) == (if f.kind == IoKind::PermissionDenied {
                    Seq::<Seq<char>>::empty()
                } else {
                    seq![f.message@]
                })
            },
            WorkerRead::Opened(steps) => {
                let w = walk(steps@);
                &&& notes_view(out.errors@) == w.errors
                &&& if w.cancelled {
                    out.sub_dirs@.len() == 0 && out.node is None
                } else {
                    &&& paths_view(out.sub_dirs@) == w.sub_dirs
                    &&& out.node matches Some(node) && node.path@ == dir_path@ && node.size == w.total
                        && fs_entries_view(node.children@) == w.children
                }
            },
        },
{
    match read {
        WorkerRead::Failed(f) => {
            let mut errors: Vec<ErrorNote> = Vec::new();
            if f.kind != IoKind::PermissionDenied {
                errors.push(ErrorNote { path: dir_path.to_string(), error: f.message.clone() });
            }
            let out = DirOutcome { errors, sub_dirs: Vec::new(), node: None };
            assert(notes_view(out.errors@) =~= (if f.kind == IoKind::PermissionDenied {
                Seq::<Seq<char>>::empty()
            } else {
                seq![f.message@]
            }));
            out
        },
        WorkerRead::Opened(steps) => {
            let n = steps.len();
            let mut errors: Vec<ErrorNote> = Vec::new();
            let mut children: Vec<FsEntry> = Vec::new();
            let mut sub_dirs: Vec<String> = Vec::new();
            let mut total: u64 = 0;
            let mut i: usize = 0;
            while i < n
                invariant
                    n == steps@.len(),
                    *read == WorkerRead::Opened(*steps),
                    walk_fits(steps@),
                    0 <= i <= n,
                    notes_for(errors@, dir_path@),
                    notes_view(errors@) == walk(steps@.take(i as int)).errors,
                    fs_entries_view(children@) == walk(steps@.take(i as int)).children,
                    paths_view(sub_dirs@) == walk(steps@.take(i as int)).sub_dirs,
                    total == walk(steps@.take(i as int)).total,
                    !walk(steps@.take(i as int)).cancelled,
                decreases n - i,
            {
                proof {
                    assert(steps@.take(i + 1).drop_last() =~= steps@.take(i as int));
                    assert(steps@.take(i + 1).last() == steps@[i as int]);
                    lemma_walk_monotone(steps@, i + 1);
                }
                let ghost w0 = walk(steps@.take(i as int));
                match &steps[i] {
                    WorkerStep::Cancelled => {
                        proof {
                            lemma_walk_monotone(steps@, i + 1);
                        }
                        return DirOutcome { errors, sub_dirs: Vec::new(), node: None };
                    },
                    WorkerStep::Failed(f) => {
                        if f.kind != IoKind::PermissionDenied {
                            errors.push(ErrorNote { path: dir_path.to_string(), error: f.message.clone() });
                            assert(notes_view(errors@) =~= w0.errors.push(f.message@));
                        }
                    },
                    WorkerStep::Unreadable(_) => {},
                    WorkerStep::File { path, len } => {
                        total = total + *len;
                        children.push(FsEntry { path: path.clone(), is_dir: false, size: *len });
                        assert(fs_entries_view(children@) =~= w0.children.push((path@, false, *len)));
                    },
                    WorkerStep::Dir { path, len, subtree } => {
                        proof {
                            assert(steps@[i as int] matches WorkerStep::Dir { subtree, .. } ==> subtree_fits(subtree));
                            lemma_walk_nonneg(*subtree);
                        }
                        let share: u64 = match scan_dir_sync(subtree) {
                            Ok(node) => node.size,
                            Err(ScanError::Cancelled) => {
                                return DirOutcome { errors, sub_dirs: Vec::new(), node: None };
                            },
                            Err(_) => 0,
                        };
                        total = total + share;
                        sub_dirs.push(path.clone());
                        children.push(FsEntry { path: path.clone(), is_dir: true, size: *len });
                        assert(paths_view(sub_dirs@) =~= w0.sub_dirs.push(path@));
                        assert(fs_entries_view(children@) =~= w0.children.push((path@, true, *len)));
                    },
                }
                i = i + 1;
            }
            assert(steps@.take(n as int) =~= steps@);
            DirOutcome {
                errors,
                sub_dirs,
                node: Some(DirNode { path: dir_path.to_string(), size: total, children }),
            }
        },
    }
}

} // verus!
