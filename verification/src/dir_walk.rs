//! The recursive scan that reports a directory with the aggregated size of
//! each of its immediate children: permission failures are skipped, a
//! cancellation anywhere ends the scan, and a sub-directory that fails for
//! another reason is left out.
//!
//! The filesystem is read outside; what each read returned, and where a
//! cancellation was observed, is handed in as plain values in order.

use vstd::prelude::*;
use crate::listing::{DirRead, ErrorView, IoFailure, IoKind, MetaRead, RawEntry, ScanError, error_view, io_error};
use crate::worker::{DirNode, FsEntry, entry_view, fs_entries_view};

verus! {

/// One step of iterating a directory during the walk.
#[derive(Debug)]
pub enum WalkEntry {
    /// The scan had been cancelled when this point was reached.
    Cancelled,
    /// Iterating failed here.
    Failed(IoFailure),
    /// An entry whose metadata could not be read.
    Unreadable(String),
    /// A file and its length.
    File { path: String, len: u64 },
    /// A sub-directory and its own walk.
    Dir(DirWalk),
}

/// What was found when a directory was reached.
#[derive(Debug)]
pub enum WalkOutcome {
    /// The scan had been cancelled.
    Cancelled,
    /// The directory could not be opened.
    OpenFailed(IoFailure),
    /// The directory was opened; these are the iteration steps in order.
    Opened(Vec<WalkEntry>),
}

/// The walk of one directory.
#[derive(Debug)]
pub struct DirWalk {
    /// The directory.
    pub path: String,
    /// What was found there.
    pub outcome: WalkOutcome,
}

/// The total size and the immediate children found by a walk, or the
/// error that ended it.
pub open spec fn walk_result(w: DirWalk) -> Result<(int, Seq<(Seq<char>, bool, u64)>), ErrorView>
    decreases w, 1nat,
{
    match w.outcome {
        WalkOutcome::Cancelled => Err(ErrorView::Cancelled),
        WalkOutcome::OpenFailed(f) => if f.kind == IoKind::PermissionDenied {
            Ok((0, seq![]))
        } else {
            Err(io_error(w.path@, f))
        },
        WalkOutcome::Opened(steps) => walk_steps(w.path@, steps@),
    }
}

/// The walk of the iteration steps `s` of directory `dir`: a cancellation
/// or a failure other than a permission denial ends it with an error;
/// permission failures and unreadable entries are skipped; files count
/// with their length; a sub-directory counts with its own total unless its
/// walk failed (a cancellation below ends this walk too).
pub open spec fn walk_steps(dir: Seq<char>, s: Seq<WalkEntry>) -> Result<(int, Seq<(Seq<char>, bool, u64)>), ErrorView>
    decreases s, 0nat,
{
    if s.len() == 0 {
        Ok((0, seq![]))
    } else {
        match walk_steps(dir, s.drop_last()) {
            Err(e) => Err(e),
            Ok(acc) => match s.last() {
                WalkEntry::Cancelled => Err(ErrorView::Cancelled),
                WalkEntry::Failed(f) => if f.kind == IoKind::PermissionDenied {
                    Ok(acc)
                } else {
                    Err(io_error(dir, f))
                },
                WalkEntry::Unreadable(_) => Ok(acc),
                WalkEntry::File { path, len } => Ok((acc.0 + len, acc.1.push((path@, false, len)))),
                WalkEntry::Dir(d) => match walk_result(d) {
                    Ok(sub) => Ok((acc.0 + sub.0, acc.1.push((d.path@, true, sub.0 as u64)))),
                    Err(ErrorView::Cancelled) => Err(ErrorView::Cancelled),
                    Err(_) => Ok(acc),
                },
            },
        }
    }
}

/// Every running total of the walk fits in `u64`.
pub open spec fn walk_fits(w: DirWalk) -> bool
    decreases w, 1nat,
{
    match w.outcome {
        WalkOutcome::Opened(steps) => steps_fit(w.path@, steps@),
        _ => true,
    }
}

/// Every running total of the walk of `s` fits in `u64`, and so do those of
/// the sub-directories walked.
pub open spec fn steps_fit(dir: Seq<char>, s: Seq<WalkEntry>) -> bool
    decreases s, 0nat,
{
    &&& forall|k: int|
        0 <= k <= s.len() ==> (#[trigger] walk_steps(dir, s.take(k)) matches Ok(acc) ==> acc.0 <= u64::MAX)
    &&& forall|i: int| #![trigger s[i]] 0 <= i < s.len() ==> (s[i] matches WalkEntry::Dir(d) ==> walk_fits(d))
}

pub(crate) proof fn lemma_walk_nonneg(w: DirWalk)
    ensures
        walk_result(w) matches Ok(acc) ==> acc.0 >= 0,
    decreases w, 1nat,
{
    match w.outcome {
        WalkOutcome::Opened(steps) => {
            assert(decreases_to!(w => w.outcome));
            lemma_steps_nonneg(w.path@, steps@);
        },
        _ => {},
    }
}

proof fn lemma_steps_nonneg(dir: Seq<char>, s: Seq<WalkEntry>)
    ensures
        walk_steps(dir, s) matches Ok(acc) ==> acc.0 >= 0,
    decreases s, 0nat,
{
    if s.len() > 0 {
        lemma_steps_nonneg(dir, s.drop_last());
        match s.last() {
            WalkEntry::Dir(d) => {
                assert(decreases_to!(s => s.last()));
                lemma_walk_nonneg(d);
            },
            _ => {},
        }
    }
}

proof fn lemma_steps_err_sticks(dir: Seq<char>, s: Seq<WalkEntry>, k: int)
    requires
        0 <= k <= s.len(),
        walk_steps(dir, s.take(k)) is Err,
    ensures
        walk_steps(dir, s) == walk_steps(dir, s.take(k)),
    decreases s.len(),
{
    if k == s.len() {
        assert(s.take(k) =~= s);
    } else {
        assert(s.drop_last().take(k) =~= s.take(k));
        lemma_steps_err_sticks(dir, s.drop_last(), k);
    }
}

/// Sum of the sizes of reported entries.
pub open spec fn entries_total(kids: Seq<(Seq<char>, bool, u64)>) -> int
    decreases kids.len(),
{
    if kids.len() == 0 {
        0
    } else {
        entries_total(kids.drop_last()) + kids.last().2
    }
}

proof fn lemma_steps_fit_prefix(dir: Seq<char>, s: Seq<WalkEntry>)
    requires
        s.len() > 0,
        steps_fit(dir, s),
    ensures
        steps_fit(dir, s.drop_last()),
{
    let t = s.drop_last();
    assert forall|k: int| 0 <= k <= t.len() implies (#[trigger] walk_steps(dir, t.take(k)) matches Ok(acc)
        ==> acc.0 <= u64::MAX) by {
        assert(t.take(k) =~= s.take(k));
    }
    assert forall|i: int| 0 <= i < t.len() implies (#[trigger] t[i] matches WalkEntry::Dir(d) ==> walk_fits(d)) by {
        assert(t[i] == s[i]);
    }
}

/// A walk's total is the sum of the sizes reported for its immediate
/// children, each sub-directory reported with its own total: sizes
/// aggregate bottom-up over the whole subtree.
pub proof fn lemma_walk_total_is_sum(w: DirWalk)
    requires
        walk_fits(w),
    ensures
        walk_result(w) matches Ok(acc) ==> acc.0 == entries_total(acc.1),
    decreases w, 1nat,
{
    match w.outcome {
        WalkOutcome::Opened(steps) => {
            assert(decreases_to!(w => w.outcome));
            lemma_steps_total_is_sum(w.path@, steps@);
        },
        _ => {},
    }
}

proof fn lemma_steps_total_is_sum(dir: Seq<char>, s: Seq<WalkEntry>)
    requires
        steps_fit(dir, s),
    ensures
        walk_steps(dir, s) matches Ok(acc) ==> acc.0 == entries_total(acc.1),
    decreases s, 0nat,
{
    if s.len() > 0 {
        lemma_steps_fit_prefix(dir, s);
        lemma_steps_total_is_sum(dir, s.drop_last());
        match walk_steps(dir, s.drop_last()) {
            Ok(acc) => {
                let last = s.last();
                assert(last == s[s.len() - 1]);
                match last {
                    WalkEntry::File { path, len } => {
                        let kids = acc.1.push((path@, false, len));
                        assert(kids.drop_last() =~= acc.1);
                    },
                    WalkEntry::Dir(d) => {
                        assert(decreases_to!(s => s[s.len() - 1]));
                        assert(walk_fits(d));
                        lemma_walk_nonneg(d);
                        lemma_walk_total_is_sum(d);
                        match walk_result(d) {
                            Ok(sub) => {
                                assert(s.take(s.len() as int) =~= s);
                                assert(walk_steps(dir, s.take(s.len() as int)) matches Ok(a) ==> a.0 <= u64::MAX);
                                lemma_steps_nonneg(dir, s.drop_last());
                                let kids = acc.1.push((d.path@, true, sub.0 as u64));
                                assert(kids.drop_last() =~= acc.1);
                            },
                            _ => {},
                        }
                    },
                    _ => {},
                }
            },
            _ => {},
        }
    }
}

/// Walks one directory (see [`walk_result`]).
fn scan_recursive(w: &DirWalk) -> (r: Result<DirNode, ScanError>)
    requires
        walk_fits(*w),
    ensures
        match (r, walk_result(*w)) {
            (Ok(node), Ok(acc)) => node.path@ == w.path@ && node.size == acc.0 && fs_entries_view(node.children@)
                == acc.1,
            (Err(e), Err(ev)) => error_view(e) == ev,
            _ => false,
        },
    decreases w,
{
    let steps = match &w.outcome {
        WalkOutcome::Cancelled => {
            return Err(ScanError::Cancelled);
        },
        WalkOutcome::OpenFailed(f) => {
            if f.kind == IoKind::PermissionDenied {
                let node = DirNode { path: w.path.clone(), size: 0, children: Vec::new() };
                assert(fs_entries_view(node.children@) =~= Seq::<(Seq<char>, bool, u64)>::empty());
                return Ok(node);
            } else {
                return Err(ScanError::Io { path: w.path.clone(), kind: f.kind, message: f.message.clone() });
            }
        },
        WalkOutcome::Opened(steps) => steps,
    };
    let n = steps.len();
    let mut children: Vec<FsEntry> = Vec::new();
    let mut total: u64 = 0;
    assert(steps@.take(0) =~= Seq::<WalkEntry>::empty());
    assert(fs_entries_view(children@) =~= Seq::<(Seq<char>, bool, u64)>::empty());
    for i in 0..n
        invariant
            n == steps@.len(),
            w.outcome == WalkOutcome::Opened(*steps),
            steps_fit(w.path@, steps@),
            walk_steps(w.path@, steps@.take(i as int)) matches Ok(acc) && acc.0 == total
                && acc.1 == fs_entries_view(children@),
    {
        let ghost pre = steps@.take(i as int);
        let ghost post = steps@.take(i + 1);
        proof {
            assert(post.drop_last() =~= pre);
            assert(post.last() == steps@[i as int]);
            assert(walk_steps(w.path@, post) matches Ok(acc) ==> acc.0 <= u64::MAX);
        }
        let ghost before = children@;
        match &steps[i] {
            WalkEntry::Cancelled => {
                proof {
                    lemma_steps_err_sticks(w.path@, steps@, i + 1);
                }
                return Err(ScanError::Cancelled);
            },
            WalkEntry::Failed(f) => {
                if f.kind != IoKind::PermissionDenied {
                    proof {
                        lemma_steps_err_sticks(w.path@, steps@, i + 1);
                    }
                    return Err(ScanError::Io { path: w.path.clone(), kind: f.kind, message: f.message.clone() });
                }
            },
            WalkEntry::Unreadable(_) => {},
            WalkEntry::File { path, len } => {
                total = total + *len;
                children.push(FsEntry { path: path.clone(), is_dir: false, size: *len });
                assert(fs_entries_view(children@) =~= fs_entries_view(before).push((path@, false, *len)));
            },
            WalkEntry::Dir(d) => {
                proof {
                    assert(decreases_to!(w => w.outcome));
                    assert(decreases_to!(w.outcome => w.outcome->Opened_0));
                    assert(decreases_to!(*steps => steps@));
                    assert(decreases_to!(steps@ => steps@[i as int]));
                    assert(decreases_to!(steps@[i as int] => steps@[i as int]->Dir_0));
                    assert(steps@[i as int] matches WalkEntry::Dir(dd) ==> walk_fits(dd));
                    lemma_walk_nonneg(*d);
                }
                match scan_recursive(d) {
                    Ok(sub) => {
                        let size = sub.size;
                        total = total + size;
                        children.push(FsEntry { path: d.path.clone(), is_dir: true, size });
                        assert(fs_entries_view(children@) =~= fs_entries_view(before).push((d.path@, true, size)));
                    },
                    Err(e) => {
                        match e {
                            ScanError::Cancelled => {
                                proof {
                                    lemma_steps_err_sticks(w.path@, steps@, i + 1);
                                }
                                return Err(ScanError::Cancelled);
                            },
                            _ => {},
                        }
                    },
                }
            },
        }
    }
    assert(steps@.take(n as int) =~= steps@);
    Ok(DirNode { path: w.path.clone(), size: total, children })
}

/// Scans the directory walked by `root`, reporting it with the total size
/// of its subtree and its immediate children (sub-directories with the
/// total size of theirs). Fails when the scan was cancelled or a directory
/// on the way failed for a reason other than a permission denial (failing
/// sub-directories are left out instead, unless cancelled).
pub fn scan_dir_sync(root: &DirWalk) -> (r: Result<DirNode, ScanError>)
    requires
        walk_fits(*root),
    ensures
        match (r, walk_result(*root)) {
            (Ok(node), Ok(acc)) => node.path@ == root.path@ && node.size == acc.0 && fs_entries_view(
                node.children@,
            ) == acc.1,
            (Err(e), Err(ev)) => error_view(e) == ev,
            _ => false,
        },
{
    scan_recursive(root)
}

/// The entries listed from the iteration steps `s` of `dir`: permission
/// denials are skipped; any other failure ends the listing with an error,
/// naming the entry when its metadata could not be read; every entry is
/// listed with the length its metadata reports.
pub open spec fn listed_entries(dir: Seq<char>, s: Seq<RawEntry>) -> Result<Seq<(Seq<char>, bool, u64)>, ErrorView>
    decreases s.len(),
{
    if s.len() == 0 {
        Ok(seq![])
    } else {
        match listed_entries(dir, s.drop_last()) {
            Err(e) => Err(e),
            Ok(rows) => match s.last() {
                RawEntry::Failed(f) => if f.kind == IoKind::PermissionDenied {
                    Ok(rows)
                } else {
                    Err(io_error(dir, f))
                },
                RawEntry::Entry { path, meta } => match meta {
                    MetaRead::Read { is_dir, len } => Ok(rows.push((path@, is_dir, len))),
                    MetaRead::Failed { failure, .. } => if failure.kind == IoKind::PermissionDenied {
                        Ok(rows)
                    } else {
                        Err(io_error(path@, failure))
                    },
                },
            },
        }
    }
}

proof fn lemma_listed_entries_err_sticks(dir: Seq<char>, s: Seq<RawEntry>, k: int)
    requires
        0 <= k <= s.len(),
        listed_entries(dir, s.take(k)) is Err,
    ensures
        listed_entries(dir, s) == listed_entries(dir, s.take(k)),
    decreases s.len(),
{
    if k == s.len() {
        assert(s.take(k) =~= s);
    } else {
        assert(s.drop_last().take(k) =~= s.take(k));
        lemma_listed_entries_err_sticks(dir, s.drop_last(), k);
    }
}

/// Reads one directory level of `dir`: a directory that cannot be opened
/// is an error; while listing, permission denials are skipped and any
/// other failure is returned (see [`listed_entries`]).
pub fn read_dir_immediate(dir: &str, read: &DirRead) -> (r: Result<Vec<FsEntry>, ScanError>)
    ensures
        match read {
            DirRead::Failed(f) => r matches Err(e) && error_view(e) == io_error(dir@, *f),
            DirRead::Opened(steps) => match (r, listed_entries(dir@, steps@)) {
                (Ok(v), Ok(rows)) => fs_entries_view(v@) == rows,
                (Err(e), Err(ev)) => error_view(e) == ev,
                _ => false,
            },
        },
{
    let steps = match read {
        DirRead::Failed(f) => {
            return Err(ScanError::Io { path: dir.to_string(), kind: f.kind, message: f.message.clone() });
        },
        DirRead::Opened(steps) => steps,
    };
    let n = steps.len();
    let mut out: Vec<FsEntry> = Vec::new();
    assert(steps@.take(0) =~= Seq::<RawEntry>::empty());
    assert(fs_entries_view(out@) =~= Seq::<(Seq<char>, bool, u64)>::empty());
    for i in 0..n
        invariant
            n == steps@.len(),
            *read == DirRead::Opened(*steps),
            listed_entries(dir@, steps@.take(i as int)) matches Ok(rows) && rows == fs_entries_view(out@),
    {
        let ghost pre = steps@.take(i as int);
        let ghost post = steps@.take(i + 1);
        proof {
            assert(post.drop_last() =~= pre);
            assert(post.last() == steps@[i as int]);
        }
        let ghost before = fs_entries_view(out@);
        match &steps[i] {
            RawEntry::Failed(f) => {
                if f.kind != IoKind::PermissionDenied {
                    proof {
                        lemma_listed_entries_err_sticks(dir@, steps@, i + 1);
                    }
                    return Err(ScanError::Io { path: dir.to_string(), kind: f.kind, message: f.message.clone() });
                }
            },
            RawEntry::Entry { path, meta } => {
                match meta {
                    MetaRead::Read { is_dir, len } => {
                        out.push(FsEntry { path: path.clone(), is_dir: *is_dir, size: *len });
                        assert(fs_entries_view(out@) =~= before.push((path@, *is_dir, *len)));
                    },
                    MetaRead::Failed { failure, .. } => {
                        if failure.kind != IoKind::PermissionDenied {
                            proof {
                                lemma_listed_entries_err_sticks(dir@, steps@, i + 1);
                            }
                            return Err(
                                ScanError::Io {
                                    path: path.clone(),
                                    kind: failure.kind,
                                    message: failure.message.clone(),
                                },
                            );
                        }
                    },
                }
            },
        }
    }
    assert(steps@.take(n as int) =~= steps@);
    Ok(out)
}

} // verus!
