use storage_wars::listing::{
    is_permission_error, read_dir_immediate, scan_dir_sync, ChildVisit, DirEntry, DirRead, DirVisit,
    IoFailure, IoKind, MetaRead, RawEntry, ScanError, VisitOutcome,
};
use storage_wars::work_queue::{PopStep, WorkQueue};
use storage_wars::dir_walk::{DirWalk, WalkEntry, WalkOutcome};
use storage_wars::worker::{process_directory, WorkerRead, WorkerStep};

fn failure(kind: IoKind, message: &str) -> IoFailure {
    IoFailure { kind, message: message.to_string() }
}

fn entry(path: &str, is_dir: bool, len: u64) -> RawEntry {
    RawEntry::Entry { path: path.to_string(), meta: MetaRead::Read { is_dir, len } }
}

fn file(path: &str, size: u64) -> ChildVisit {
    ChildVisit::File(DirEntry::new(path, false, size))
}

fn listed(path: &str, kids: Vec<ChildVisit>) -> DirVisit {
    DirVisit { path: path.to_string(), outcome: VisitOutcome::Listed(kids) }
}

// ---------------------------------------------------------------------------
// read_dir_immediate
// ---------------------------------------------------------------------------

/// What reading the project directory returns: a few files and directories.
fn current_dir_read() -> DirRead {
    DirRead::Opened(vec![
        entry("./Cargo.toml", false, 412),
        entry("./src", true, 4096),
        entry("./tests", true, 4096),
    ])
}

#[test]
fn read_dir_immediate_returns_entries() {
    let entries = read_dir_immediate(".", &current_dir_read()).expect("should read current dir");
    assert!(!entries.is_empty(), "current directory should not be empty");
}

#[test]
fn listing_of_missing_dir_is_an_error() {
    let read = DirRead::Failed(failure(IoKind::Failed, "No such file or directory (os error 2)"));
    let result = read_dir_immediate("/nonexistent/path/that/does/not/exist", &read);
    assert!(result.is_err());
}

#[test]
fn listing_reports_files_and_dirs() {
    let read = DirRead::Opened(vec![entry("/t/a.txt", false, 100), entry("/t/sub", true, 4096)]);
    let children = read_dir_immediate("/t", &read).unwrap();
    assert_eq!(children.len(), 2);
    let file = children.iter().find(|c| c.path == "/t/a.txt").unwrap();
    assert!(!file.is_dir);
    assert_eq!(file.size, 100);
    let sub = children.iter().find(|c| c.path == "/t/sub").unwrap();
    assert!(sub.is_dir);
    assert_eq!(sub.size, 0, "subdirs start at size 0");
}

#[test]
fn listing_of_empty_dir_is_empty() {
    let children = read_dir_immediate("/t", &DirRead::Opened(vec![])).unwrap();
    assert!(children.is_empty());
}

#[test]
fn read_dir_immediate_permission_denied_dir_is_empty() {
    let read = DirRead::Failed(failure(IoKind::PermissionDenied, "Access is denied"));
    let children = read_dir_immediate("/secret", &read).unwrap();
    assert!(children.is_empty());
}

#[test]
fn read_dir_immediate_skips_permission_failures_and_keeps_going() {
    let read = DirRead::Opened(vec![
        entry("/t/a", false, 5),
        RawEntry::Failed(failure(IoKind::PermissionDenied, "denied")),
        RawEntry::Entry {
            path: "/t/locked".to_string(),
            meta: MetaRead::Failed { failure: failure(IoKind::Other, "other"), path_is_dir: false },
        },
        RawEntry::Entry {
            path: "/t/broken".to_string(),
            meta: MetaRead::Failed { failure: failure(IoKind::Failed, "stale handle"), path_is_dir: true },
        },
        entry("/t/b", false, 7),
    ]);
    let children = read_dir_immediate("/t", &read).unwrap();
    let paths: Vec<&str> = children.iter().map(|c| c.path.as_str()).collect();
    assert_eq!(paths, vec!["/t/a", "/t/broken", "/t/b"]);
    assert!(children[1].is_dir);
    assert_eq!(children[1].size, 0);
    assert_eq!(children[2].size, 7);
}

#[test]
fn read_dir_immediate_other_iteration_failure_is_an_error() {
    let read = DirRead::Opened(vec![entry("/t/a", false, 5), RawEntry::Failed(failure(IoKind::Failed, "I/O error"))]);
    match read_dir_immediate("/t", &read) {
        Err(ScanError::Io { path, kind, message }) => {
            assert_eq!(path, "/t");
            assert_eq!(kind, IoKind::Failed);
            assert_eq!(message, "I/O error");
        },
        other => panic!("expected an I/O error, got {other:?}"),
    }
}

#[test]
fn permission_errors_are_recognised() {
    assert!(is_permission_error(IoKind::PermissionDenied));
    assert!(is_permission_error(IoKind::Other));
    assert!(!is_permission_error(IoKind::Failed));
    let denied = ScanError::Io { path: "/x".to_string(), kind: IoKind::PermissionDenied, message: String::new() };
    assert!(denied.is_permission_denied());
    let other = ScanError::Io { path: "/x".to_string(), kind: IoKind::Other, message: String::new() };
    assert!(!other.is_permission_denied());
    assert!(!ScanError::Cancelled.is_permission_denied());
}

// ---------------------------------------------------------------------------
// scan_dir_sync
// ---------------------------------------------------------------------------

#[test]
fn scan_dir_sync_aggregates_sizes() {
    let root = listed(
        ".",
        vec![file("./Cargo.toml", 412), ChildVisit::Dir(listed("./src", vec![file("./src/lib.rs", 900)]))],
    );
    let entries = scan_dir_sync(&root);
    assert!(!entries.is_empty());
    let root = entries.iter().find(|e| e.is_dir);
    assert!(root.is_some(), "should have at least one directory entry");
}

#[test]
fn scan_dir_sync_respects_cancellation() {
    let root = DirVisit { path: ".".to_string(), outcome: VisitOutcome::Cancelled };
    let entries = scan_dir_sync(&root);
    assert!(entries.len() <= 1);
}

#[test]
fn flat_scan_lists_directories_before_their_contents() {
    let root = listed(
        "/t",
        vec![file("/t/a.txt", 100), ChildVisit::Dir(listed("/t/sub", vec![file("/t/sub/b.txt", 200)]))],
    );
    let entries = scan_dir_sync(&root);
    let summary: Vec<(&str, bool, u64)> = entries.iter().map(|e| (e.path.as_str(), e.is_dir, e.size)).collect();
    assert_eq!(
        summary,
        vec![("/t", true, 300), ("/t/a.txt", false, 100), ("/t/sub", true, 200), ("/t/sub/b.txt", false, 200)]
    );
}

#[test]
fn scan_dir_sync_skips_unreadable_and_cancelled_subdirs() {
    let root = listed(
        "/t",
        vec![
            ChildVisit::Dir(DirVisit { path: "/t/locked".to_string(), outcome: VisitOutcome::Unreadable }),
            file("/t/a", 3),
            ChildVisit::Dir(DirVisit { path: "/t/late".to_string(), outcome: VisitOutcome::Cancelled }),
        ],
    );
    let entries = scan_dir_sync(&root);
    let summary: Vec<(&str, u64)> = entries.iter().map(|e| (e.path.as_str(), e.size)).collect();
    assert_eq!(summary, vec![("/t", 3), ("/t/a", 3)]);
}

#[test]
fn flat_scan_propagates_sizes_through_levels() {
    let deep = listed("/t/a/b", vec![file("/t/a/b/deep.txt", 512)]);
    let root = listed("/t", vec![ChildVisit::Dir(listed("/t/a", vec![ChildVisit::Dir(deep)]))]);
    let entries = scan_dir_sync(&root);
    assert_eq!(entries[0].size, 512, "sizes should propagate through all levels");
    assert_eq!(entries[1].size, 512);
}

// ---------------------------------------------------------------------------
// WorkQueue
// ---------------------------------------------------------------------------

#[test]
fn work_queue_hands_out_in_fifo_order_then_finishes() {
    let mut q = WorkQueue::new();
    q.push("/a".to_string());
    let added = q.push_many(vec!["/b".to_string(), "/c".to_string()]);
    assert_eq!(added, 2);
    assert_eq!(q.pending_len(), 3);
    assert_eq!(q.pop(), PopStep::Work("/a".to_string()));
    assert_eq!(q.pop(), PopStep::Work("/b".to_string()));
    assert_eq!(q.active(), 2);
    q.complete_item();
    assert_eq!(q.pop(), PopStep::Work("/c".to_string()));
    assert_eq!(q.pop(), PopStep::Wait);
    q.complete_item();
    q.complete_item();
    assert_eq!(q.active(), 0);
    assert_eq!(q.pop(), PopStep::Finished);
    q.push("/late".to_string());
    assert_eq!(q.pop(), PopStep::Finished, "a finished queue stays finished");
}

#[test]
fn empty_work_queue_finishes_at_once() {
    let mut q = WorkQueue::new();
    assert_eq!(q.pending_len(), 0);
    assert_eq!(q.pop(), PopStep::Finished);
}

// ---------------------------------------------------------------------------
// Worker
// ---------------------------------------------------------------------------

fn wfile(path: &str, len: u64) -> WorkerStep {
    WorkerStep::File { path: path.to_string(), len }
}

fn wdir(path: &str, len: u64, outcome: WalkOutcome) -> WorkerStep {
    WorkerStep::Dir { path: path.to_string(), len, subtree: DirWalk { path: path.to_string(), outcome } }
}

#[test]
fn worker_reports_node_and_queues_subdirs() {
    // /r/sub holds 100 bytes directly and 7 more in /r/sub/deep.
    let sub = WalkOutcome::Opened(vec![
        WalkEntry::File { path: "/r/sub/x".to_string(), len: 100 },
        WalkEntry::Dir(DirWalk {
            path: "/r/sub/deep".to_string(),
            outcome: WalkOutcome::Opened(vec![WalkEntry::File { path: "/r/sub/deep/y".to_string(), len: 7 }]),
        }),
    ]);
    let read = WorkerRead::Opened(vec![
        wfile("/r/a.txt", 10),
        wdir("/r/sub", 4096, sub),
        WorkerStep::Failed(failure(IoKind::Failed, "bad entry")),
        WorkerStep::Unreadable("/r/gone".to_string()),
        wfile("/r/b.txt", 5),
    ]);
    let out = process_directory("/r", &read);
    assert_eq!(out.sub_dirs, vec!["/r/sub".to_string()]);
    assert_eq!(out.errors.len(), 1);
    assert_eq!(out.errors[0].path, "/r");
    assert_eq!(out.errors[0].error, "bad entry");
    let node = out.node.expect("node");
    assert_eq!(node.path, "/r");
    // The aggregated size: 10 + 5 directly, 107 in the subtree of /r/sub.
    assert_eq!(node.size, 122);
    let kids: Vec<(&str, bool, u64)> = node.children.iter().map(|c| (c.path.as_str(), c.is_dir, c.size)).collect();
    assert_eq!(kids, vec![("/r/a.txt", false, 10), ("/r/sub", true, 4096), ("/r/b.txt", false, 5)]);
}

#[test]
fn worker_counts_nothing_for_a_subtree_that_cannot_be_walked() {
    let read = WorkerRead::Opened(vec![
        wfile("/r/a", 3),
        wdir("/r/locked", 0, WalkOutcome::OpenFailed(failure(IoKind::PermissionDenied, "denied"))),
        wdir("/r/broken", 0, WalkOutcome::OpenFailed(failure(IoKind::Failed, "gone"))),
    ]);
    let out = process_directory("/r", &read);
    assert_eq!(out.sub_dirs, vec!["/r/locked".to_string(), "/r/broken".to_string()]);
    assert!(out.errors.is_empty());
    assert_eq!(out.node.expect("node").size, 3);
}

#[test]
fn worker_stops_when_a_subtree_walk_was_cancelled() {
    let read = WorkerRead::Opened(vec![wfile("/r/a", 3), wdir("/r/sub", 0, WalkOutcome::Cancelled)]);
    let out = process_directory("/r", &read);
    assert!(out.node.is_none());
    assert!(out.sub_dirs.is_empty());
}

#[test]
fn worker_skips_unreadable_directory_silently_or_reports_it() {
    let denied = process_directory("/r", &WorkerRead::Failed(failure(IoKind::PermissionDenied, "denied")));
    assert!(denied.errors.is_empty());
    assert!(denied.node.is_none());
    assert!(denied.sub_dirs.is_empty());
    let broken = process_directory("/r", &WorkerRead::Failed(failure(IoKind::Failed, "not found")));
    assert_eq!(broken.errors.len(), 1);
    assert_eq!(broken.errors[0].error, "not found");
    assert!(broken.node.is_none());
}

#[test]
fn worker_stops_when_cancelled() {
    let read = WorkerRead::Opened(vec![
        wdir("/r/sub", 0, WalkOutcome::Opened(vec![])),
        WorkerStep::Failed(failure(IoKind::Failed, "early")),
        WorkerStep::Cancelled,
        wdir("/r/other", 0, WalkOutcome::Opened(vec![])),
    ]);
    let out = process_directory("/r", &read);
    assert!(out.node.is_none());
    assert!(out.sub_dirs.is_empty());
    assert_eq!(out.errors.len(), 1);
    assert_eq!(out.errors[0].error, "early");
}

#[test]
fn flat_scan_sizes_every_directory_by_its_own_files() {
    let root = listed(
        "/t",
        vec![
            ChildVisit::Dir(listed(
                "/t/a",
                vec![file("/t/a/x", 1), ChildVisit::Dir(listed("/t/a/b", vec![file("/t/a/b/y", 20), file("/t/a/b/z", 300)]))],
            )),
            file("/t/w", 4000),
        ],
    );
    let entries = scan_dir_sync(&root);
    let summary: Vec<(&str, u64)> = entries.iter().map(|e| (e.path.as_str(), e.size)).collect();
    assert_eq!(
        summary,
        vec![("/t", 4321), ("/t/a", 321), ("/t/a/x", 1), ("/t/a/b", 320), ("/t/a/b/y", 20), ("/t/a/b/z", 300), ("/t/w", 4000)]
    );
}
