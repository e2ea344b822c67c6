use storage_wars::dir_walk::{DirWalk, WalkEntry, WalkOutcome};
use storage_wars::fs_node::FsNode;
use storage_wars::listing::{IoFailure, IoKind, ScanError};
use storage_wars::tree_scan::{read_dir_immediate, scan_dir_sync, sub_dir_paths, EntryRead, ListRead, PathMeta, PathScan};

fn meta(is_dir: bool, len: u64) -> Option<PathMeta> {
    Some(PathMeta { is_dir, len, modified_secs: Some(1_700_000_000) })
}

fn file(dir: &str, name: &str, len: u64) -> PathScan {
    PathScan { path: format!("{dir}/{name}"), name: name.to_string(), meta: meta(false, len), entries: vec![] }
}

fn folder(dir: &str, name: &str, entries: Vec<PathScan>) -> PathScan {
    PathScan { path: format!("{dir}/{name}"), name: name.to_string(), meta: meta(true, 4096), entries }
}

fn child<'a>(n: &'a FsNode, name: &str) -> &'a FsNode {
    n.children.iter().find(|c| c.name == name).unwrap()
}

fn failure(kind: IoKind, message: &str) -> IoFailure {
    IoFailure { kind, message: message.to_string() }
}

// ---------------------------------------------------------------------------
// scan_dir_sync (tree)
// ---------------------------------------------------------------------------

#[test]
fn scan_dir_sync_sums_children_bottom_up() {
    let root = folder("/tmp", "t", vec![file("/tmp/t", "a.txt", 100), folder("/tmp/t", "sub", vec![file("/tmp/t/sub", "b.txt", 200)])]);
    let node = scan_dir_sync(&root);
    let sub_node = child(&node, "sub");
    let b_node = child(sub_node, "b.txt");
    assert_eq!(b_node.size, 200);
    assert_eq!(sub_node.size, 200);
    assert_eq!(node.size, 300);
}

#[test]
fn scan_dir_sync_single_file() {
    let root = folder("/tmp", "t", vec![file("/tmp/t", "only.txt", 42)]);
    let node = scan_dir_sync(&root);
    let file_node = child(&node, "only.txt");
    assert_eq!(file_node.size, 42);
    assert_eq!(node.size, 42);
}

#[test]
fn scan_dir_sync_empty_dir() {
    let node = scan_dir_sync(&folder("/tmp", "t", vec![]));
    assert_eq!(node.size, 0);
    assert!(node.children.is_empty());
}

#[test]
fn scan_dir_sync_nested_dirs() {
    let b = folder("/tmp/t/a", "b", vec![file("/tmp/t/a/b", "deep.txt", 512)]);
    let root = folder("/tmp", "t", vec![folder("/tmp/t", "a", vec![b])]);
    let node = scan_dir_sync(&root);
    assert_eq!(node.size, 512, "sizes should propagate through all levels");
}

#[test]
fn scan_dir_sync_file_and_folder_counts() {
    let root = folder(
        "/tmp",
        "t",
        vec![file("/tmp/t", "a.txt", 1), file("/tmp/t", "b.txt", 1), folder("/tmp/t", "sub", vec![file("/tmp/t/sub", "c.txt", 1)])],
    );
    let node = scan_dir_sync(&root);
    assert_eq!(node.file_count, 3);
    assert_eq!(node.folder_count, 1);
    let sub_node = child(&node, "sub");
    assert_eq!(sub_node.file_count, 1);
    assert_eq!(sub_node.folder_count, 0);
    let a_node = child(&node, "a.txt");
    assert_eq!(a_node.file_count, 0);
    assert_eq!(a_node.folder_count, 0);
}

#[test]
fn scan_dir_sync_modified_timestamps_present() {
    let root = folder("/tmp", "t", vec![file("/tmp/t", "file.txt", 4)]);
    let node = scan_dir_sync(&root);
    assert!(node.modified.is_some(), "directory should have modified timestamp");
    let file_node = child(&node, "file.txt");
    assert!(file_node.modified.is_some(), "file should have modified timestamp");
    let ts = file_node.modified.as_ref().unwrap();
    assert!(ts.contains('T') && ts.ends_with('Z'), "timestamp should be ISO 8601: {ts}");
    assert_eq!(ts, "2023-11-14T22:13:20Z");
}

#[test]
fn scan_dir_sync_unreadable_entry_is_an_empty_file() {
    let broken = PathScan { path: "/tmp/t/x".to_string(), name: "x".to_string(), meta: None, entries: vec![] };
    let root = folder("/tmp", "t", vec![broken, file("/tmp/t", "y", 9)]);
    let node = scan_dir_sync(&root);
    let x = child(&node, "x");
    assert!(!x.is_dir);
    assert_eq!(x.size, 0);
    assert!(x.modified.is_none());
    assert_eq!(node.file_count, 2);
    assert_eq!(node.size, 9);
}

#[test]
fn scan_dir_sync_of_a_file_root() {
    let node = scan_dir_sync(&file("/tmp", "f.bin", 77));
    assert!(!node.is_dir);
    assert_eq!(node.size, 77);
    assert_eq!(node.file_count, 0);
}

// ---------------------------------------------------------------------------
// read_dir_immediate (nodes)
// ---------------------------------------------------------------------------

#[test]
fn read_dir_immediate_files_and_dirs() {
    let read = ListRead::Opened(vec![
        EntryRead::Entry { path: "/t/a.txt".to_string(), name: "a.txt".to_string(), meta: meta(false, 100) },
        EntryRead::Entry { path: "/t/sub".to_string(), name: "sub".to_string(), meta: meta(true, 4096) },
    ]);
    let children = read_dir_immediate(&read).unwrap();
    assert_eq!(children.len(), 2);
    let file = children.iter().find(|c| c.name == "a.txt").unwrap();
    assert!(!file.is_dir);
    assert_eq!(file.size, 100);
    let sub = children.iter().find(|c| c.name == "sub").unwrap();
    assert!(sub.is_dir);
    assert_eq!(sub.size, 0, "subdirs start at size 0");
    assert!(sub.children.is_empty(), "subdirs have no children yet");
    assert_eq!(sub.modified.as_deref(), Some("2023-11-14T22:13:20Z"));
}

#[test]
fn read_dir_immediate_empty_dir() {
    let children = read_dir_immediate(&ListRead::Opened(vec![])).unwrap();
    assert!(children.is_empty());
}

#[test]
fn read_dir_immediate_nonexistent_path() {
    let read = ListRead::Failed(failure(IoKind::Failed, "No such file or directory (os error 2)"));
    let result = read_dir_immediate(&read);
    assert!(result.is_err());
}

#[test]
fn read_dir_immediate_reports_every_failure() {
    let missing = ListRead::Failed(failure(IoKind::Failed, "No such file or directory (os error 2)"));
    assert!(read_dir_immediate(&missing).is_err());
    let denied = ListRead::Failed(failure(IoKind::PermissionDenied, "denied"));
    assert_eq!(read_dir_immediate(&denied).unwrap_err().kind, IoKind::PermissionDenied);
    let broken = ListRead::Opened(vec![
        EntryRead::Entry { path: "/t/a".to_string(), name: "a".to_string(), meta: meta(false, 1) },
        EntryRead::Failed(failure(IoKind::Other, "bad entry")),
    ]);
    let e = read_dir_immediate(&broken).unwrap_err();
    assert_eq!(e.message, "bad entry");
}

// ---------------------------------------------------------------------------
// scan_dir_sync (walk)
// ---------------------------------------------------------------------------

fn walk(path: &str, steps: Vec<WalkEntry>) -> DirWalk {
    DirWalk { path: path.to_string(), outcome: WalkOutcome::Opened(steps) }
}

fn wfile(path: &str, len: u64) -> WalkEntry {
    WalkEntry::File { path: path.to_string(), len }
}

#[test]
fn walk_aggregates_subdirectory_sizes() {
    let sub = walk("/r/sub", vec![wfile("/r/sub/b", 200), wfile("/r/sub/c", 5)]);
    let root = walk("/r", vec![wfile("/r/a", 100), WalkEntry::Dir(sub), WalkEntry::Unreadable("/r/x".to_string())]);
    let node = storage_wars::dir_walk::scan_dir_sync(&root).unwrap();
    assert_eq!(node.path, "/r");
    assert_eq!(node.size, 305);
    let kids: Vec<(&str, bool, u64)> = node.children.iter().map(|c| (c.path.as_str(), c.is_dir, c.size)).collect();
    assert_eq!(kids, vec![("/r/a", false, 100), ("/r/sub", true, 205)]);
}

#[test]
fn walk_skips_failing_subdirectories_and_permission_denials() {
    let locked = DirWalk { path: "/r/locked".to_string(), outcome: WalkOutcome::OpenFailed(failure(IoKind::PermissionDenied, "denied")) };
    let gone = DirWalk { path: "/r/gone".to_string(), outcome: WalkOutcome::OpenFailed(failure(IoKind::Failed, "gone")) };
    let root = walk(
        "/r",
        vec![WalkEntry::Dir(locked), WalkEntry::Dir(gone), WalkEntry::Failed(failure(IoKind::PermissionDenied, "denied")), wfile("/r/a", 1)],
    );
    let node = storage_wars::dir_walk::scan_dir_sync(&root).unwrap();
    let kids: Vec<(&str, u64)> = node.children.iter().map(|c| (c.path.as_str(), c.size)).collect();
    assert_eq!(kids, vec![("/r/locked", 0), ("/r/a", 1)]);
    assert_eq!(node.size, 1);
}

#[test]
fn walk_cancellation_anywhere_cancels_the_scan() {
    let sub = walk("/r/sub", vec![wfile("/r/sub/b", 2), WalkEntry::Cancelled]);
    let root = walk("/r", vec![wfile("/r/a", 1), WalkEntry::Dir(sub)]);
    assert!(matches!(storage_wars::dir_walk::scan_dir_sync(&root), Err(ScanError::Cancelled)));
    let early = DirWalk { path: "/r".to_string(), outcome: WalkOutcome::Cancelled };
    assert!(matches!(storage_wars::dir_walk::scan_dir_sync(&early), Err(ScanError::Cancelled)));
}

#[test]
fn walk_other_failures_end_the_scan_with_an_error() {
    let root = walk("/r", vec![wfile("/r/a", 1), WalkEntry::Failed(failure(IoKind::Other, "I/O error"))]);
    match storage_wars::dir_walk::scan_dir_sync(&root) {
        Err(ScanError::Io { path, kind, message }) => {
            assert_eq!(path, "/r");
            assert_eq!(kind, IoKind::Other);
            assert_eq!(message, "I/O error");
        },
        other => panic!("expected an I/O error, got {other:?}"),
    }
    let unopened = DirWalk { path: "/nope".to_string(), outcome: WalkOutcome::OpenFailed(failure(IoKind::Failed, "missing")) };
    assert!(matches!(storage_wars::dir_walk::scan_dir_sync(&unopened), Err(ScanError::Io { .. })));
    let denied = DirWalk { path: "/secret".to_string(), outcome: WalkOutcome::OpenFailed(failure(IoKind::PermissionDenied, "denied")) };
    let node = storage_wars::dir_walk::scan_dir_sync(&denied).unwrap();
    assert_eq!(node.size, 0);
    assert!(node.children.is_empty());
}

// ---------------------------------------------------------------------------
// read_dir_immediate (entries)
// ---------------------------------------------------------------------------

use storage_wars::listing::{DirRead, MetaRead, RawEntry};

fn raw(path: &str, is_dir: bool, len: u64) -> RawEntry {
    RawEntry::Entry { path: path.to_string(), meta: MetaRead::Read { is_dir, len } }
}

#[test]
fn entry_listing_reports_metadata_lengths() {
    let read = DirRead::Opened(vec![
        raw("/r/a", false, 10),
        RawEntry::Failed(failure(IoKind::PermissionDenied, "denied")),
        raw("/r/sub", true, 4096),
    ]);
    let entries = storage_wars::dir_walk::read_dir_immediate("/r", &read).unwrap();
    let rows: Vec<(&str, bool, u64)> = entries.iter().map(|e| (e.path.as_str(), e.is_dir, e.size)).collect();
    assert_eq!(rows, vec![("/r/a", false, 10), ("/r/sub", true, 4096)]);
}

#[test]
fn entry_listing_fails_on_unopenable_dir_and_bad_metadata() {
    let denied = DirRead::Failed(failure(IoKind::PermissionDenied, "denied"));
    assert!(matches!(
        storage_wars::dir_walk::read_dir_immediate("/secret", &denied),
        Err(ScanError::Io { kind: IoKind::PermissionDenied, .. })
    ));
    let bad = DirRead::Opened(vec![
        raw("/r/a", false, 10),
        RawEntry::Entry {
            path: "/r/b".to_string(),
            meta: MetaRead::Failed { failure: failure(IoKind::Failed, "stale"), path_is_dir: false },
        },
    ]);
    match storage_wars::dir_walk::read_dir_immediate("/r", &bad) {
        Err(ScanError::Io { path, message, .. }) => {
            assert_eq!(path, "/r/b");
            assert_eq!(message, "stale");
        },
        other => panic!("expected an error, got {other:?}"),
    }
    let skipped = DirRead::Opened(vec![RawEntry::Entry {
        path: "/r/c".to_string(),
        meta: MetaRead::Failed { failure: failure(IoKind::PermissionDenied, "denied"), path_is_dir: true },
    }]);
    assert!(storage_wars::dir_walk::read_dir_immediate("/r", &skipped).unwrap().is_empty());
}

#[test]
fn sub_dir_paths_lists_directories_in_order() {
    let read = ListRead::Opened(vec![
        EntryRead::Entry { path: "/t/x".to_string(), name: "x".to_string(), meta: meta(true, 0) },
        EntryRead::Entry { path: "/t/a.txt".to_string(), name: "a.txt".to_string(), meta: meta(false, 100) },
        EntryRead::Entry { path: "/t/y".to_string(), name: "y".to_string(), meta: meta(true, 0) },
    ]);
    let children = read_dir_immediate(&read).unwrap();
    assert_eq!(sub_dir_paths(&children), vec!["/t/x".to_string(), "/t/y".to_string()]);
}
