use storage_wars::directory_scanner::{DirectoryScanner, ScanMessage, ScannerEvent};
use storage_wars::flatten::ExpandedPaths;
use storage_wars::fs_node::FsNode;

fn file(name: &str, path: &str, size: u64) -> FsNode {
    let mut n = FsNode::new(name, path, false);
    n.size = size;
    n
}

fn dir(name: &str, path: &str) -> FsNode {
    FsNode::new(name, path, true)
}

fn scanned(parent: &str, children: Vec<FsNode>) -> ScanMessage {
    ScanMessage::DirScanned { parent_path: parent.to_string(), children }
}

fn sample_batch() -> Vec<ScanMessage> {
    vec![
        scanned("/r", vec![file("a.txt", "/r/a.txt", 100), dir("sub", "/r/sub")]),
        ScanMessage::ScanError { path: "/r/locked".to_string(), error: "denied".to_string() },
        scanned("/r/sub", vec![file("b.txt", "/r/sub/b.txt", 200)]),
    ]
}

#[test]
fn new_scanner_is_idle() {
    let s = DirectoryScanner::new();
    assert_eq!(s.dirs_scanned, 0);
    assert!(!s.is_scanning);
    assert!(!s.is_cancelled());
    assert!(s.flatten_visible(&ExpandedPaths::new()).is_empty());
}

#[test]
fn start_scan_resets_state() {
    let mut s = DirectoryScanner::new();
    s.start_scan("/r", "Root");
    assert!(s.is_scanning);
    assert_eq!(s.dirs_scanned, 0);
    let rows = s.flatten_visible(&ExpandedPaths::new());
    assert_eq!(rows.len(), 1);
    assert_eq!(rows[0].fs_node.name, "Root");
    assert!(rows[0].fs_node.is_dir, "the root counts as a directory before anything is scanned");
}

#[test]
fn batch_counts_directories_and_emits_progress_when_due() {
    let mut s = DirectoryScanner::new();
    s.start_scan("/r", "Root");
    let events = s.handle_batch(&sample_batch(), 50);
    assert!(events.is_empty());
    assert_eq!(s.dirs_scanned, 2);
    assert!(s.is_scanning);
    let events = s.handle_batch(&vec![], 250);
    assert_eq!(events, vec![ScannerEvent::Progress]);
}

#[test]
fn flatten_visible_follows_expanded_directories() {
    let mut s = DirectoryScanner::new();
    s.start_scan("/r", "Root");
    s.handle_batch(&sample_batch(), 0);
    let mut expanded = ExpandedPaths::new();
    expanded.insert("/r".to_string());
    let rows = s.flatten_visible(&expanded);
    let names: Vec<(&str, usize, bool)> = rows.iter().map(|r| (r.fs_node.name.as_str(), r.depth, r.expanded)).collect();
    assert_eq!(names, vec![("Root", 0, true), ("a.txt", 1, false), ("sub", 1, false)]);
    assert_eq!(rows[1].fs_node.size, 100);
    expanded.insert("/r/sub".to_string());
    let rows = s.flatten_visible(&expanded);
    let names: Vec<(&str, usize)> = rows.iter().map(|r| (r.fs_node.name.as_str(), r.depth)).collect();
    assert_eq!(names, vec![("Root", 0), ("a.txt", 1), ("sub", 1), ("b.txt", 2)]);
    assert!(rows.iter().all(|r| r.parent_total == 0));
}

#[test]
fn unscanned_subdirectory_is_not_expandable() {
    let mut s = DirectoryScanner::new();
    s.start_scan("/r", "Root");
    s.handle_batch(&vec![scanned("/r", vec![dir("sub", "/r/sub")])], 0);
    let mut expanded = ExpandedPaths::new();
    expanded.insert("/r".to_string());
    expanded.insert("/r/sub".to_string());
    let rows = s.flatten_visible(&expanded);
    assert_eq!(rows.len(), 2);
    assert!(!rows[1].fs_node.is_dir);
    assert!(!rows[1].expanded);
}

#[test]
fn completion_assembles_and_aggregates_the_tree() {
    let mut s = DirectoryScanner::new();
    s.start_scan("/r", "Root");
    let mut batch = sample_batch();
    batch.push(ScanMessage::Complete);
    let events = s.handle_batch(&batch, 10);
    assert_eq!(events, vec![ScannerEvent::Complete { was_cancelled: false }]);
    assert!(!s.is_scanning);
    let tree = s.take_tree().expect("finished tree");
    assert_eq!(tree.name, "Root");
    assert_eq!(tree.size, 300);
    assert_eq!(tree.file_count, 2);
    assert_eq!(tree.folder_count, 1);
    let sub = tree.children.iter().find(|c| c.name == "sub").unwrap();
    assert_eq!(sub.size, 200);
    assert_eq!(sub.children[0].name, "b.txt");
    assert!(s.take_tree().is_none(), "the tree is taken only once");
}

#[test]
fn cancelled_scan_reports_cancellation() {
    let mut s = DirectoryScanner::new();
    s.start_scan("/r", "Root");
    s.cancel();
    assert!(s.is_cancelled());
    let events = s.handle_batch(&vec![ScanMessage::Complete], 500);
    assert_eq!(events, vec![ScannerEvent::Progress, ScannerEvent::Complete { was_cancelled: true }]);
    let tree = s.take_tree().expect("finished tree");
    assert!(tree.children.is_empty());
    s.start_scan("/r", "Root");
    assert!(!s.is_cancelled(), "a new scan starts uncancelled");
}

#[test]
fn later_listing_of_a_directory_replaces_the_earlier_one() {
    let mut s = DirectoryScanner::new();
    s.start_scan("/r", "Root");
    s.handle_batch(&vec![scanned("/r", vec![file("old", "/r/old", 1)])], 0);
    s.handle_batch(&vec![scanned("/r", vec![file("new", "/r/new", 2)]), ScanMessage::Complete], 0);
    assert_eq!(s.dirs_scanned, 2);
    let tree = s.take_tree().unwrap();
    assert_eq!(tree.children.len(), 1);
    assert_eq!(tree.children[0].name, "new");
    assert_eq!(tree.size, 2);
}
