use storage_wars::db_node::{DbNode, ScanNode};
use storage_wars::dir_entry::DirEntry;
use storage_wars::flatten::{flatten_tree, ExpandedPaths};
use storage_wars::fs_node::FsNode;
use storage_wars::history::{history_click, HistoryClick, HistorySelection, ScanHistoryEvent};
use storage_wars::paths::{canonical_path, components, is_same_path, starts_with_path};
use storage_wars::tree::{build_baseline_map, insert_children, merge_baseline, BaselineMap};
use storage_wars::view_state::toggle_expanded;

// ---------------------------------------------------------------------------
// Paths
// ---------------------------------------------------------------------------

#[test]
fn components_follow_path_rules() {
    assert_eq!(components("/a//b/"), vec!["/", "a", "b"]);
    assert_eq!(components("/./a/."), vec!["/", "a"]);
    assert_eq!(components("./a"), vec![".", "a"]);
    assert_eq!(components("a/./b"), vec!["a", "b"]);
    assert_eq!(components("a/../b"), vec!["a", "..", "b"]);
    assert!(components("").is_empty());
    assert_eq!(components("/"), vec!["/"]);
}

#[test]
fn same_path_ignores_redundant_separators() {
    assert!(is_same_path("/root", "/root/"));
    assert!(is_same_path("/a//b", "/a/b"));
    assert!(is_same_path("a/./b", "a/b"));
    assert!(!is_same_path("/a", "a"));
    assert!(!is_same_path("./a", "a"));
    assert!(!is_same_path("/a/b", "/a/bc"));
}

#[test]
fn starts_with_goes_by_whole_components() {
    assert!(starts_with_path("/root/sub/x", "/root/sub"));
    assert!(starts_with_path("/root/sub", "/root/sub/"));
    assert!(!starts_with_path("/root/subway", "/root/sub"));
    assert!(starts_with_path("/root", "/"));
    assert!(starts_with_path("a/b", ""));
    assert!(!starts_with_path("a", "/"));
}

#[test]
fn canonical_text_of_paths() {
    assert_eq!(canonical_path("/a//b/"), "/a/b");
    assert_eq!(canonical_path("/"), "/");
    assert_eq!(canonical_path("./a/."), "./a");
    assert_eq!(canonical_path("a/./b"), "a/b");
    assert_eq!(canonical_path(""), "");
}

// ---------------------------------------------------------------------------
// Tree operations compare paths as paths
// ---------------------------------------------------------------------------

#[test]
fn insert_children_accepts_trailing_separator() {
    let mut root = FsNode::new("root", "/root", true);
    let found = insert_children(&mut root, "/root/", vec![FsNode::new("f", "/root/f", false)]);
    assert!(found);
    assert_eq!(root.children.len(), 1);
}

#[test]
fn insert_children_descends_by_components() {
    let mut root = FsNode::new("root", "/root", true);
    root.children.push(FsNode::new("sub", "/root/sub", true));
    assert!(insert_children(&mut root, "/root//sub/", vec![FsNode::new("x", "/root/sub/x", false)]));
    assert_eq!(root.children[0].children[0].name, "x");
}

fn db_node(id: i64, path: &str, size: u64) -> DbNode {
    let mut n = DbNode::new(id, 1, None, "n", path);
    n.size = size;
    n
}

#[test]
fn baseline_map_keys_by_path() {
    let map = build_baseline_map(&[db_node(1, "/a", 1), db_node(2, "/a/", 2)]);
    assert_eq!(map.len(), 1);
    assert_eq!(map.get("/a"), Some(&2));
}

#[test]
fn merge_baseline_finds_paths_written_differently() {
    let mut baseline = BaselineMap::new();
    baseline.insert(canonical_path("/root"), 250);
    let mut tree = vec![FsNode::new("root", "/root/", true)];
    tree[0].children.push(FsNode::new("x", "/root/x", false));
    merge_baseline(&mut tree, &baseline);
    assert_eq!(tree[0].prev_size, Some(250));
    assert_eq!(tree[0].children[0].prev_size, None);
}

#[test]
fn expanded_paths_match_by_path() {
    let mut root = FsNode::new("root", "/root", true);
    root.children.push(FsNode::new("f", "/root/f", false));
    let mut expanded = ExpandedPaths::new();
    toggle_expanded(&mut expanded, "/root/");
    let rows = flatten_tree(&vec![root], &expanded);
    assert_eq!(rows.len(), 2);
    assert!(rows[0].expanded);
    toggle_expanded(&mut expanded, "/root");
    assert!(expanded.is_empty(), "the same path toggles back");
}

// ---------------------------------------------------------------------------
// History panel
// ---------------------------------------------------------------------------

#[test]
fn history_selection_and_requests() {
    let sel = HistorySelection::new();
    assert!(!sel.can_compare());
    let (sel, ev) = history_click(sel, HistoryClick::Compare);
    assert_eq!(ev, None, "compare needs both scans");
    let (sel, ev) = history_click(sel, HistoryClick::Base(1));
    assert_eq!((sel.compare_a, sel.compare_b, ev), (Some(1), None, None));
    let (sel, _) = history_click(sel, HistoryClick::New(2));
    assert!(sel.can_compare());
    let (sel, ev) = history_click(sel, HistoryClick::Compare);
    assert_eq!(ev, Some(ScanHistoryEvent::CompareRequested { base_id: 1, new_id: 2 }));
    let (sel2, ev) = history_click(sel, HistoryClick::Delete(1));
    assert_eq!(ev, Some(ScanHistoryEvent::DeleteRequested(1)));
    assert_eq!(sel2, sel);
}

// ---------------------------------------------------------------------------
// Plain data
// ---------------------------------------------------------------------------

#[test]
fn dir_entry_starts_empty_at_its_depth() {
    let e = DirEntry::new("/data/photos", 2);
    assert_eq!(e.path, "/data/photos");
    assert_eq!(e.size, 0);
    assert_eq!(e.child_count, 0);
    assert_eq!(e.depth, 2);
}

#[test]
fn scan_node_holds_its_children() {
    let tree = ScanNode {
        path: "C:\\".to_string(),
        is_dir: true,
        size_bytes: 0,
        children: vec![ScanNode { path: "C:\\Windows".to_string(), is_dir: true, size_bytes: 0, children: vec![] }],
    };
    assert_eq!(tree.children.len(), 1);
    assert!(tree.children[0].children.is_empty());
}

#[test]
fn canonical_text_agrees_with_same_path() {
    let cases = ["/a", "/a/", "a", "./a", "/a/b", "/a//b", "a/b", "/", ""];
    for x in cases.iter() {
        for y in cases.iter() {
            assert_eq!(canonical_path(x) == canonical_path(y), is_same_path(x, y), "{} vs {}", x, y);
        }
    }
}
