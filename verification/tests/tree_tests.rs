use storage_wars::db_node::DbNode;
use storage_wars::flatten::{flatten_tree, ExpandedPaths};
use storage_wars::fs_node::FsNode;
use storage_wars::persist::{build_fs_tree, plan_save};
use storage_wars::tree::{build_baseline_map, insert_children, merge_baseline, recalculate_sizes, BaselineMap};
use storage_wars::view_state::{compare_scans, toggle_expanded};

fn node(name: &str, path: &str, is_dir: bool, size: u64, file_count: u64, folder_count: u64, children: Vec<FsNode>) -> FsNode {
    let mut n = FsNode::new(name, path, is_dir);
    n.size = size;
    n.file_count = file_count;
    n.folder_count = folder_count;
    n.children = children;
    n
}

fn make_tree() -> Vec<FsNode> {
    vec![node(
        "root",
        "/root",
        true,
        300,
        1,
        2,
        vec![
            node("docs", "/root/docs", true, 200, 1, 0, vec![node("readme.txt", "/root/docs/readme.txt", false, 200, 0, 0, vec![])]),
            node("empty", "/root/empty", true, 0, 0, 0, vec![]),
        ],
    )]
}

fn db_node(id: i64, parent_id: Option<i64>, name: &str, path: &str, is_dir: bool, size: u64, file_count: u64, folder_count: u64) -> DbNode {
    let mut n = DbNode::new(id, 1, parent_id, name, path);
    n.is_dir = is_dir;
    n.size = size;
    n.file_count = file_count;
    n.folder_count = folder_count;
    n
}

fn make_db_nodes() -> Vec<DbNode> {
    vec![
        db_node(1, None, "root", "/root", true, 300, 1, 2),
        db_node(2, Some(1), "docs", "/root/docs", true, 200, 1, 0),
        db_node(3, Some(2), "readme.txt", "/root/docs/readme.txt", false, 200, 0, 0),
    ]
}

fn expanded_set(paths: &[&str]) -> ExpandedPaths {
    let mut set = ExpandedPaths::new();
    for p in paths {
        set.insert(p.to_string());
    }
    set
}

// ---------------------------------------------------------------------------
// flatten_tree
// ---------------------------------------------------------------------------

#[test]
fn flatten_collapsed_returns_only_roots() {
    let tree = make_tree();
    let expanded = ExpandedPaths::new();
    let flat = flatten_tree(&tree, &expanded);
    assert_eq!(flat.len(), 1, "collapsed tree must show only the root");
    assert_eq!(flat[0].fs_node.name, "root");
    assert_eq!(flat[0].depth, 0);
    assert!(!flat[0].expanded);
}

#[test]
fn flatten_expanding_root_surfaces_direct_children() {
    let tree = make_tree();
    let expanded = expanded_set(&["/root"]);
    let flat = flatten_tree(&tree, &expanded);
    assert_eq!(flat.len(), 3);
    assert_eq!(flat[0].depth, 0);
    assert_eq!(flat[1].depth, 1);
    assert_eq!(flat[2].depth, 1);
    assert!(flat[0].expanded);
    assert!(!flat[1].expanded);
}

#[test]
fn flatten_expanding_nested_node_surfaces_grandchildren() {
    let tree = make_tree();
    let expanded = expanded_set(&["/root", "/root/docs"]);
    let flat = flatten_tree(&tree, &expanded);
    assert_eq!(flat.len(), 4);
    let readme = &flat[2];
    assert_eq!(readme.fs_node.name, "readme.txt");
    assert_eq!(readme.depth, 2);
}

#[test]
fn flatten_pct_of_parent_correct() {
    let tree = make_tree();
    let expanded = expanded_set(&["/root"]);
    let flat = flatten_tree(&tree, &expanded);
    // The share of the parent is size / parent_total * 100.
    let pct = |size: u64, total: u64| -> f32 {
        if total == 0 {
            0.0
        } else {
            (size as f64 / total as f64 * 100.0) as f32
        }
    };
    let docs = flat.iter().find(|n| n.fs_node.name == "docs").unwrap();
    assert!((pct(docs.fs_node.size, docs.parent_total) - 100.0).abs() < 0.1);
    let empty = flat.iter().find(|n| n.fs_node.name == "empty").unwrap();
    assert!(pct(empty.fs_node.size, empty.parent_total).abs() < f32::EPSILON);
}

#[test]
fn flatten_children_sorted_by_size_descending() {
    let tree = make_tree();
    let expanded = expanded_set(&["/root"]);
    let flat = flatten_tree(&tree, &expanded);
    assert_eq!(flat[1].fs_node.name, "docs");
    assert_eq!(flat[2].fs_node.name, "empty");
}

#[test]
fn flatten_sorts_roots_and_keeps_ties_in_order() {
    let roots = vec![
        node("small", "/s", false, 1, 0, 0, vec![]),
        node("big", "/b", false, 9, 0, 0, vec![]),
        node("tie1", "/t1", false, 5, 0, 0, vec![]),
        node("tie2", "/t2", false, 5, 0, 0, vec![]),
    ];
    let flat = flatten_tree(&roots, &ExpandedPaths::new());
    let names: Vec<&str> = flat.iter().map(|r| r.fs_node.name.as_str()).collect();
    assert_eq!(names, vec!["big", "tie1", "tie2", "small"]);
    assert!(flat.iter().all(|r| r.parent_total == 20));
}

#[test]
fn flatten_does_not_expand_files() {
    let roots = vec![node("f", "/f", false, 3, 0, 0, vec![node("odd", "/f/odd", false, 1, 0, 0, vec![])])];
    let flat = flatten_tree(&roots, &expanded_set(&["/f"]));
    assert_eq!(flat.len(), 1);
    assert!(!flat[0].expanded);
}

// ---------------------------------------------------------------------------
// build_baseline_map / merge_baseline
// ---------------------------------------------------------------------------

#[test]
fn build_baseline_map_correct_entries() {
    let db_nodes = make_db_nodes();
    let map = build_baseline_map(&db_nodes);
    assert_eq!(map.get("/root"), Some(&300));
    assert_eq!(map.get("/root/docs"), Some(&200));
    assert_eq!(map.get("/root/docs/readme.txt"), Some(&200));
    assert_eq!(map.len(), 3);
}

#[test]
fn build_baseline_map_empty_input() {
    let map = build_baseline_map(&[]);
    assert!(map.is_empty());
}

#[test]
fn build_baseline_map_later_row_wins() {
    let nodes = vec![db_node(1, None, "a", "/a", false, 5, 0, 0), db_node(2, None, "a", "/a", false, 8, 0, 0)];
    let map = build_baseline_map(&nodes);
    assert_eq!(map.get("/a"), Some(&8));
    assert_eq!(map.len(), 1);
}

#[test]
fn merge_baseline_populates_matching_paths() {
    let mut tree = make_tree();
    let db_nodes = make_db_nodes();
    let baseline = build_baseline_map(&db_nodes);
    merge_baseline(&mut tree, &baseline);
    let root = &tree[0];
    assert_eq!(root.prev_size, Some(300));
    let docs = &root.children[0];
    assert_eq!(docs.prev_size, Some(200));
    let readme = &docs.children[0];
    assert_eq!(readme.prev_size, Some(200));
}

#[test]
fn merge_baseline_unmatched_paths_stay_none() {
    let mut tree = make_tree();
    let baseline = BaselineMap::new();
    merge_baseline(&mut tree, &baseline);
    let root = &tree[0];
    assert_eq!(root.prev_size, None);
    assert_eq!(root.children[0].prev_size, None);
}

#[test]
fn merge_baseline_partial_match() {
    let mut tree = make_tree();
    let mut baseline = BaselineMap::new();
    baseline.insert("/root".to_string(), 250_u64);
    merge_baseline(&mut tree, &baseline);
    assert_eq!(tree[0].prev_size, Some(250));
    assert_eq!(tree[0].children[0].prev_size, None);
}

#[test]
fn merge_baseline_clears_stale_previous_sizes() {
    let mut tree = make_tree();
    tree[0].children[1].prev_size = Some(77);
    merge_baseline(&mut tree, &BaselineMap::new());
    assert_eq!(tree[0].children[1].prev_size, None);
}

// ---------------------------------------------------------------------------
// insert_children / recalculate_sizes
// ---------------------------------------------------------------------------

#[test]
fn insert_children_at_root() {
    let mut root = FsNode::new("root", "/root", true);
    let new_children = vec![node("file.txt", "/root/file.txt", false, 42, 0, 0, vec![])];
    assert!(insert_children(&mut root, "/root", new_children));
    assert_eq!(root.children.len(), 1);
    assert_eq!(root.children[0].name, "file.txt");
}

#[test]
fn insert_children_nested() {
    let mut root = FsNode::new("root", "/root", true);
    root.children.push(FsNode::new("sub", "/root/sub", true));
    let new_children = vec![node("deep.txt", "/root/sub/deep.txt", false, 99, 0, 0, vec![])];
    assert!(insert_children(&mut root, "/root/sub", new_children));
    assert_eq!(root.children[0].children.len(), 1);
    assert_eq!(root.children[0].children[0].name, "deep.txt");
}

#[test]
fn insert_children_missing_parent() {
    let mut root = FsNode::new("root", "/root", true);
    let result = insert_children(&mut root, "/nonexistent", vec![]);
    assert!(!result, "should return false for missing parent");
}

#[test]
fn insert_children_matches_whole_components_only() {
    let mut root = FsNode::new("root", "/root", true);
    root.children.push(FsNode::new("sub", "/root/sub", true));
    // "/root/subway" starts with the text "/root/sub" but not with the path.
    let found = insert_children(&mut root, "/root/subway", vec![FsNode::new("x", "/root/subway/x", false)]);
    assert!(!found);
    assert!(root.children[0].children.is_empty());
}

#[test]
fn recalculate_sizes_bottom_up() {
    let mut root = node(
        "root",
        "/root",
        true,
        0,
        0,
        0,
        vec![
            node("a.txt", "/root/a.txt", false, 100, 0, 0, vec![]),
            node("sub", "/root/sub", true, 0, 0, 0, vec![node("b.txt", "/root/sub/b.txt", false, 200, 0, 0, vec![])]),
        ],
    );
    recalculate_sizes(&mut root);
    let sub = root.children.iter().find(|c| c.name == "sub").unwrap();
    assert_eq!(sub.size, 200);
    assert_eq!(sub.file_count, 1);
    assert_eq!(sub.folder_count, 0);
    assert_eq!(root.size, 300);
    assert_eq!(root.file_count, 2);
    assert_eq!(root.folder_count, 1);
}

#[test]
fn recalculate_sizes_leaves_files_alone() {
    let mut f = node("f", "/f", false, 7, 3, 4, vec![]);
    recalculate_sizes(&mut f);
    assert_eq!(f.size, 7);
    assert_eq!(f.file_count, 3);
    assert_eq!(f.folder_count, 4);
}

#[test]
fn recalculate_sizes_twice_changes_nothing() {
    let mut root = make_tree().remove(0);
    root.size = 1;
    recalculate_sizes(&mut root);
    let once = root.clone();
    recalculate_sizes(&mut root);
    assert_eq!(root, once);
    assert_eq!(root.size, 200);
    assert_eq!(root.file_count, 1);
    assert_eq!(root.folder_count, 2);
}

// ---------------------------------------------------------------------------
// Saving and rebuilding
// ---------------------------------------------------------------------------

#[test]
fn plan_save_orders_parents_first() {
    let root = make_tree().remove(0);
    let rows = plan_save(&root, 9);
    assert_eq!(rows.len(), 4);
    let summary: Vec<(i64, Option<i64>, &str, u64)> =
        rows.iter().map(|r| (r.id, r.parent_id, r.name.as_str(), r.size)).collect();
    assert_eq!(
        summary,
        vec![
            (0, None, "root", 300),
            (1, Some(0), "empty", 0),
            (2, Some(0), "docs", 200),
            (3, Some(2), "readme.txt", 200),
        ]
    );
    assert!(rows.iter().all(|r| r.scan_id == 9));
    let file = rows.iter().find(|n| n.name == "readme.txt").unwrap();
    assert!(!file.is_dir);
}

#[test]
fn save_and_rebuild_roundtrip() {
    let root = make_tree().remove(0);
    let rows = plan_save(&root, 1);
    let rebuilt = build_fs_tree(&rows).expect("tree");
    assert_eq!(rebuilt.name, "root");
    assert_eq!(rebuilt.size, 300);
    let names: Vec<&str> = rebuilt.children.iter().map(|c| c.name.as_str()).collect();
    assert_eq!(names, vec!["empty", "docs"]);
    assert_eq!(rebuilt.children[1].children[0].name, "readme.txt");
    assert_eq!(rebuilt.children[1].children[0].size, 200);
}

#[test]
fn build_fs_tree_from_loaded_rows() {
    let rows = make_db_nodes();
    let root = build_fs_tree(&rows).expect("tree");
    assert_eq!(root.path, "/root");
    assert_eq!(root.file_count + root.folder_count, 3);
    assert_eq!(root.children.len(), 1);
    assert_eq!(root.children[0].children[0].path, "/root/docs/readme.txt");
}

#[test]
fn build_fs_tree_without_rows_or_root_is_none() {
    assert!(build_fs_tree(&vec![]).is_none());
    let orphans = vec![db_node(2, Some(1), "docs", "/root/docs", true, 0, 0, 0)];
    assert!(build_fs_tree(&orphans).is_none());
}

// ---------------------------------------------------------------------------
// View decisions
// ---------------------------------------------------------------------------

#[test]
fn toggle_expanded_flips_membership() {
    let mut set = ExpandedPaths::new();
    toggle_expanded(&mut set, "/root");
    assert!(set.contains("/root"));
    toggle_expanded(&mut set, "/root/docs");
    toggle_expanded(&mut set, "/root");
    assert!(!set.contains("/root"));
    assert!(set.contains("/root/docs"));
}

#[test]
fn compare_scans_marks_previous_sizes() {
    let base = make_db_nodes();
    let mut newer = make_db_nodes();
    newer[0].size = 500;
    newer.push(db_node(4, Some(1), "new.bin", "/root/new.bin", false, 200, 0, 0));
    let root = compare_scans(&base, &newer).expect("tree");
    assert_eq!(root.size, 500);
    assert_eq!(root.prev_size, Some(300));
    let added = root.children.iter().find(|c| c.name == "new.bin").unwrap();
    assert_eq!(added.prev_size, None);
    assert!(compare_scans(&base, &vec![]).is_none());
}

#[test]
fn recalc_totals_predicts_recalculation() {
    let mut root = make_tree().remove(0);
    let totals = storage_wars::tree::recalc_totals(&root).expect("fits");
    recalculate_sizes(&mut root);
    assert_eq!(totals, (root.size, root.file_count, root.folder_count));
    assert_eq!(totals, (200, 1, 2));
}

#[test]
fn recalc_totals_detects_overflow() {
    let root = node(
        "root",
        "/root",
        true,
        0,
        0,
        0,
        vec![node("a", "/root/a", false, u64::MAX, 0, 0, vec![]), node("b", "/root/b", false, 1, 0, 0, vec![])],
    );
    assert!(storage_wars::tree::recalc_totals(&root).is_none());
    let file = node("f", "/f", false, u64::MAX, 0, 0, vec![]);
    assert_eq!(storage_wars::tree::recalc_totals(&file), Some((u64::MAX, 0, 0)));
}

#[test]
fn recalculate_sizes_sums_at_every_depth_and_keeps_the_rest() {
    let mut root = node(
        "r",
        "/r",
        true,
        9,
        9,
        9,
        vec![node(
            "a",
            "/r/a",
            true,
            9,
            9,
            9,
            vec![
                node("b", "/r/a/b", true, 9, 9, 9, vec![node("f", "/r/a/b/f", false, 5, 0, 0, vec![])]),
                node("g", "/r/a/g", false, 6, 2, 3, vec![]),
            ],
        )],
    );
    recalculate_sizes(&mut root);
    let a = &root.children[0];
    let b = &a.children[0];
    assert_eq!((b.size, b.file_count, b.folder_count), (5, 1, 0));
    assert_eq!((a.size, a.file_count, a.folder_count), (11, 2, 1));
    assert_eq!((root.size, root.file_count, root.folder_count), (11, 2, 2));
    let g = &a.children[1];
    assert_eq!((g.size, g.file_count, g.folder_count), (6, 2, 3));
    assert_eq!((a.name.as_str(), a.path.as_str(), b.path.as_str()), ("a", "/r/a", "/r/a/b"));
}
