use storage_wars::db_node::DbNode;
use storage_wars::drive_info::DriveInfo;
use storage_wars::flatten::UiNode;
use storage_wars::fs_node::FsNode;
use storage_wars::scan_message::ScanMessage;
use storage_wars::scan_meta::{ScanMeta, Timestamp};
use storage_wars::size_change::{SizeChange, SizeChangeTrend};

const THRESHOLD: u64 = 1_048_576; // 1 MiB

// ---------------------------------------------------------------------------
// DbNode
// ---------------------------------------------------------------------------

#[test]
fn test_new_db_node() {
    let node = DbNode::new(1, 42, None, "root", "/");
    assert_eq!(node.id, 1);
    assert_eq!(node.scan_id, 42);
    assert!(node.parent_id.is_none());
    assert!(node.is_root());
    assert_eq!(node.name, "root");
    assert_eq!(node.path, "/");
}

#[test]
fn test_non_root_node() {
    let node = DbNode::new(2, 42, Some(1), "home", "/home");
    assert!(!node.is_root());
    assert_eq!(node.parent_id, Some(1));
}

#[test]
fn db_node_new_zeroes_sizes_and_counts() {
    let node = DbNode::new(7, 3, Some(2), "a.txt", "/a.txt");
    assert_eq!(node.size, 0);
    assert_eq!(node.prev_size, None);
    assert_eq!(node.file_count, 0);
    assert_eq!(node.folder_count, 0);
    assert!(!node.is_dir);
    assert_eq!(node.modified_secs, None);
}

// ---------------------------------------------------------------------------
// DriveInfo
// ---------------------------------------------------------------------------

#[test]
fn test_new_drive_info() {
    let info = DriveInfo::new("C:\\", Some("System".to_string()), 500_000_000_000, 200_000_000_000);
    assert_eq!(info.name, "C:\\");
    assert_eq!(info.volume_label, Some("System".to_string()));
    assert_eq!(info.total_space, 500_000_000_000);
    assert_eq!(info.available_space, 200_000_000_000);
}

#[test]
fn test_used_space() {
    let info = DriveInfo::new("/", None, 1000, 400);
    assert_eq!(info.used_space(), 600);
}

#[test]
fn used_space_saturates_at_zero() {
    let info = DriveInfo::new("/", None, 100, 400);
    assert_eq!(info.used_space(), 0);
    let full = DriveInfo::new("/", None, u64::MAX, 0);
    assert_eq!(full.used_space(), u64::MAX);
}

#[test]
fn test_has_label() {
    let with_label = DriveInfo::new("/", Some("Data".to_string()), 1000, 500);
    let without_label = DriveInfo::new("/", None, 1000, 500);
    assert!(with_label.has_label());
    assert!(!without_label.has_label());
}

// ---------------------------------------------------------------------------
// SizeChange
// ---------------------------------------------------------------------------

#[test]
fn test_new_item() {
    let sc = SizeChange::classify(Some(500), None, THRESHOLD);
    assert_eq!(sc.trend, SizeChangeTrend::New);
    assert_eq!(sc.delta_bytes, 500);
    assert_eq!(sc.hex_color, "#4CAF50");
}

#[test]
fn test_deleted_item() {
    let sc = SizeChange::classify(None, Some(1000), THRESHOLD);
    assert_eq!(sc.trend, SizeChangeTrend::Deleted);
    assert_eq!(sc.delta_bytes, -1000);
}

#[test]
fn test_unchanged() {
    let sc = SizeChange::classify(Some(1000), Some(1000), THRESHOLD);
    assert_eq!(sc.trend, SizeChangeTrend::Unchanged);
    assert_eq!(sc.delta_bytes, 0);
}

#[test]
fn test_increased_small() {
    let sc = SizeChange::classify(Some(1000 + 100), Some(1000), THRESHOLD);
    assert_eq!(sc.trend, SizeChangeTrend::IncreasedSmall);
    assert_eq!(sc.delta_bytes, 100);
}

#[test]
fn test_increased_large() {
    let sc = SizeChange::classify(Some(1000 + THRESHOLD), Some(1000), THRESHOLD);
    assert_eq!(sc.trend, SizeChangeTrend::IncreasedLarge);
    assert_eq!(sc.delta_bytes, THRESHOLD as i64);
}

#[test]
fn test_decreased_small() {
    let sc = SizeChange::classify(Some(1000), Some(1000 + 100), THRESHOLD);
    assert_eq!(sc.trend, SizeChangeTrend::DecreasedSmall);
    assert_eq!(sc.delta_bytes, -100);
}

#[test]
fn test_decreased_large() {
    let sc = SizeChange::classify(Some(1000), Some(1000 + THRESHOLD), THRESHOLD);
    assert_eq!(sc.trend, SizeChangeTrend::DecreasedLarge);
    assert_eq!(sc.delta_bytes, -(THRESHOLD as i64));
}

#[test]
fn classify_neither_size_is_unchanged_grey() {
    let sc = SizeChange::classify(None, None, THRESHOLD);
    assert_eq!(sc.trend, SizeChangeTrend::Unchanged);
    assert_eq!(sc.delta_bytes, 0);
    assert_eq!(sc.hex_color, "#BDBDBD");
}

#[test]
fn classify_threshold_boundary_is_large() {
    let just_below = SizeChange::classify(Some(THRESHOLD - 1), Some(0), THRESHOLD);
    assert_eq!(just_below.trend, SizeChangeTrend::IncreasedSmall);
    assert_eq!(just_below.hex_color, "#FF9800");
    let at = SizeChange::classify(Some(0), Some(THRESHOLD), THRESHOLD);
    assert_eq!(at.trend, SizeChangeTrend::DecreasedLarge);
    assert_eq!(at.hex_color, "#2196F3");
}

#[test]
fn classify_colour_matches_trend() {
    let sc = SizeChange::classify(Some(2_000_000), Some(500_000), THRESHOLD);
    assert_eq!(sc.trend, SizeChangeTrend::IncreasedLarge);
    assert_eq!(sc.delta_bytes, 1_500_000);
    assert_eq!(sc.hex_color, SizeChangeTrend::IncreasedLarge.hex_color());
    assert_eq!(sc.hex_color, "#F44336");
}

#[test]
fn test_all_size_change_trends_have_colors() {
    let trends = [
        SizeChangeTrend::New,
        SizeChangeTrend::IncreasedLarge,
        SizeChangeTrend::IncreasedSmall,
        SizeChangeTrend::Unchanged,
        SizeChangeTrend::DecreasedSmall,
        SizeChangeTrend::DecreasedLarge,
        SizeChangeTrend::Deleted,
    ];
    for trend in trends {
        let color = trend.hex_color();
        assert!(
            color.starts_with('#') && color.len() == 7,
            "Invalid color '{color}' for trend {trend:?}"
        );
    }
}

#[test]
fn every_trend_has_its_documented_colour() {
    assert_eq!(SizeChangeTrend::New.hex_color(), "#4CAF50");
    assert_eq!(SizeChangeTrend::Deleted.hex_color(), "#9E9E9E");
    assert_eq!(SizeChangeTrend::IncreasedLarge.hex_color(), "#F44336");
    assert_eq!(SizeChangeTrend::IncreasedSmall.hex_color(), "#FF9800");
    assert_eq!(SizeChangeTrend::DecreasedSmall.hex_color(), "#8BC34A");
    assert_eq!(SizeChangeTrend::DecreasedLarge.hex_color(), "#2196F3");
    assert_eq!(SizeChangeTrend::Unchanged.hex_color(), "#BDBDBD");
}

// ---------------------------------------------------------------------------
// FsNode
// ---------------------------------------------------------------------------

#[test]
fn new_fs_node_has_zero_counts() {
    let node = FsNode::new("docs", "/home/user/docs", true);
    assert_eq!(node.size, 0);
    assert_eq!(node.file_count, 0);
    assert_eq!(node.folder_count, 0);
    assert!(node.children.is_empty());
}

#[test]
fn size_delta_returns_none_without_prev_size() {
    let node = FsNode::new("file.txt", "/home/user/file.txt", false);
    assert_eq!(node.size_delta(), None);
}

#[test]
fn size_delta_returns_correct_delta() {
    let mut node = FsNode::new("file.txt", "/home/user/file.txt", false);
    node.size = 200;
    node.prev_size = Some(100);
    assert_eq!(node.size_delta(), Some(100));
}

#[test]
fn size_delta_can_be_negative() {
    let mut node = FsNode::new("file.txt", "/f", false);
    node.size = 100;
    node.prev_size = Some(350);
    assert_eq!(node.size_delta(), Some(-250));
}

#[test]
fn duplicate_copies_the_whole_subtree() {
    let mut root = FsNode::new("root", "/root", true);
    let mut child = FsNode::new("a.txt", "/root/a.txt", false);
    child.size = 12;
    child.modified = Some("2024-01-01T00:00:00Z".to_string());
    root.children.push(child);
    let copy = root.duplicate();
    assert_eq!(copy, root);
    let cloned = root.clone();
    assert_eq!(cloned, root);
}

// ---------------------------------------------------------------------------
// ScanMessage
// ---------------------------------------------------------------------------

#[test]
fn test_dir_scanned_message() {
    let node = FsNode::new("src", "/project/src", true);
    let msg = ScanMessage::DirScanned { node: node.clone(), dirs_scanned: 5 };
    assert!(!msg.is_complete());
    assert!(!msg.is_error());
    assert!(msg.error_path().is_none());
}

#[test]
fn test_scan_error_message() {
    let msg = ScanMessage::ScanError {
        path: "/restricted".to_string(),
        message: "Permission denied".to_string(),
    };
    assert!(!msg.is_complete());
    assert!(msg.is_error());
    assert_eq!(msg.error_path(), Some("/restricted"));
}

#[test]
fn test_complete_message() {
    let msg = ScanMessage::Complete {
        total_files: 1000,
        total_dirs: 50,
        total_size: 1_073_741_824,
        error_count: 2,
    };
    assert!(msg.is_complete());
    assert!(!msg.is_error());
    assert!(msg.error_path().is_none());
}

// ---------------------------------------------------------------------------
// ScanMeta
// ---------------------------------------------------------------------------

const START: Timestamp = Timestamp { secs: 1_700_000_000, nanos: 0 };
const LATER: Timestamp = Timestamp { secs: 1_700_000_005, nanos: 0 };

#[test]
fn scan_started_at_a_time_is_in_progress() {
    let meta = ScanMeta::new_at(1, "/home", START);
    assert!(meta.is_in_progress());
    assert!(!meta.success);
    assert!(meta.completed_at.is_none());
    assert_eq!(meta.started_at, START);
    assert_eq!(meta.root_path, "/home");
}

#[test]
fn marking_complete_at_a_time_sets_success() {
    let mut meta = ScanMeta::new_at(1, "/home", START);
    meta.mark_complete_at(LATER);
    assert!(meta.success);
    assert!(!meta.is_in_progress());
    assert_eq!(meta.completed_at, Some(LATER));
    assert_eq!(meta.duration_secs(), Some(5));
}

#[test]
fn marking_failed_at_a_time_sets_error() {
    let mut meta = ScanMeta::new_at(1, "/home", START);
    meta.mark_failed_at("permission denied", LATER);
    assert!(!meta.success);
    assert_eq!(meta.error_message.as_deref(), Some("permission denied"));
    assert!(!meta.is_in_progress());
}

#[test]
fn duration_is_none_in_progress_and_whole_seconds_after() {
    let start = Timestamp { secs: 1_000, nanos: 900_000_000 };
    let mut meta = ScanMeta::new_at(3, "/data", start);
    assert_eq!(meta.duration_secs(), None);
    meta.mark_complete_at(Timestamp { secs: 1_003, nanos: 100_000_000 });
    // 2.2 seconds, rounded toward zero
    assert_eq!(meta.duration_secs(), Some(2));
    assert!(meta.success);
}

#[test]
fn duration_rounds_toward_zero_when_end_precedes_start() {
    let mut meta = ScanMeta::new_at(4, "/data", Timestamp { secs: 10, nanos: 0 });
    meta.mark_failed_at("clock went back", Timestamp { secs: 8, nanos: 500_000_000 });
    // -1.5 seconds rounds to -1
    assert_eq!(meta.duration_secs(), Some(-1));
    assert!(!meta.success);
    assert_eq!(meta.error_message.as_deref(), Some("clock went back"));
}

#[test]
fn scan_meta_lifecycle_keeps_totals() {
    let mut meta = ScanMeta::new_at(1, "/mnt/data", START);
    assert!(meta.is_in_progress());
    meta.total_files = 1_234;
    meta.total_folders = 56;
    meta.total_size = 7_890_000;
    meta.mark_complete_at(LATER);
    assert!(!meta.is_in_progress());
    assert!(meta.duration_secs().is_some());
    assert_eq!(meta.total_files, 1_234);
    assert_eq!(meta.total_folders, 56);
    assert_eq!(meta.total_size, 7_890_000);
}

// ---------------------------------------------------------------------------
// UiNode
// ---------------------------------------------------------------------------

fn make_fs_node() -> FsNode {
    FsNode::new("docs", "/home/user/docs", true)
}

#[test]
fn new_ui_node_is_collapsed() {
    let ui = UiNode::new(make_fs_node(), 2);
    assert_eq!(ui.depth, 2);
    assert!(!ui.expanded);
}

#[test]
fn accessors_delegate_to_inner_node() {
    let ui = UiNode::new(make_fs_node(), 0);
    assert_eq!(ui.name(), "docs");
    assert_eq!(ui.path(), "/home/user/docs");
    assert!(ui.is_dir());
}

#[test]
fn default_fs_node_is_an_empty_file() {
    let n = FsNode::default();
    assert_eq!(n.name, "");
    assert_eq!(n.path, "");
    assert!(!n.is_dir);
    assert_eq!(n.size, 0);
    assert!(n.children.is_empty());
}
