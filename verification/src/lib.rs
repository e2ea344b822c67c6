//! Verified core of a disk-usage analyser: size-change classification,
//! filesystem trees, scan bookkeeping and the work queue that drives
//! directory scanning.

pub mod size_change;
pub mod calendar;
pub mod db_node;
pub mod drive_info;
pub mod flatten;
pub mod fs_node;
pub mod listing;
pub mod paths;
pub mod persist;
pub mod scan_message;
pub mod scan_meta;
pub mod tree;
pub mod work_queue;
pub mod worker;
pub mod view_state;
pub mod round_trip;
pub mod directory_scanner;
pub mod tree_scan;
pub mod dir_walk;
pub mod history;
pub mod dir_entry;
