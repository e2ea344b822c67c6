# storage_wars

A disk-usage analyser whose core is verified with Verus.

`src/` is the verified library. The filesystem, the database, the clock
reading and the threads stay outside it. What they read is handed in as
plain values, and the library returns plain values.

- `size_change`: classifies the size change of an item between two scans.
- `fs_node`, `db_node`, `drive_info`, `scan_message`, `scan_meta`: the data model.
- `tree`: bottom-up aggregation, incremental insertion of children, and
  comparison against an earlier scan.
- `flatten`: the display rows of a tree.
- `persist`, `round_trip`: the rows stored for a tree, the tree rebuilt
  from loaded rows, and the proof that rebuilding gives the saved tree back.
- `listing`, `tree_scan`, `dir_walk`, `worker`: how a directory listing and
  the recursive scans turn reads into entries, trees and totals.
- `work_queue`, `directory_scanner`: the work queue shared by scanner
  threads, and the state of an incremental scan.
- `calendar`: civil dates and ISO 8601 timestamps.
- `paths`: paths compared by their components, and their canonical text.
- `history`: choosing two saved scans to compare, or one to delete.
- `dir_entry`: the entry a flat scan reports.
- `view_state`: expanding and collapsing directories, and comparing two
  saved scans.

`app/` is a command-line front end. It reads the filesystem, runs the
worker threads, stores scans in SQLite and prints the results.
