//! Scan session metadata.

use vstd::prelude::*;

verus! {

/// A point in time: whole seconds since the Unix epoch and the nanoseconds
/// past that second.
#[derive(Debug, Clone, Copy, PartialEq, Eq)]
pub struct Timestamp {
    /// Seconds since 1970-01-01T00:00:00Z.
    pub secs: i64,
    /// Nanoseconds past `secs`.
    pub nanos: u32,
}

/// Nanoseconds since the epoch.
pub open spec fn total_nanos(t: Timestamp) -> int {
    t.secs * 1_000_000_000 + t.nanos
}

/// `a / b` rounded toward zero.
pub open spec fn div_toward_zero(a: int, b: int) -> int {
    if a >= 0 {
        a / b
    } else {
        -((-a) / b)
    }
}

/// Whole seconds from `start` to `end`, rounded toward zero.
pub open spec fn seconds_between(start: Timestamp, end: Timestamp) -> int {
    div_toward_zero(total_nanos(end) - total_nanos(start), 1_000_000_000)
}

/// Metadata describing a single disk-scan session: when it ran, which path
/// was scanned, and summary statistics about the results.
#[derive(Debug, Clone, PartialEq)]
pub struct ScanMeta {
    /// Unique identifier for this scan session.
    pub id: i64,
    /// The root path that was scanned.
    pub root_path: String,
    /// When the scan was started.
    pub started_at: Timestamp,
    /// When the scan completed, or `None` while it is in progress.
    pub completed_at: Option<Timestamp>,
    /// Total number of files discovered during the scan.
    pub total_files: u64,
    /// Total number of folders discovered during the scan.
    pub total_folders: u64,
    /// Total size in bytes of all scanned items.
    pub total_size: u64,
    /// Whether the scan completed successfully.
    pub success: bool,
    /// An error message if the scan did not complete successfully.
    pub error_message: Option<String>,
}

impl ScanMeta {
    /// A scan of `root_path` started at `started_at`: in progress, with no
    /// results yet.
    pub fn new_at(id: i64, root_path: &str, started_at: Timestamp) -> (m: Self)
        ensures
            m.id == id,
            m.root_path@ == root_path@,
            m.started_at == started_at,
            m.completed_at is None,
            m.total_files == 0,
            m.total_folders == 0,
            m.total_size == 0,
            !m.success,
            m.error_message is None,
    {
        ScanMeta {
            id,
            root_path: root_path.to_string(),
            started_at,
            completed_at: None,
            total_files: 0,
            total_folders: 0,
            total_size: 0,
            success: false,
            error_message: None,
        }
    }

    /// Marks the scan as successfully completed at `at`.
    pub fn mark_complete_at(&mut self, at: Timestamp)
        ensures
            *final(self) == (ScanMeta { completed_at: Some(at), success: true, ..*old(self) }),
    {
        self.completed_at = Some(at);
        self.success = true;
    }

    /// Marks the scan as failed at `at` with the given error message.
    pub fn mark_failed_at(&mut self, error: &str, at: Timestamp)
        ensures
            final(self).error_message matches Some(e) && e@ == error@,
            *final(self) == (ScanMeta {
                completed_at: Some(at),
                success: false,
                error_message: final(self).error_message,
                ..*old(self)
            }),
    {
        self.completed_at = Some(at);
        self.success = false;
        self.error_message = Some(error.to_string());
    }

    /// The duration of the scan in whole seconds (rounded toward zero), or
    /// `None` while it is in progress.
    pub fn duration_secs(&self) -> (d: Option<i64>)
        requires
            self.completed_at matches Some(end) ==> i64::MIN <= seconds_between(self.started_at, end) <= i64::MAX,
        ensures
            match self.completed_at {
                Some(end) => d == Some(seconds_between(self.started_at, end) as i64),
                None => d is None,
            },
    {
        match self.completed_at {
            Some(end) => {
                let start = self.started_at;
                let diff: i128 = (end.secs as i128 - start.secs as i128) * 1_000_000_000
                    + (end.nanos as i128 - start.nanos as i128);
                assert(diff == total_nanos(end) - total_nanos(start));
                let secs: i128 = if diff >= 0 {
                    diff / 1_000_000_000
                } else {
                    -((-diff) / 1_000_000_000)
                };
                Some(secs as i64)
            },
            None => None,
        }
    }

    /// Returns `true` while the scan is in progress.
    pub fn is_in_progress(&self) -> (r: bool)
        ensures
            r == self.completed_at.is_none(),
    {
        self.completed_at.is_none()
    }
}

} // verus!
