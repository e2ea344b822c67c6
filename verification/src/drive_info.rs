//! Drive and volume information.

use vstd::prelude::*;

verus! {

/// Information about a storage drive or volume.
#[derive(Debug, Clone, PartialEq)]
pub struct DriveInfo {
    /// The drive name or mount point (e.g. `C:\` on Windows, `/` on Unix).
    pub name: String,
    /// The volume label assigned to the drive, if any.
    pub volume_label: Option<String>,
    /// Total capacity of the drive in bytes.
    pub total_space: u64,
    /// Available (free) space on the drive in bytes.
    pub available_space: u64,
}

/// The used space of a drive: total minus available, or zero when more is
/// reported available than in total.
pub open spec fn used_of(total: u64, available: u64) -> u64 {
    if total >= available {
        (total - available) as u64
    } else {
        0
    }
}

impl DriveInfo {
    /// Creates a `DriveInfo` with the given drive details.
    pub fn new(name: &str, volume_label: Option<String>, total_space: u64, available_space: u64) -> (d: Self)
        ensures
            d.name@ == name@,
            d.volume_label == volume_label,
            d.total_space == total_space,
            d.available_space == available_space,
    {
        DriveInfo { name: name.to_string(), volume_label, total_space, available_space }
    }

    /// Returns the used space in bytes (saturating at zero).
    pub fn used_space(&self) -> (used: u64)
        ensures
            used == used_of(self.total_space, self.available_space),
    {
        if self.total_space >= self.available_space {
            self.total_space - self.available_space
        } else {
            0
        }
    }

    /// Returns `true` if the drive has a volume label.
    pub fn has_label(&self) -> (r: bool)
        ensures
            r == self.volume_label.is_some(),
    {
        self.volume_label.is_some()
    }
}

} // verus!
