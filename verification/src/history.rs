//! The scan-history panel's choices: a base scan and a new scan picked for
//! comparison, and the requests its buttons send.

use vstd::prelude::*;

verus! {

/// The scans picked for comparison.
#[derive(Debug, Clone, Copy, PartialEq, Eq, Structural)]
pub struct HistorySelection {
    /// The base (older) scan.
    pub compare_a: Option<i64>,
    /// The new scan.
    pub compare_b: Option<i64>,
}

/// A button pressed in the history panel.
#[derive(Debug, Clone, Copy, PartialEq, Eq, Structural)]
pub enum HistoryClick {
    /// "Base" on the row of this scan.
    Base(i64),
    /// "New" on the row of this scan.
    New(i64),
    /// "Delete" on the row of this scan.
    Delete(i64),
    /// "Compare".
    Compare,
}

/// A request the history panel sends.
#[derive(Debug, Clone, Copy, PartialEq, Eq, Structural)]
pub enum ScanHistoryEvent {
    /// Compare the scan `new_id` against the scan `base_id`.
    CompareRequested { base_id: i64, new_id: i64 },
    /// Delete this scan.
    DeleteRequested(i64),
}

/// The selection after a click and the request it sends: "Base" and "New"
/// set their choice; "Delete" sends the row's id; "Compare" sends both
/// choices when both are set and nothing otherwise.
pub open spec fn history_step(sel: HistorySelection, click: HistoryClick) -> (HistorySelection, Option<ScanHistoryEvent>) {
    match click {
        HistoryClick::Base(id) => (HistorySelection { compare_a: Some(id), ..sel }, None),
        HistoryClick::New(id) => (HistorySelection { compare_b: Some(id), ..sel }, None),
        HistoryClick::Delete(id) => (sel, Some(ScanHistoryEvent::DeleteRequested(id))),
        HistoryClick::Compare => match (sel.compare_a, sel.compare_b) {
            (Some(a), Some(b)) => (sel, Some(ScanHistoryEvent::CompareRequested { base_id: a, new_id: b })),
            _ => (sel, None),
        },
    }
}

impl HistorySelection {
    /// Nothing picked.
    pub fn new() -> (s: Self)
        ensures
            s.compare_a is None,
            s.compare_b is None,
    {
        HistorySelection { compare_a: None, compare_b: None }
    }

    /// Whether both scans are picked, so that "Compare" is enabled.
    pub fn can_compare(&self) -> (r: bool)
        ensures
            r == (self.compare_a is Some && self.compare_b is Some),
    {
        self.compare_a.is_some() && self.compare_b.is_some()
    }
}

/// Handles a click in the history panel (see [`history_step`]).
pub fn history_click(sel: HistorySelection, click: HistoryClick) -> (r: (HistorySelection, Option<ScanHistoryEvent>))
    ensures
        r == history_step(sel, click),
{
    match click {
        HistoryClick::Base(id) => (HistorySelection { compare_a: Some(id), ..sel }, None),
        HistoryClick::New(id) => (HistorySelection { compare_b: Some(id), ..sel }, None),
        HistoryClick::Delete(id) => (sel, Some(ScanHistoryEvent::DeleteRequested(id))),
        HistoryClick::Compare => match (sel.compare_a, sel.compare_b) {
            (Some(a), Some(b)) => (sel, Some(ScanHistoryEvent::CompareRequested { base_id: a, new_id: b })),
            _ => (sel, None),
        },
    }
}

/// A comparison is requested only with both scans picked, and with exactly
/// the picked ones.
pub proof fn lemma_compare_needs_both(sel: HistorySelection, click: HistoryClick)
    ensures
        history_step(sel, click).1 matches Some(ScanHistoryEvent::CompareRequested { base_id, new_id }) ==> (
        click == HistoryClick::Compare && sel.compare_a == Some(base_id) && sel.compare_b == Some(new_id)),
{
}

/// "Base" picks the base scan and leaves the new scan as it was; "New"
/// picks the new scan and leaves the base scan as it was; neither sends a
/// request.
pub proof fn lemma_picks_are_independent(sel: HistorySelection, id: i64)
    ensures
        history_step(sel, HistoryClick::Base(id)).0.compare_a == Some(id),
        history_step(sel, HistoryClick::Base(id)).0.compare_b == sel.compare_b,
        history_step(sel, HistoryClick::Base(id)).1 is None,
        history_step(sel, HistoryClick::New(id)).0.compare_b == Some(id),
        history_step(sel, HistoryClick::New(id)).0.compare_a == sel.compare_a,
        history_step(sel, HistoryClick::New(id)).1 is None,
{
}

/// Once both scans are picked, in either order, "Compare" requests the
/// comparison of the picked new scan against the picked base scan.
pub proof fn lemma_pick_both_then_compare(sel: HistorySelection, base: i64, new: i64)
    ensures
        ({
            let s1 = history_step(history_step(sel, HistoryClick::Base(base)).0, HistoryClick::New(new)).0;
            history_step(s1, HistoryClick::Compare).1 == Some(
                ScanHistoryEvent::CompareRequested { base_id: base, new_id: new },
            )
        }),
        ({
            let s2 = history_step(history_step(sel, HistoryClick::New(new)).0, HistoryClick::Base(base)).0;
            history_step(s2, HistoryClick::Compare).1 == Some(
                ScanHistoryEvent::CompareRequested { base_id: base, new_id: new },
            )
        }),
{
}

/// "Compare" and "Delete" leave the picks unchanged; "Delete" requests the
/// deletion of its row's scan.
pub proof fn lemma_requests_keep_picks(sel: HistorySelection, id: i64)
    ensures
        history_step(sel, HistoryClick::Compare).0 == sel,
        history_step(sel, HistoryClick::Delete(id)).0 == sel,
        history_step(sel, HistoryClick::Delete(id)).1 == Some(ScanHistoryEvent::DeleteRequested(id)),
        (history_step(sel, HistoryClick::Compare).1 is Some) == (sel.compare_a is Some && sel.compare_b is Some),
{
}

} // verus!
