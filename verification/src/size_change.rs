//! Classification of the size difference of one item between two scans.

use vstd::prelude::*;

verus! {

/// Direction and magnitude of a size change between two scans.
#[derive(Debug, Clone, Copy, PartialEq, Eq, Hash, Structural)]
pub enum SizeChangeTrend {
    /// The item is new (no previous size recorded).
    New,
    /// The item was deleted (no current size, only previous).
    Deleted,
    /// The item grew by at least the threshold.
    IncreasedLarge,
    /// The item grew by less than the threshold.
    IncreasedSmall,
    /// The item shrank by less than the threshold.
    DecreasedSmall,
    /// The item shrank by at least the threshold.
    DecreasedLarge,
    /// No change in size.
    Unchanged,
}

/// The colour that belongs to each trend, as a sequence of characters.
pub open spec fn trend_color(t: SizeChangeTrend) -> Seq<char> {
    match t {
        SizeChangeTrend::New => "#4CAF50"@,
        SizeChangeTrend::Deleted => "#9E9E9E"@,
        SizeChangeTrend::IncreasedLarge => "#F44336"@,
        SizeChangeTrend::IncreasedSmall => "#FF9800"@,
        SizeChangeTrend::DecreasedSmall => "#8BC34A"@,
        SizeChangeTrend::DecreasedLarge => "#2196F3"@,
        SizeChangeTrend::Unchanged => "#BDBDBD"@,
    }
}

impl SizeChangeTrend {
    /// Returns the canonical hex colour associated with this trend.
    pub fn hex_color(self) -> (color: &'static str)
        ensures
            color@ == trend_color(self),
    {
        match self {
            SizeChangeTrend::New => "#4CAF50",
            SizeChangeTrend::Deleted => "#9E9E9E",
            SizeChangeTrend::IncreasedLarge => "#F44336",
            SizeChangeTrend::IncreasedSmall => "#FF9800",
            SizeChangeTrend::DecreasedSmall => "#8BC34A",
            SizeChangeTrend::DecreasedLarge => "#2196F3",
            SizeChangeTrend::Unchanged => "#BDBDBD",
        }
    }
}


/// Represents a classified size change between two scan sessions: the trend,
/// the raw delta and the hex colour used to render it.
#[derive(Debug, Clone, PartialEq)]
pub struct SizeChange {
    /// The trend / classification of the size change.
    pub trend: SizeChangeTrend,
    /// The raw size delta in bytes (positive = grew, negative = shrank).
    pub delta_bytes: i64,
    /// A CSS-style hex colour string for rendering.
    pub hex_color: String,
}

/// The value of a `u64` reinterpreted as a two's-complement `i64`
/// (what `x as i64` yields).
pub open spec fn as_signed(x: u64) -> int {
    if x <= i64::MAX {
        x as int
    } else {
        x - 0x1_0000_0000_0000_0000
    }
}

/// The signed delta between two sizes, both read as `i64`.
pub open spec fn signed_delta(cur: u64, prev: u64) -> int {
    as_signed(cur) - as_signed(prev)
}

/// The inputs on which classification stays within `i64` arithmetic.
pub open spec fn classify_in_range(current: Option<u64>, previous: Option<u64>) -> bool {
    match (current, previous) {
        (Some(c), Some(p)) => i64::MIN <= signed_delta(c, p) <= i64::MAX,
        (None, Some(p)) => p != 0x8000_0000_0000_0000u64,
        _ => true,
    }
}

/// The trend of a size change with the given threshold.
pub open spec fn trend_of(current: Option<u64>, previous: Option<u64>, large_threshold: u64) -> SizeChangeTrend {
    match (current, previous) {
        (Some(_), None) => SizeChangeTrend::New,
        (None, Some(_)) => SizeChangeTrend::Deleted,
        (None, None) => SizeChangeTrend::Unchanged,
        (Some(c), Some(p)) => {
            let d = signed_delta(c, p);
            if d == 0 {
                SizeChangeTrend::Unchanged
            } else if d > 0 {
                if d >= large_threshold {
                    SizeChangeTrend::IncreasedLarge
                } else {
                    SizeChangeTrend::IncreasedSmall
                }
            } else if -d >= large_threshold {
                SizeChangeTrend::DecreasedLarge
            } else {
                SizeChangeTrend::DecreasedSmall
            }
        },
    }
}

/// The signed byte delta of a size change.
pub open spec fn delta_of(current: Option<u64>, previous: Option<u64>) -> int {
    match (current, previous) {
        (Some(c), Some(p)) => signed_delta(c, p),
        (Some(c), None) => as_signed(c),
        (None, Some(p)) => -as_signed(p),
        (None, None) => 0,
    }
}

/// Reinterprets a `u64` as an `i64`, as `x as i64` does.
pub fn to_signed(x: u64) -> (r: i64)
    ensures
        r == as_signed(x),
{
    let r = x as i64;
    if x <= 0x7fff_ffff_ffff_ffffu64 {
        r
    } else {
        assert(r == x - 0x1_0000_0000_0000_0000) by (bit_vector)
            requires
                r == x as i64,
                x > 0x7fff_ffff_ffff_ffffu64,
        ;
        r
    }
}

/// The trend agrees with the delta: an item present in both scans is
/// unchanged exactly when the delta is zero, grew exactly when it is
/// positive, and changed by a large amount exactly when the delta's
/// magnitude reaches the threshold; a new item's delta is its size and a
/// deleted item's delta is minus its previous size.
pub proof fn lemma_trend_matches_delta(current: Option<u64>, previous: Option<u64>, large_threshold: u64)
    ensures
        (current is Some && previous is Some) ==> {
            let d = delta_of(current, previous);
            let t = trend_of(current, previous, large_threshold);
            &&& (t == SizeChangeTrend::Unchanged <==> d == 0)
            &&& (t == SizeChangeTrend::IncreasedLarge || t == SizeChangeTrend::IncreasedSmall <==> d > 0)
            &&& (t == SizeChangeTrend::DecreasedLarge || t == SizeChangeTrend::DecreasedSmall <==> d < 0)
            &&& (t == SizeChangeTrend::IncreasedLarge || t == SizeChangeTrend::DecreasedLarge <==> d != 0 && (
            d >= large_threshold || -d >= large_threshold))
        },
        current matches Some(c) ==> (previous is None ==> trend_of(current, previous, large_threshold)
            == SizeChangeTrend::New && delta_of(current, previous) == as_signed(c)),
        previous matches Some(p) ==> (current is None ==> trend_of(current, previous, large_threshold)
            == SizeChangeTrend::Deleted && delta_of(current, previous) == -as_signed(p)),
{
}

impl SizeChange {
    /// Classifies a size change given the `current` and optional `previous`
    /// size in bytes, using `large_threshold` (in bytes) to tell large from
    /// small changes.
    pub fn classify(current: Option<u64>, previous: Option<u64>, large_threshold: u64) -> (sc: Self)
        requires
            classify_in_range(current, previous),
        ensures
            sc.trend == trend_of(current, previous, large_threshold),
            sc.delta_bytes == delta_of(current, previous),
            sc.hex_color@ == trend_color(sc.trend),
    {
        let trend = match (current, previous) {
            (Some(_), None) => SizeChangeTrend::New,
            (None, Some(_)) => SizeChangeTrend::Deleted,
            (None, None) => SizeChangeTrend::Unchanged,
            (Some(cur), Some(prev)) => {
                let delta = to_signed(cur) - to_signed(prev);
                let abs_delta: u64 = if delta >= 0 {
                    delta as u64
                } else {
                    (0i128 - delta as i128) as u64
                };
                if abs_delta == 0 {
                    SizeChangeTrend::Unchanged
                } else if delta > 0 {
                    if abs_delta >= large_threshold {
                        SizeChangeTrend::IncreasedLarge
                    } else {
                        SizeChangeTrend::IncreasedSmall
                    }
                } else if abs_delta >= large_threshold {
                    SizeChangeTrend::DecreasedLarge
                } else {
                    SizeChangeTrend::DecreasedSmall
                }
            },
        };
        let delta_bytes: i64 = match (current, previous) {
            (Some(cur), Some(prev)) => to_signed(cur) - to_signed(prev),
            (Some(cur), None) => to_signed(cur),
            (None, Some(prev)) => -to_signed(prev),
            (None, None) => 0,
        };
        let color = trend.hex_color();
        SizeChange { hex_color: color.to_string(), trend, delta_bytes }
    }
}

} // verus!
