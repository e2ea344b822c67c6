//! Civil dates from day counts, and ISO 8601 timestamps from seconds.

use vstd::prelude::*;

verus! {

/// A leap year of the proleptic Gregorian calendar.
pub open spec fn is_leap(y: int) -> bool {
    y % 4 == 0 && (y % 100 != 0 || y % 400 == 0)
}

/// Number of days in year `y`.
pub open spec fn year_len(y: int) -> int {
    if is_leap(y) {
        366
    } else {
        365
    }
}

/// Number of days in month `m` (1 = January) of year `y`.
pub open spec fn month_len(y: int, m: int) -> int {
    if m == 2 {
        if is_leap(y) {
            29
        } else {
            28
        }
    } else if m == 4 || m == 6 || m == 9 || m == 11 {
        30
    } else {
        31
    }
}

/// Days from the first of January of year `y` to the first of month `m`.
pub open spec fn days_before_month(y: int, m: int) -> int
    decreases m,
{
    if m <= 1 {
        0
    } else {
        days_before_month(y, m - 1) + month_len(y, m - 1)
    }
}

/// Days from 1970-01-01 to the first of January of year `y` (`y >= 1970`).
pub open spec fn days_before_year(y: int) -> int
    decreases y - 1970,
{
    if y <= 1970 {
        0
    } else {
        days_before_year(y - 1) + year_len(y - 1)
    }
}

/// A date that exists: a month from 1 to 12 and a day within that month.
pub open spec fn valid_date(y: int, m: int, d: int) -> bool {
    &&& y >= 1970
    &&& 1 <= m <= 12
    &&& 1 <= d <= month_len(y, m)
}

/// Days from 1970-01-01 to the given date.
pub open spec fn days_since_epoch(y: int, m: int, d: int) -> int {
    days_before_year(y) + days_before_month(y, m) + d - 1
}

/// Leap years among `1..=x` (for `x >= 0`).
pub open spec fn leaps_upto(x: int) -> int {
    x / 4 - x / 100 + x / 400
}

proof fn lemma_leaps_step(y: int)
    requires
        y >= 1,
    ensures
        leaps_upto(y) - leaps_upto(y - 1) == if is_leap(y) {
            1int
        } else {
            0int
        },
{
    assert(y / 4 - (y - 1) / 4 == if y % 4 == 0 { 1int } else { 0int });
    assert(y / 100 - (y - 1) / 100 == if y % 100 == 0 { 1int } else { 0int });
    assert(y / 400 - (y - 1) / 400 == if y % 400 == 0 { 1int } else { 0int });
    if y % 400 == 0 {
        assert(y % 100 == 0 && y % 4 == 0);
    } else if y % 100 == 0 {
        assert(y % 4 == 0);
    }
}

/// Days before a year, counted as whole years plus leap days.
proof fn lemma_days_before_year_closed(y: int)
    requires
        y >= 1970,
    ensures
        days_before_year(y) == 365 * (y - 1970) + leaps_upto(y - 1) - leaps_upto(1969),
    decreases y - 1970,
{
    if y > 1970 {
        lemma_days_before_year_closed(y - 1);
        lemma_leaps_step(y - 1);
    }
}

proof fn lemma_cycles(k: int)
    requires
        k >= 0,
    ensures
        days_before_year(1970 + 400 * k) == 146097 * k,
        days_before_year(1970 + 400 * (k + 1)) == 146097 * k + 146097,
{
    lemma_days_before_year_closed(1970 + 400 * k);
    lemma_days_before_year_closed(1970 + 400 * (k + 1));
    assert(leaps_upto(1969 + 400 * k) == leaps_upto(1969) + 97 * k) by {
        assert((1969 + 400 * k) / 4 == 1969int / 4 + 100 * k);
        assert((1969 + 400 * k) / 100 == 1969int / 100 + 4 * k);
        assert((1969 + 400 * k) / 400 == 1969int / 400 + k);
    }
    assert(leaps_upto(1969 + 400 * (k + 1)) == leaps_upto(1969) + 97 * (k + 1)) by {
        assert((1969 + 400 * (k + 1)) / 4 == 1969int / 4 + 100 * (k + 1));
        assert((1969 + 400 * (k + 1)) / 100 == 1969int / 100 + 4 * (k + 1));
        assert((1969 + 400 * (k + 1)) / 400 == 1969int / 400 + (k + 1));
    }
}

proof fn lemma_days_before_year_mono(a: int, b: int)
    requires
        1970 <= a <= b,
    ensures
        days_before_year(a) <= days_before_year(b),
    decreases b - a,
{
    if a < b {
        lemma_days_before_year_mono(a, b - 1);
    }
}

proof fn lemma_months_fill_year(y: int)
    ensures
        days_before_month(y, 13) == year_len(y),
{
    reveal_with_fuel(days_before_month, 13);
}

/// The length of month `m` of year `y`.
fn month_days(y: u64, m: u64) -> (n: u64)
    requires
        1 <= m <= 12,
    ensures
        n == month_len(y as int, m as int),
{
    if m == 2 {
        if leap_year(y) {
            29
        } else {
            28
        }
    } else if m == 4 || m == 6 || m == 9 || m == 11 {
        30
    } else {
        31
    }
}

/// Whether `y` is a leap year.
fn leap_year(y: u64) -> (r: bool)
    ensures
        r == is_leap(y as int),
{
    y % 4 == 0 && (y % 100 != 0 || y % 400 == 0)
}

/// Converts a count of days since 1970-01-01 into the civil date
/// `(year, month, day)` of the proleptic Gregorian calendar.
pub fn days_to_ymd(days: u64) -> (ymd: (u64, u64, u64))
    requires
        days + 719_468 <= u64::MAX,
    ensures
        valid_date(ymd.0 as int, ymd.1 as int, ymd.2 as int),
        days_since_epoch(ymd.0 as int, ymd.1 as int, ymd.2 as int) == days,
{
    let cycles = days / 146_097;
    let mut rem = days % 146_097;
    let mut year: u64 = 1970 + 400 * cycles;
    let ghost base = 1970 + 400 * cycles;
    proof {
        lemma_cycles(cycles as int);
    }
    let mut len: u64 = if leap_year(year) { 366 } else { 365 };
    while rem >= len
        invariant
            len == year_len(year as int),
            base == 1970 + 400 * cycles,
            base <= year <= base + 400,
            base + 400 <= u64::MAX,
            days == days_before_year(year as int) + rem,
            days_before_year(base + 400) == days_before_year(base) + 146097,
            days_before_year(base) == 146097 * cycles,
            days == 146097 * cycles + days % 146_097,
            days % 146_097 < 146097,
            days_before_year(year as int) + rem < days_before_year(base + 400),
        decreases rem,
    {
        rem = rem - len;
        year = year + 1;
        len = if leap_year(year) { 366 } else { 365 };
        proof {
            if year > base + 400 {
                lemma_days_before_year_mono(base + 400, year as int);
            }
        }
    }
    let mut month: u64 = 1;
    proof {
        lemma_months_fill_year(year as int);
    }
    while rem >= month_days(year, month)
        invariant
            1 <= month <= 12,
            year >= 1970,
            days == days_before_year(year as int) + days_before_month(year as int, month as int) + rem,
            days_before_month(year as int, month as int) + rem < year_len(year as int),
            days_before_month(year as int, 13) == year_len(year as int),
        decreases 12 - month,
    {
        rem = rem - month_days(year, month);
        if month == 12 {
            assert(false);
        }
        month = month + 1;
    }
    (year, month, rem + 1)
}


proof fn lemma_days_before_month_mono(y: int, a: int, b: int)
    requires
        1 <= a <= b <= 13,
    ensures
        days_before_month(y, a) + (b - a) * 28 <= days_before_month(y, b),
    decreases b - a,
{
    if a < b {
        lemma_days_before_month_mono(y, a, b - 1);
    }
}

proof fn lemma_days_before_year_step(a: int, b: int)
    requires
        1970 <= a < b,
    ensures
        days_before_year(a) + year_len(a) <= days_before_year(b),
    decreases b - a,
{
    if a + 1 < b {
        lemma_days_before_year_step(a, b - 1);
    }
}

/// A day count names at most one date: two valid dates with the same
/// count since 1970-01-01 are the same date.
pub proof fn lemma_date_unique(y1: int, m1: int, d1: int, y2: int, m2: int, d2: int)
    requires
        valid_date(y1, m1, d1),
        valid_date(y2, m2, d2),
        days_since_epoch(y1, m1, d1) == days_since_epoch(y2, m2, d2),
    ensures
        y1 == y2 && m1 == m2 && d1 == d2,
{
    assert forall|y: int, m: int, d: int| #[trigger] valid_date(y, m, d) implies
        days_before_month(y, m) + d - 1 < year_len(y) by {
        lemma_days_before_month_mono(y, m + 1, 13);
        lemma_months_fill_year(y);
        assert(days_before_month(y, m + 1) == days_before_month(y, m) + month_len(y, m));
    }
    assert(valid_date(y1, m1, d1));
    assert(valid_date(y2, m2, d2));
    assert(days_before_month(y1, m1) + d1 - 1 < year_len(y1));
    assert(days_before_month(y2, m2) + d2 - 1 < year_len(y2));
    lemma_days_before_month_mono(y1, 1, m1);
    lemma_days_before_month_mono(y2, 1, m2);
    if y1 < y2 {
        lemma_days_before_year_step(y1, y2);
    } else if y2 < y1 {
        lemma_days_before_year_step(y2, y1);
    } else {
        if m1 < m2 {
            lemma_days_before_month_mono(y1, m1 + 1, m2);
            assert(days_before_month(y1, m1 + 1) == days_before_month(y1, m1) + month_len(y1, m1));
        } else if m2 < m1 {
            lemma_days_before_month_mono(y1, m2 + 1, m1);
            assert(days_before_month(y1, m2 + 1) == days_before_month(y1, m2) + month_len(y1, m2));
        }
    }
}

/// The date that lies `days` days after 1970-01-01.
pub open spec fn civil_date(days: int) -> (int, int, int) {
    choose|ymd: (int, int, int)|
        valid_date(ymd.0, ymd.1, ymd.2) && days_since_epoch(ymd.0, ymd.1, ymd.2) == days
}

/// The character of a decimal digit.
pub open spec fn digit_char(d: int) -> char {
    if d == 0 {
        '0'
    } else if d == 1 {
        '1'
    } else if d == 2 {
        '2'
    } else if d == 3 {
        '3'
    } else if d == 4 {
        '4'
    } else if d == 5 {
        '5'
    } else if d == 6 {
        '6'
    } else if d == 7 {
        '7'
    } else if d == 8 {
        '8'
    } else {
        '9'
    }
}

/// The decimal digits of `n`, most significant first, without padding.
pub open spec fn dec_digits(n: nat) -> Seq<char>
    decreases n,
{
    if n < 10 {
        seq![digit_char(n as int)]
    } else {
        dec_digits(n / 10).push(digit_char((n % 10) as int))
    }
}

/// The decimal digits of `n`, left-padded with zeros to at least `width`
/// characters (as `{:0width$}` formats an unsigned integer).
pub open spec fn padded(n: nat, width: nat) -> Seq<char> {
    let s = dec_digits(n);
    if s.len() >= width {
        s
    } else {
        Seq::new((width - s.len()) as nat, |i: int| '0') + s
    }
}

/// `YYYY-MM-DDTHH:MM:SSZ` for a count of seconds since the epoch (UTC,
/// second precision).
pub open spec fn iso_text(secs: nat) -> Seq<char> {
    let (y, m, d) = civil_date((secs / 86400) as int);
    padded(y as nat, 4) + seq!['-'] + padded(m as nat, 2) + seq!['-'] + padded(d as nat, 2) + seq!['T']
        + padded(((secs / 3600) % 24) as nat, 2) + seq![':'] + padded(((secs / 60) % 60) as nat, 2)
        + seq![':'] + padded((secs % 60) as nat, 2) + seq!['Z']
}

/// Appends the decimal digit `d`.
fn append_digit(out: &mut String, d: u64)
    requires
        d < 10,
    ensures
        final(out)@ == old(out)@.push(digit_char(d as int)),
{
    let lit = if d == 0 {
        "0"
    } else if d == 1 {
        "1"
    } else if d == 2 {
        "2"
    } else if d == 3 {
        "3"
    } else if d == 4 {
        "4"
    } else if d == 5 {
        "5"
    } else if d == 6 {
        "6"
    } else if d == 7 {
        "7"
    } else if d == 8 {
        "8"
    } else {
        "9"
    };
    proof {
        reveal_strlit("0");
        reveal_strlit("1");
        reveal_strlit("2");
        reveal_strlit("3");
        reveal_strlit("4");
        reveal_strlit("5");
        reveal_strlit("6");
        reveal_strlit("7");
        reveal_strlit("8");
        reveal_strlit("9");
    }
    assert(lit@ =~= seq![digit_char(d as int)]);
    out.append(lit);
    assert(out@ =~= old(out)@.push(digit_char(d as int)));
}

/// Appends `n` in decimal, zero-padded to at least `width` characters.
fn push_padded(out: &mut String, n: u64, width: usize)
    ensures
        final(out)@ == old(out)@ + padded(n as nat, width as nat),
{
    let mut rev: Vec<u64> = Vec::new();
    rev.push(n % 10);
    let mut x = n / 10;
    let ghost mut fwd: Seq<char> = seq![digit_char((n % 10) as int)];
    while x > 0
        invariant
            dec_digits(n as nat) == (if x == 0 {
                Seq::<char>::empty()
            } else {
                dec_digits(x as nat)
            }) + fwd,
            fwd.len() == rev@.len(),
            forall|i: int| 0 <= i < rev@.len() ==> #[trigger] rev@[i] < 10,
            forall|i: int| 0 <= i < fwd.len() ==> #[trigger] fwd[i] == digit_char(rev@[rev@.len() - 1 - i] as int),
        decreases x,
    {
        let d = x % 10;
        rev.push(d);
        proof {
            let nf = seq![digit_char(d as int)] + fwd;
            assert forall|i: int| 0 <= i < nf.len() implies #[trigger] nf[i] == digit_char(
                rev@[rev@.len() - 1 - i] as int,
            ) by {
                if i > 0 {
                    assert(nf[i] == fwd[i - 1]);
                }
            }
            if x / 10 == 0 {
                assert(dec_digits(x as nat) == seq![digit_char(d as int)]);
            }
            assert(dec_digits(n as nat) =~= (if x / 10 == 0 {
                Seq::<char>::empty()
            } else {
                dec_digits((x / 10) as nat)
            }) + nf);
            fwd = nf;
        }
        x = x / 10;
    }
    assert(dec_digits(n as nat) =~= fwd);
    let len = rev.len();
    let ghost start = out@;
    if len < width {
        let mut k: usize = 0;
        while k < width - len
            invariant
                k <= width - len,
                len < width,
                out@ == start + Seq::new(k as nat, |i: int| '0'),
            decreases width - len - k,
        {
            append_digit(out, 0);
            k = k + 1;
            assert(out@ =~= start + Seq::new(k as nat, |i: int| '0'));
        }
    }
    let ghost zeros = out@;
    let mut j: usize = len;
    while j > 0
        invariant
            j <= len,
            len == rev@.len(),
            fwd.len() == len,
            forall|i: int| 0 <= i < rev@.len() ==> #[trigger] rev@[i] < 10,
            forall|i: int| 0 <= i < fwd.len() ==> #[trigger] fwd[i] == digit_char(rev@[rev@.len() - 1 - i] as int),
            out@ == zeros + fwd.take((len - j) as int),
        decreases j,
    {
        j = j - 1;
        append_digit(out, rev[j]);
        assert(fwd.take((len - j) as int) =~= fwd.take((len - j - 1) as int).push(fwd[(len - j - 1) as int]));
    }
    assert(fwd.take(len as int) =~= fwd);
    assert(out@ =~= start + padded(n as nat, width as nat));
}

/// Formats a count of seconds since the Unix epoch as an ISO 8601 string
/// (UTC, second precision): `YYYY-MM-DDTHH:MM:SSZ`.
pub fn format_system_time(secs: u64) -> (text: String)
    ensures
        text@ == iso_text(secs as nat),
{
    let sec = secs % 60;
    let min = (secs / 60) % 60;
    let hour = (secs / 3600) % 24;
    let days = secs / 86400;
    let (year, month, day) = days_to_ymd(days);
    proof {
        let c = civil_date(days as int);
        assert(valid_date(year as int, month as int, day as int)
            && days_since_epoch(year as int, month as int, day as int) == days);
        let w = (year as int, month as int, day as int);
        assert(valid_date(c.0, c.1, c.2) && days_since_epoch(c.0, c.1, c.2) == days);
        lemma_date_unique(c.0, c.1, c.2, year as int, month as int, day as int);
    }
    proof {
        reveal_strlit("-");
        reveal_strlit("T");
        reveal_strlit(":");
        reveal_strlit("Z");
    }
    let mut out = String::new();
    push_padded(&mut out, year, 4);
    out.append("-");
    push_padded(&mut out, month, 2);
    out.append("-");
    push_padded(&mut out, day, 2);
    out.append("T");
    push_padded(&mut out, hour, 2);
    out.append(":");
    push_padded(&mut out, min, 2);
    out.append(":");
    push_padded(&mut out, sec, 2);
    out.append("Z");
    assert(out@ =~= iso_text(secs as nat));
    out
}

} // verus!
