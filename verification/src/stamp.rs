//! Calendar dates and time stamps of the save book.

use vstd::prelude::*;
use crate::text::{decimal, push_padded, zero_padded};

verus! {

/// Gregorian leap year.
pub open spec fn is_leap(y: int) -> bool {
    y % 4 == 0 && (y % 100 != 0 || y % 400 == 0)
}

/// Length of month `m` (1 = January) of year `y`.
pub open spec fn month_days(y: int, m: int) -> int {
    if m == 2 {
        if is_leap(y) { 29 } else { 28 }
    } else if m == 4 || m == 6 || m == 9 || m == 11 {
        30
    } else {
        31
    }
}

/// Days of year `y` before the first of month `m`.
pub open spec fn days_before_month(y: int, m: int) -> int
    decreases m,
{
    if m <= 1 {
        0
    } else {
        days_before_month(y, m - 1) + month_days(y, m - 1)
    }
}

/// Days from 1970-01-01 to the first of January of year `y` (`y >= 1970`).
pub open spec fn days_before_year(y: int) -> int
    decreases y - 1970,
{
    if y <= 1970 {
        0
    } else {
        days_before_year(y - 1) + if is_leap(y - 1) { 366int } else { 365int }
    }
}

/// `(y, m, d)` is the calendar date that lies `days` days after 1970-01-01.
pub open spec fn is_date_of(days: int, y: int, m: int, d: int) -> bool {
    &&& y >= 1970
    &&& 1 <= m <= 12
    &&& 1 <= d <= month_days(y, m)
    &&& days == days_before_year(y) + days_before_month(y, m) + d - 1
}

/// Days from 0000-03-01 to March 1st of year `y` (`y >= 0`), proleptic Gregorian.
spec fn march_days(y: int) -> int {
    365 * y + y / 4 - y / 100 + y / 400
}

proof fn lemma_march_step(y: int)
    requires
        y >= 1,
    ensures
        march_days(y) == march_days(y - 1) + 365 + if is_leap(y) { 1int } else { 0int },
{
}

proof fn lemma_march_monotone(a: int, b: int)
    requires
        0 <= a <= b,
    ensures
        march_days(a) <= march_days(b),
        a < b ==> march_days(a) + 365 <= march_days(b),
{
}

proof fn lemma_days_before_year(y: int)
    requires
        y >= 1970,
    ensures
        days_before_year(y) == march_days(y - 1) + 306 - 719468,
    decreases y - 1970,
{
    if y > 1970 {
        lemma_days_before_year(y - 1);
        lemma_march_step(y - 1);
    }
}

proof fn lemma_year_of_cycle_day(doe: int)
    requires
        0 <= doe <= 146096,
    ensures
        ({
            let yoe = (doe - doe / 1460 + doe / 36524 - doe / 146096) / 365;
            &&& 0 <= yoe <= 399
            &&& 365 * yoe + yoe / 4 - yoe / 100 <= doe
            &&& doe < 365 * (yoe + 1) + (yoe + 1) / 4 - (yoe + 1) / 100 + (yoe + 1) / 400
        }),
{
}

/// First day, counted from March 1st, of March-based month `mp` (0 = March).
spec fn march_month_start(mp: int) -> int {
    (153 * mp + 2) / 5
}

proof fn lemma_month_of_year_day(doy: int)
    requires
        0 <= doy <= 365,
    ensures
        ({
            let mp = (5 * doy + 2) / 153;
            &&& 0 <= mp <= 11
            &&& march_month_start(mp) <= doy
            &&& mp < 11 ==> doy < march_month_start(mp + 1)
        }),
{
}

proof fn lemma_days_before_month_table(y: int, m: int)
    requires
        1 <= m <= 12,
    ensures
        days_before_month(y, m) == if m <= 2 {
            march_month_start(m + 9) - 306
        } else {
            march_month_start(m - 3) + 59 + if is_leap(y) { 1int } else { 0int }
        },
{
    reveal_with_fuel(days_before_month, 13);
}

/// Hinnant's days-to-civil arithmetic, for `days >= 0`.
spec fn civil_parts(days: int) -> (int, int, int) {
    let z = days + 719468;
    let era = z / 146097;
    let doe = z - era * 146097;
    let yoe = (doe - doe / 1460 + doe / 36524 - doe / 146096) / 365;
    let y = yoe + era * 400;
    let doy = doe - (365 * yoe + yoe / 4 - yoe / 100);
    let mp = (5 * doy + 2) / 153;
    let d = doy - (153 * mp + 2) / 5 + 1;
    let m = if mp < 10 { mp + 3 } else { mp - 9 };
    let y = if m <= 2 { y + 1 } else { y };
    (y, m, d)
}

proof fn lemma_shift_div(a: int, k: int, c: int)
    requires
        c > 0,
        a >= 0,
        k >= 0,
    ensures
        (a + k * c) / c == a / c + k,
{
    vstd::arithmetic::div_mod::lemma_hoist_over_denominator(a, k, c as nat);
}

proof fn lemma_era_split(z: int, era: int, doe: int, yoe: int)
    requires
        z >= 0,
        era == z / 146097,
        doe == z - era * 146097,
        0 <= yoe <= 399,
    ensures
        0 <= doe <= 146096,
        era >= 0,
        march_days(yoe + era * 400) == era * 146097 + 365 * yoe + yoe / 4 - yoe / 100,
        march_days(yoe + era * 400 + 1) == era * 146097 + 365 * (yoe + 1) + (yoe + 1) / 4 - (yoe + 1)
            / 100 + (yoe + 1) / 400,
{
    vstd::arithmetic::div_mod::lemma_fundamental_div_mod(z, 146097);
    assert(0 <= z % 146097 < 146097) by {
        vstd::arithmetic::div_mod::lemma_mod_bound(z, 146097);
    }
    assert(0 <= doe <= 146096);
    assert(era >= 0) by {
        vstd::arithmetic::div_mod::lemma_div_pos_is_pos(z, 146097);
    }
    lemma_shift_div(yoe, era * 100, 4);
    lemma_shift_div(yoe, era * 4, 100);
    lemma_shift_div(yoe, era, 400);
    assert(era * 100 * 4 == era * 400);
    assert(era * 4 * 100 == era * 400);
    lemma_shift_div(yoe + 1, era * 100, 4);
    lemma_shift_div(yoe + 1, era * 4, 100);
    lemma_shift_div(yoe + 1, era, 400);
    assert(yoe / 400 == 0);
}

proof fn lemma_civil_parts(days: int)
    requires
        days >= 0,
    ensures
        is_date_of(days, civil_parts(days).0, civil_parts(days).1, civil_parts(days).2),
{
    let z = days + 719468;
    let era = z / 146097;
    let doe = z - era * 146097;
    let yoe = (doe - doe / 1460 + doe / 36524 - doe / 146096) / 365;
    let yy = yoe + era * 400;
    let doy = doe - (365 * yoe + yoe / 4 - yoe / 100);
    let mp = (5 * doy + 2) / 153;
    let d = doy - (153 * mp + 2) / 5 + 1;
    let m = if mp < 10 { mp + 3 } else { mp - 9 };
    let y = if m <= 2 { yy + 1 } else { yy };
    assert(0 <= doe <= 146096) by {
        lemma_era_split(z, era, doe, 0);
    }
    lemma_year_of_cycle_day(doe);
    lemma_era_split(z, era, doe, yoe);
    lemma_march_step(yy + 1);
    assert(0 <= doy <= 365);
    lemma_month_of_year_day(doy);
    assert(march_days(yy) + doy == z);
    assert(yy >= 1969) by {
        if yy < 1969 {
            lemma_march_monotone(yy + 1, 1969);
        }
    }
    lemma_days_before_month_table(y, m);
    if m <= 2 {
        lemma_days_before_year(yy + 1);
    } else {
        lemma_days_before_year(yy);
        lemma_march_step(yy);
        assert(yy != 1969);
    }
    assert(civil_parts(days) == (y, m, d));
}

/// Calendar date `days` days after 1970-01-01.
fn civil_from_days(days: u64) -> (r: (u64, u64, u64))
    requires
        days <= 1_000_000_000_000_000,
    ensures
        is_date_of(days as int, r.0 as int, r.1 as int, r.2 as int),
{
    let z = days + 719468;
    let era = z / 146097;
    let doe = z - era * 146097;
    proof {
        lemma_era_split(z as int, era as int, doe as int, 0);
    }
    let yoe = (doe - doe / 1460 + doe / 36524 - doe / 146096) / 365;
    proof {
        lemma_year_of_cycle_day(doe as int);
    }
    let y = yoe + era * 400;
    let doy = doe - (365 * yoe + yoe / 4 - yoe / 100);
    let mp = (5 * doy + 2) / 153;
    let d = doy - (153 * mp + 2) / 5 + 1;
    let m = if mp < 10 { mp + 3 } else { mp - 9 };
    let y = if m <= 2 { y + 1 } else { y };
    proof {
        lemma_civil_parts(days as int);
        assert(civil_parts(days as int) == (y as int, m as int, d as int));
    }
    (y, m, d)
}


proof fn lemma_year_length(y: int)
    ensures
        days_before_month(y, 12) + 31 == if is_leap(y) { 366int } else { 365int },
        forall|m: int| 1 <= m < 12 ==> days_before_month(y, m) + month_days(y, m) == days_before_month(y, m + 1),
        forall|m1: int, m2: int| 1 <= m1 < m2 <= 12 ==> days_before_month(y, m1) + month_days(y, m1) <= days_before_month(y, m2),
{
    reveal_with_fuel(days_before_month, 13);
}

proof fn lemma_year_monotone(y1: int, y2: int)
    requires
        1970 <= y1 < y2,
    ensures
        days_before_year(y1) + if is_leap(y1) { 366int } else { 365int } <= days_before_year(y2),
    decreases y2 - y1,
{
    if y2 > y1 + 1 {
        lemma_year_monotone(y1, y2 - 1);
    }
}

/// A day count since 1970-01-01 names at most one calendar date.
pub proof fn lemma_date_unique(days: int, y1: int, m1: int, d1: int, y2: int, m2: int, d2: int)
    requires
        is_date_of(days, y1, m1, d1),
        is_date_of(days, y2, m2, d2),
    ensures
        y1 == y2 && m1 == m2 && d1 == d2,
{
    lemma_year_length(y1);
    lemma_year_length(y2);
    if y1 < y2 {
        lemma_year_monotone(y1, y2);
        if m1 < 12 {
            assert(days_before_month(y1, m1) + month_days(y1, m1) <= days_before_month(y1, 12));
        }
    } else if y2 < y1 {
        lemma_year_monotone(y2, y1);
        if m2 < 12 {
            assert(days_before_month(y2, m2) + month_days(y2, m2) <= days_before_month(y2, 12));
        }
    }
}

/// The text of a stamp `YYYY-MM-DD HH:MM:SS` (the year grows past four digits when it must).
pub open spec fn stamp_text(y: int, m: int, d: int, hh: int, mm: int, ss: int) -> Seq<char> {
    zero_padded(decimal(y as nat), 4) + "-"@ + zero_padded(decimal(m as nat), 2) + "-"@ + zero_padded(
        decimal(d as nat),
        2,
    ) + " "@ + zero_padded(decimal(hh as nat), 2) + ":"@ + zero_padded(decimal(mm as nat), 2) + ":"@
        + zero_padded(decimal(ss as nat), 2)
}

/// The stamp of `secs` seconds after the Unix epoch, in UTC.
pub open spec fn is_stamp_of(secs: int, text: Seq<char>) -> bool {
    exists|y: int, m: int, d: int|
        is_date_of(secs / 86400, y, m, d) && text == #[trigger] stamp_text(
            y,
            m,
            d,
            (secs % 86400) / 3600,
            (secs % 3600) / 60,
            secs % 60,
        )
}

/// Compact UTC stamp of a Unix time: `YYYY-MM-DD HH:MM:SS`.
#[verifier::rlimit(40)]
pub fn format_stamp(secs: u64) -> (r: String)
    ensures
        is_stamp_of(secs as int, r@),
{
    let days = secs / 86400;
    let tod = secs % 86400;
    let hh = tod / 3600;
    let mm = (tod % 3600) / 60;
    let ss = tod % 60;
    let (y, m, d) = civil_from_days(days);
    let mut out = String::new();
    proof {
        reveal_strlit("-");
        reveal_strlit(" ");
        reveal_strlit(":");
    }
    push_padded(&mut out, y, 4);
    assert(out@ =~= zero_padded(decimal(y as nat), 4));
    out.append("-");
    push_padded(&mut out, m, 2);
    out.append("-");
    push_padded(&mut out, d, 2);
    out.append(" ");
    push_padded(&mut out, hh, 2);
    out.append(":");
    push_padded(&mut out, mm, 2);
    out.append(":");
    push_padded(&mut out, ss, 2);
    proof {
        assert((secs % 86400) % 3600 == secs % 3600);
        assert((secs % 86400) % 60 == secs % 60);
        assert(out@ == stamp_text(y as int, m as int, d as int, hh as int, mm as int, ss as int));
    }
    out
}

/// Seconds since the Unix epoch from the system clock, or 0 when the clock
/// stands before the epoch. Calls `std::time::SystemTime::now` and
/// `duration_since(UNIX_EPOCH)`; nothing is promised of the value.
#[verifier::external_body]
fn unix_secs() -> (r: u64) {
    std::time::SystemTime::now()
        .duration_since(std::time::UNIX_EPOCH)
        .map(|d| d.as_secs())
        .unwrap_or(0)
}

/// The current time as a compact UTC stamp `YYYY-MM-DD HH:MM:SS`.
pub fn now_iso() -> (r: String)
    ensures
        exists|secs: u64| is_stamp_of(secs as int, r@),
{
    let secs = unix_secs();
    format_stamp(secs)
}

} // verus!
