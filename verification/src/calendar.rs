//! Gregorian calendar arithmetic for batch time stamps.
use vstd::prelude::*;

verus! {

/// Leap year of the proleptic Gregorian calendar.
pub open spec fn is_leap(y: int) -> bool {
    (y % 4 == 0 && y % 100 != 0) || y % 400 == 0
}

/// Number of days of month `m` (1..=12) of year `y`.
pub open spec fn days_in_month(y: int, m: int) -> int {
    if m == 2 {
        if is_leap(y) { 29 } else { 28 }
    } else if m == 4 || m == 6 || m == 9 || m == 11 {
        30
    } else {
        31
    }
}

/// Days of the months of year `y` that come before month `m`.
pub open spec fn days_before_month(y: int, m: int) -> int {
    let base: int = if m == 1 { 0 }
        else if m == 2 { 31 }
        else if m == 3 { 59 }
        else if m == 4 { 90 }
        else if m == 5 { 120 }
        else if m == 6 { 151 }
        else if m == 7 { 181 }
        else if m == 8 { 212 }
        else if m == 9 { 243 }
        else if m == 10 { 273 }
        else if m == 11 { 304 }
        else { 334 };
    if m > 2 && is_leap(y) { base + 1 } else { base }
}

/// Number of leap years `k` with `k < y` counted from year 0 (negative below 0).
pub open spec fn leaps_before(y: int) -> int {
    (y + 3) / 4 - (y + 99) / 100 + (y + 399) / 400
}

/// Days from 1970-01-01 to the first day of year `y`.
pub open spec fn days_before_year(y: int) -> int {
    365 * (y - 1970) + leaps_before(y) - leaps_before(1970)
}

/// Days from 1970-01-01 (day 0) to the date `y-m-d`.
pub open spec fn days_from_civil(y: int, m: int, d: int) -> int {
    days_before_year(y) + days_before_month(y, m) + d - 1
}

/// A real date of the calendar.
pub open spec fn valid_date(y: int, m: int, d: int) -> bool {
    1 <= m <= 12 && 1 <= d <= days_in_month(y, m)
}

} // verus!

verus! {

/// Days of March-based years `0 .. y` of an era (leap day at the end of each year).
pub open spec fn era_days(y: int) -> int {
    365 * y + y / 4 - y / 100 + y / 400
}

proof fn lemma_year_of_era(doe: int)
    requires
        0 <= doe <= 146096,
    ensures
        ({
            let yoe = (doe - doe / 1460 + doe / 36524 - doe / 146096) / 365;
            &&& 0 <= yoe <= 399
            &&& era_days(yoe) <= doe < era_days(yoe + 1)
        }),
{
}

} // verus!

verus! {

proof fn lemma_leaps_step(y: int)
    ensures
        leaps_before(y + 1) == leaps_before(y) + (if is_leap(y) { 1int } else { 0 }),
        days_before_year(y + 1) == days_before_year(y) + 365 + (if is_leap(y) { 1int } else { 0 }),
{
}

proof fn lemma_era_shift(e: int, r: int)
    requires
        0 <= r <= 400,
    ensures
        era_days(400 * e + r) == 146097 * e + era_days(r),
        is_leap(400 * e + r) == is_leap(r),
{
    assert((400 * e + r) / 4 == 100 * e + r / 4);
    assert((400 * e + r) / 100 == 4 * e + r / 100);
    assert((400 * e + r) / 400 == e + r / 400);
    assert((400 * e + r) % 4 == r % 4);
    assert((400 * e + r) % 100 == r % 100);
    assert((400 * e + r) % 400 == r % 400);
}

proof fn lemma_era_step(r: int)
    requires
        0 <= r <= 399,
    ensures
        era_days(r + 1) == era_days(r) + 365 + (if is_leap(r + 1) { 1int } else { 0 }),
        r / 400 == 0,
{
}

proof fn lemma_march_year_start(yy: int)
    ensures
        days_before_year(yy) + 59 + (if is_leap(yy) { 1int } else { 0 }) == era_days(yy) - 719468,
{
    lemma_leaps_step(yy);
    assert((yy + 4) / 4 == yy / 4 + 1);
    assert((yy + 100) / 100 == yy / 100 + 1);
    assert((yy + 400) / 400 == yy / 400 + 1);
    assert(leaps_before(1970) == 478);
    assert(leaps_before(yy + 1) == yy / 4 - yy / 100 + yy / 400 + 1);
}

/// Month and day within a March-based year of `365 + leap` days, as the
/// month index `mp` (0 = March) and the day of month.
proof fn lemma_month_split(doy: int, leap: int)
    requires
        leap == 0 || leap == 1,
        0 <= doy < 365 + leap,
    ensures
        ({
            let mp = (5 * doy + 2) / 153;
            let start = (153 * mp + 2) / 5;
            &&& 0 <= mp <= 11
            &&& start <= doy
            &&& mp < 11 ==> doy - start < (if mp == 1 || mp == 3 || mp == 6 || mp == 8 { 30int } else { 31 })
            &&& mp == 11 ==> doy - start < 28 + leap
            &&& start == (if mp == 0 { 0int } else if mp == 1 { 31 } else if mp == 2 { 61 } else if mp == 3 { 92 }
                else if mp == 4 { 122 } else if mp == 5 { 153 } else if mp == 6 { 184 } else if mp == 7 { 214 }
                else if mp == 8 { 245 } else if mp == 9 { 275 } else if mp == 10 { 306 } else { 337 })
        }),
{
    if doy < 31 {
        assert((5 * doy + 2) / 153 == 0);
    } else if doy < 61 {
        assert((5 * doy + 2) / 153 == 1);
    } else if doy < 92 {
        assert((5 * doy + 2) / 153 == 2);
    } else if doy < 122 {
        assert((5 * doy + 2) / 153 == 3);
    } else if doy < 153 {
        assert((5 * doy + 2) / 153 == 4);
    } else if doy < 184 {
        assert((5 * doy + 2) / 153 == 5);
    } else if doy < 214 {
        assert((5 * doy + 2) / 153 == 6);
    } else if doy < 245 {
        assert((5 * doy + 2) / 153 == 7);
    } else if doy < 275 {
        assert((5 * doy + 2) / 153 == 8);
    } else if doy < 306 {
        assert((5 * doy + 2) / 153 == 9);
    } else if doy < 337 {
        assert((5 * doy + 2) / 153 == 10);
    } else {
        assert((5 * doy + 2) / 153 == 11);
    }
}

proof fn lemma_march_date(yy: int, doy: int)
    requires
        0 <= doy < 365 + (if is_leap(yy + 1) { 1int } else { 0 }),
    ensures
        ({
            let mp = (5 * doy + 2) / 153;
            let d = doy - (153 * mp + 2) / 5 + 1;
            let m = if mp < 10 { mp + 3 } else { mp - 9 };
            let y = if m <= 2 { yy + 1 } else { yy };
            &&& 0 <= mp <= 11
            &&& valid_date(y, m, d)
            &&& days_from_civil(y, m, d) == days_before_year(yy) + 59 + (if is_leap(yy) { 1int } else { 0 }) + doy
        }),
{
    let leap: int = if is_leap(yy + 1) { 1 } else { 0 };
    lemma_month_split(doy, leap);
    lemma_leaps_step(yy);
}

/// Converts a day count since 1970-01-01 into the calendar date `(year, month, day)`.
pub fn civil_from_days(z: i64) -> (r: (i64, u32, u32))
    requires
        z <= i64::MAX - 719_468,
    ensures
        valid_date(r.0 as int, r.1 as int, r.2 as int),
        days_from_civil(r.0 as int, r.1 as int, r.2 as int) == z,
        z >= 0 ==> r.0 >= 1600,
{
    let ghost z0 = z as int;
    let z = z + 719_468;
    let era = if z >= 0 { z } else { z - 146_096 } / 146_097;
    proof {
        assert(era as int == (z as int) / 146097);
    }
    let doe = (z - era * 146_097) as u64;
    let yoe = (doe - doe / 1460 + doe / 36524 - doe / 146_096) / 365;
    proof {
        lemma_year_of_era(doe as int);
    }
    let y = yoe as i64 + era * 400;
    let doy = doe - (365 * yoe + yoe / 4 - yoe / 100);
    proof {
        let yy = y as int;
        lemma_era_step(yoe as int);
        lemma_era_shift(era as int, yoe as int);
        lemma_era_shift(era as int, yoe as int + 1);
        assert(yy == 400 * era + yoe);
        assert(is_leap(yy + 1) == is_leap(yoe as int + 1));
        assert(doy == doe - era_days(yoe as int));
        lemma_march_date(yy, doy as int);
        lemma_march_year_start(yy);
    }
    let mp = (5 * doy + 2) / 153;
    let d = (doy - (153 * mp + 2) / 5 + 1) as u32;
    let m = if mp < 10 { mp + 3 } else { mp - 9 } as u32;
    (if m <= 2 { y + 1 } else { y }, m, d)
}

} // verus!

verus! {

proof fn lemma_days_before_year_mono(y1: int, y2: int)
    requires
        y1 < y2,
    ensures
        days_before_year(y1) + 365 + (if is_leap(y1) { 1int } else { 0 }) <= days_before_year(y2),
    decreases y2 - y1,
{
    lemma_leaps_step(y1);
    if y1 + 1 < y2 {
        lemma_days_before_year_mono(y1 + 1, y2);
    }
}

proof fn lemma_day_of_year_bounds(y: int, m: int, d: int)
    requires
        valid_date(y, m, d),
    ensures
        0 <= days_before_month(y, m) + d - 1 < 365 + (if is_leap(y) { 1int } else { 0 }),
{
}

proof fn lemma_same_year_injective(y: int, m1: int, d1: int, m2: int, d2: int)
    requires
        valid_date(y, m1, d1),
        valid_date(y, m2, d2),
        m1 < m2,
    ensures
        days_before_month(y, m1) + d1 < days_before_month(y, m2) + d2,
{
}

/// Distinct dates fall on distinct days: `days_from_civil` is one-to-one on real dates.
pub proof fn lemma_days_from_civil_injective(y1: int, m1: int, d1: int, y2: int, m2: int, d2: int)
    requires
        valid_date(y1, m1, d1),
        valid_date(y2, m2, d2),
        days_from_civil(y1, m1, d1) == days_from_civil(y2, m2, d2),
    ensures
        y1 == y2 && m1 == m2 && d1 == d2,
{
    lemma_day_of_year_bounds(y1, m1, d1);
    lemma_day_of_year_bounds(y2, m2, d2);
    if y1 < y2 {
        lemma_days_before_year_mono(y1, y2);
    } else if y2 < y1 {
        lemma_days_before_year_mono(y2, y1);
    } else if m1 < m2 {
        lemma_same_year_injective(y1, m1, d1, m2, d2);
    } else if m2 < m1 {
        lemma_same_year_injective(y1, m2, d2, m1, d1);
    }
}

/// The calendar date of day `z` since 1970-01-01.
pub open spec fn civil_date(z: int) -> (int, int, int) {
    choose|ymd: (int, int, int)| valid_date(ymd.0, ymd.1, ymd.2) && days_from_civil(ymd.0, ymd.1, ymd.2) == z
}

/// The date `civil_from_days` computes is the calendar date of the day.
pub proof fn lemma_civil_date_unique(z: int, y: int, m: int, d: int)
    requires
        valid_date(y, m, d),
        days_from_civil(y, m, d) == z,
    ensures
        civil_date(z) == (y, m, d),
{
    let w = (y, m, d);
    assert(valid_date(w.0, w.1, w.2) && days_from_civil(w.0, w.1, w.2) == z);
    let c = civil_date(z);
    lemma_days_from_civil_injective(c.0, c.1, c.2, y, m, d);
}

} // verus!
