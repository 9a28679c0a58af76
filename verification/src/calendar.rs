//! Proleptic Gregorian calendar arithmetic: turning a count of days since the
//! Unix epoch (1970-01-01) into a civil date.

use vstd::prelude::*;

verus! {

/// Whether `y` is a leap year in the Gregorian calendar.
pub open spec fn is_leap_year(y: int) -> bool {
    y % 4 == 0 && (y % 100 != 0 || y % 400 == 0)
}

/// Number of days in year `y`.
pub open spec fn year_length(y: int) -> int {
    if is_leap_year(y) { 366 } else { 365 }
}

/// Number of days in month `m` (1 = January) of year `y`.
pub open spec fn days_in_month(y: int, m: int) -> int {
    if m == 2 {
        if is_leap_year(y) { 29 } else { 28 }
    } else if m == 4 || m == 6 || m == 9 || m == 11 {
        30
    } else {
        31
    }
}

/// `(y, m, d)` names an existing day.
pub open spec fn is_valid_date(y: int, m: int, d: int) -> bool {
    1 <= m <= 12 && 1 <= d <= days_in_month(y, m)
}

/// Days from 1970-01-01 to January 1st of year `y` (for `y >= 1970`).
pub open spec fn days_before_year(y: int) -> int
    decreases y - 1970,
{
    if y <= 1970 {
        0
    } else {
        days_before_year(y - 1) + year_length(y - 1)
    }
}

/// Days from January 1st to the first day of month `m` in year `y`.
pub open spec fn days_before_month(y: int, m: int) -> int
    decreases m,
{
    if m <= 1 {
        0
    } else {
        days_before_month(y, m - 1) + days_in_month(y, m - 1)
    }
}

/// Days from 1970-01-01 to the date `(y, m, d)`.
pub open spec fn days_since_epoch(y: int, m: int, d: int) -> int {
    days_before_year(y) + days_before_month(y, m) + d - 1
}

/// `(y, m, d)` is the civil date of day number `days` after the epoch.
pub open spec fn is_date_of_day(days: int, y: int, m: int, d: int) -> bool {
    y >= 1970 && is_valid_date(y, m, d) && days_since_epoch(y, m, d) == days
}

/// The civil date `(year, month, day)` of day number `days` after the epoch.
pub open spec fn civil_date(days: nat) -> (int, int, int) {
    choose|date: (int, int, int)| is_date_of_day(days as int, date.0, date.1, date.2)
}

// ---------------------------------------------------------------------------
// Closed forms

/// Number of leap years in `[1, y - 1]` (for `y >= 1`).
pub open spec fn leaps_before(y: int) -> int {
    (y - 1) / 4 - (y - 1) / 100 + (y - 1) / 400
}

proof fn lemma_leaps_step(y: int)
    requires
        y >= 1,
    ensures
        leaps_before(y + 1) == leaps_before(y) + (if is_leap_year(y) { 1int } else { 0 }),
{
}

/// Closed form of `days_before_year`.
pub proof fn lemma_days_before_year_closed(y: int)
    requires
        y >= 1970,
    ensures
        days_before_year(y) == 365 * (y - 1970) + leaps_before(y) - 477,
    decreases y - 1970,
{
    if y > 1970 {
        lemma_days_before_year_closed(y - 1);
        lemma_leaps_step(y - 1);
    }
}


/// Days from March 1st of year 0 of a 400-year era to March 1st of its
/// year `yoe`.
pub open spec fn era_year_start(yoe: int) -> int {
    365 * yoe + yoe / 4 - yoe / 100
}

/// Year of era that holds day `doe` of a 400-year era counted from March 1st.
pub open spec fn year_of_era(doe: int) -> int {
    (doe - doe / 1460 + doe / 36524 - doe / 146096) / 365
}

proof fn lemma_year_of_era(doe: int)
    requires
        0 <= doe < 146097,
    ensures
        0 <= year_of_era(doe) <= 399,
        era_year_start(year_of_era(doe)) <= doe,
        doe < era_year_start(year_of_era(doe)) + year_length(year_of_era(doe) + 1),
{
}


/// Offset of the first day of month `mp` (0 = March) from March 1st.
pub open spec fn march_month_start(mp: int) -> int {
    (153 * mp + 2) / 5
}

proof fn lemma_month_of_year(doy: int)
    requires
        0 <= doy <= 365,
    ensures
        0 <= (5 * doy + 2) / 153 <= 11,
        march_month_start((5 * doy + 2) / 153) <= doy,
        doy < march_month_start((5 * doy + 2) / 153 + 1),
{
}

proof fn lemma_month_table(y: int, mp: int)
    requires
        0 <= mp <= 11,
    ensures
        mp <= 9 ==> days_before_month(y, mp + 3) == 59 + (if is_leap_year(y) { 1int } else { 0 })
            + march_month_start(mp),
        mp <= 9 ==> days_in_month(y, mp + 3) == march_month_start(mp + 1) - march_month_start(mp),
        mp >= 10 ==> days_before_month(y, mp - 9) == march_month_start(mp) - 306,
        mp == 10 ==> days_in_month(y, 1) == march_month_start(11) - march_month_start(10),
        mp == 11 ==> days_in_month(y, 2) == 28 + (if is_leap_year(y) { 1int } else { 0 }),
{
    reveal_with_fuel(days_before_month, 13);
}

proof fn lemma_div_shift(k: int, x: int, d: int)
    requires
        d > 0,
    ensures
        (d * k + x) / d == k + x / d,
{
    let q = x / d;
    let r = x % d;
    vstd::arithmetic::div_mod::lemma_fundamental_div_mod(x, d);
    vstd::arithmetic::mul::lemma_mul_is_distributive_add(d, k, q);
    assert(d * k + x == d * (k + q) + r);
    vstd::arithmetic::div_mod::lemma_div_multiples_vanish_fancy(k + q, r, d);
}

proof fn lemma_leaps_era(e: int, t: int)
    ensures
        leaps_before(400 * e + t) == 97 * e + leaps_before(t),
{
    lemma_div_shift(100 * e, t - 1, 4);
    lemma_div_shift(4 * e, t - 1, 100);
    lemma_div_shift(e, t - 1, 400);
    assert(400 * e + t - 1 == 4 * (100 * e) + (t - 1));
    assert(400 * e + t - 1 == 100 * (4 * e) + (t - 1));
}

/// January 1st of year `400 * e + yoe + 1` is 306 days after March 1st of
/// year `yoe` of era `e`, counted from March 1st of year 0.
proof fn lemma_new_year(e: int, yoe: int)
    requires
        0 <= yoe <= 399,
        400 * e + yoe + 1 >= 1970,
    ensures
        days_before_year(400 * e + yoe + 1) + 719468 - 306 == 146097 * e + era_year_start(yoe),
{
    lemma_days_before_year_closed(400 * e + yoe + 1);
    lemma_leaps_era(e, yoe + 1);
}

proof fn lemma_march_first(e: int, yoe: int)
    requires
        0 <= yoe <= 399,
        400 * e + yoe >= 1970,
    ensures
        days_before_year(400 * e + yoe) + 59 + (if is_leap_year(400 * e + yoe) { 1int } else { 0 })
            + 719468 == 146097 * e + era_year_start(yoe),
{
    lemma_new_year(e, yoe);
    assert(days_before_year(400 * e + yoe + 1) == days_before_year(400 * e + yoe) + year_length(
        400 * e + yoe,
    ));
}

proof fn lemma_leap_era_invariant(e: int, t: int)
    ensures
        is_leap_year(400 * e + t) == is_leap_year(t),
{
}


proof fn lemma_within_year(y: int, m: int, d: int)
    requires
        is_valid_date(y, m, d),
    ensures
        0 <= days_before_month(y, m) + d - 1 < year_length(y),
{
    reveal_with_fuel(days_before_month, 13);
}

proof fn lemma_months_increase(y: int, m1: int, m2: int)
    requires
        1 <= m1 < m2,
    ensures
        days_before_month(y, m2) >= days_before_month(y, m1) + days_in_month(y, m1),
    decreases m2,
{
    if m2 > m1 + 1 {
        lemma_months_increase(y, m1, m2 - 1);
    }
}

proof fn lemma_years_increase(a: int, b: int)
    requires
        1970 <= a < b,
    ensures
        days_before_year(b) >= days_before_year(a) + year_length(a),
    decreases b,
{
    if b > a + 1 {
        lemma_years_increase(a, b - 1);
    }
}

/// A day number has at most one civil date: distinct valid dates (from 1970
/// on) are distinct days.
pub proof fn lemma_date_of_day_unique(days: int, y1: int, m1: int, d1: int, y2: int, m2: int, d2: int)
    requires
        is_date_of_day(days, y1, m1, d1),
        is_date_of_day(days, y2, m2, d2),
    ensures
        y1 == y2 && m1 == m2 && d1 == d2,
{
    lemma_within_year(y1, m1, d1);
    lemma_within_year(y2, m2, d2);
    if y1 < y2 {
        lemma_years_increase(y1, y2);
    } else if y2 < y1 {
        lemma_years_increase(y2, y1);
    } else if m1 < m2 {
        lemma_months_increase(y1, m1, m2);
    } else if m2 < m1 {
        lemma_months_increase(y1, m2, m1);
    }
}


/// The date found by splitting day number `days` into a 400-year era, a
/// year of that era counted from March 1st, and a month counted from March.
proof fn lemma_era_split(days: int)
    requires
        days >= 0,
    ensures
        ({
            let z = days + 719468;
            let era = z / 146097;
            let doe = z - era * 146097;
            let yoe = year_of_era(doe);
            let doy = doe - era_year_start(yoe);
            let mp = (5 * doy + 2) / 153;
            let d = doy - march_month_start(mp) + 1;
            let m = if mp < 10 { mp + 3 } else { mp - 9 };
            let y = yoe + era * 400 + (if m <= 2 { 1int } else { 0 });
            &&& era >= 4
            &&& 0 <= doe < 146097
            &&& 0 <= yoe <= 399
            &&& 0 <= doy <= 365
            &&& 0 <= mp <= 11
            &&& is_date_of_day(days, y, m, d)
        }),
{
    let z = days + 719468;
    let era = z / 146097;
    let doe = z - era * 146097;
    assert(0 <= doe < 146097 && era >= 4) by (nonlinear_arith)
        requires
            z >= 719468,
            era == z / 146097,
            doe == z - era * 146097,
    ;
    lemma_year_of_era(doe);
    let yoe = year_of_era(doe);
    let doy = doe - era_year_start(yoe);
    lemma_month_of_year(doy);
    let mp = (5 * doy + 2) / 153;
    let d = doy - march_month_start(mp) + 1;
    let m = if mp < 10 { mp + 3 } else { mp - 9 };
    let cy = yoe + era * 400;
    let y = cy + (if m <= 2 { 1int } else { 0 });
    lemma_leap_era_invariant(era, yoe + 1);
    assert(400 * era + yoe + 1 == cy + 1);
    if era == 4 {
        // 1970-01-01 lies in the March-based year 1969
        assert(yoe >= 369);
        assert(yoe == 369 ==> doy >= 306);
    }
    lemma_month_table(y, mp);
    if mp <= 9 {
        assert(cy >= 1970);
        lemma_march_first(era, yoe);
        assert(400 * era + yoe == cy);
    } else {
        assert(cy + 1 >= 1970);
        lemma_new_year(era, yoe);
    }
}

/// Every day from the epoch on has a civil date; with
/// `lemma_date_of_day_unique`, exactly one.
pub proof fn lemma_every_day_has_a_date(days: nat)
    ensures
        is_date_of_day(days as int, civil_date(days).0, civil_date(days).1, civil_date(days).2),
{
    lemma_era_split(days as int);
    let z = days + 719468;
    let era = z / 146097;
    let doe = z - era * 146097;
    let yoe = year_of_era(doe);
    let doy = doe - era_year_start(yoe);
    let mp = (5 * doy + 2) / 153;
    let d = doy - march_month_start(mp) + 1;
    let m = if mp < 10 { mp + 3 } else { mp - 9 };
    let y = yoe + era * 400 + (if m <= 2 { 1int } else { 0 });
    let w = (y, m, d);
    assert(is_date_of_day(days as int, w.0, w.1, w.2));
}

/// The day after a date: the next day of the month, else the first of the
/// next month, else January 1st of the next year.
pub open spec fn next_date(y: int, m: int, d: int) -> (int, int, int) {
    if d < days_in_month(y, m) {
        (y, m, d + 1)
    } else if m < 12 {
        (y, m + 1, 1)
    } else {
        (y + 1, 1, 1)
    }
}

/// Consecutive day numbers have consecutive dates.
pub proof fn lemma_next_day(days: nat)
    ensures
        civil_date(days + 1) == next_date(civil_date(days).0, civil_date(days).1, civil_date(days).2),
{
    lemma_every_day_has_a_date(days);
    lemma_every_day_has_a_date(days + 1);
    let c = civil_date(days);
    let n = next_date(c.0, c.1, c.2);
    reveal_with_fuel(days_before_month, 13);
    assert(is_date_of_day(days + 1int, n.0, n.1, n.2)) by {
        if c.2 >= days_in_month(c.0, c.1) && c.1 >= 12 {
            assert(days_before_year(c.0 + 1) == days_before_year(c.0) + year_length(c.0));
        }
    }
    let c1 = civil_date(days + 1);
    lemma_date_of_day_unique(days + 1int, c1.0, c1.1, c1.2, n.0, n.1, n.2);
}

/// Converts a number of days since 1970-01-01 to the civil date
/// `(year, month, day)`; the year is reduced modulo 2^32.
///
/// The algorithm works on the signed day count `days + 719468` (days since
/// 0000-03-01), which must fit in an `i64`: larger day counts overflow that
/// addition, or turn negative when read as `i64`, and are left out. Day
/// counts of real timestamps (below 2^48 for any `u64` number of seconds)
/// are far inside the bound.
pub fn dir_days_to_ymd(days: u64) -> (r: (u32, u32, u32))
    requires
        days <= 0x7fff_ffff_ffff_ffff - 719468,
    ensures
        r.0 as int == civil_date(days as nat).0 % 0x1_0000_0000,
        r.1 as int == civil_date(days as nat).1,
        r.2 as int == civil_date(days as nat).2,
{
    proof {
        lemma_era_split(days as int);
    }
    let z: i64 = days as i64 + 719468;
    let era: i64 = if z >= 0 { z } else { z - 146096 } / 146097;
    assert(era * 146097 <= z) by (nonlinear_arith)
        requires
            z >= 0,
            era == z / 146097,
    ;
    let doe: u64 = (z - era * 146097) as u64;
    let yoe: u64 = (doe - doe / 1460 + doe / 36524 - doe / 146096) / 365;
    let doy: u64 = doe - (365 * yoe + yoe / 4 - yoe / 100);
    let mp: u64 = (5 * doy + 2) / 153;
    let d: u64 = doy - (153 * mp + 2) / 5 + 1;
    let m: u64 = if mp < 10 { mp + 3 } else { mp - 9 };
    assert(era * 400 <= 0x7fff_ffff_ffff_0000) by (nonlinear_arith)
        requires
            z >= 0,
            z <= 0x7fff_ffff_ffff_ffff,
            era == z / 146097,
    ;
    let y: i64 = yoe as i64 + era * 400 + if m <= 2 { 1 } else { 0 };
    proof {
        let w = (y as int, m as int, d as int);
        assert(is_date_of_day(days as int, w.0, w.1, w.2));
        let c = civil_date(days as nat);
        lemma_date_of_day_unique(days as int, c.0, c.1, c.2, w.0, w.1, w.2);
        assert((y as u32) as int == (y as int) % 0x1_0000_0000) by (bit_vector)
            requires
                y >= 0,
        ;
    }
    (y as u32, m as u32, d as u32)
}

} // verus!
