//! Calendar-date arithmetic over plain integers.
//!
//! An instant is an `i64` count of nanoseconds since 1970-01-01T00:00:00 UTC.
//! A day is an `i64` count of whole days since that epoch (negative before
//! it).  Every instant representable in an `i64` falls on a day between
//! `MIN_EPOCH_DAY` and `MAX_EPOCH_DAY`, i.e. in the years 1677 to 2262.

use vstd::prelude::*;
use vstd::arithmetic::div_mod::{
    lemma_fundamental_div_mod, lemma_fundamental_div_mod_converse_div,
    lemma_fundamental_div_mod_converse_mod, lemma_div_is_ordered,
};

verus! {

pub const NANOS_PER_SEC: i64 = 1_000_000_000;
pub const SECS_PER_DAY: i64 = 86_400;
pub const NANOS_PER_DAY: i64 = 86_400_000_000_000;

/// Day of `i64::MIN` nanoseconds (in the year 1677).
pub const MIN_EPOCH_DAY: i64 = -106_752;
/// Day of `i64::MAX` nanoseconds (in the year 2262).
pub const MAX_EPOCH_DAY: i64 = 106_751;

/// The day an instant falls on (floor division, so instants before the
/// epoch fall on negative days).
pub open spec fn day_of(ts: int) -> int {
    ts / (NANOS_PER_DAY as int)
}

/// Nanoseconds elapsed since the midnight starting the instant's day.
pub open spec fn nanos_in_day(ts: int) -> int {
    ts % (NANOS_PER_DAY as int)
}

/// Whole seconds elapsed since the midnight starting the instant's day.
pub open spec fn sec_of_day(ts: int) -> int {
    nanos_in_day(ts) / (NANOS_PER_SEC as int)
}

/// Every `i64` instant falls on a day in `[MIN_EPOCH_DAY, MAX_EPOCH_DAY]`,
/// and its second-of-day lies in `[0, 86400)`.
pub proof fn lemma_instant_bounds(ts: int)
    requires
        i64::MIN <= ts <= i64::MAX,
    ensures
        MIN_EPOCH_DAY <= day_of(ts) <= MAX_EPOCH_DAY,
        0 <= nanos_in_day(ts) < NANOS_PER_DAY,
        0 <= sec_of_day(ts) < SECS_PER_DAY,
{
    let d = NANOS_PER_DAY as int;
    lemma_fundamental_div_mod_converse_div(i64::MIN as int, d, -106_752, 763_145_224_192);
    lemma_fundamental_div_mod_converse_div(i64::MAX as int, d, 106_751, 85_636_854_775_807);
    lemma_div_is_ordered(i64::MIN as int, ts, d);
    lemma_div_is_ordered(ts, i64::MAX as int, d);
    lemma_fundamental_div_mod(ts, d);
    let r = nanos_in_day(ts);
    lemma_div_is_ordered(0, r, NANOS_PER_SEC as int);
    lemma_div_is_ordered(r, d - 1, NANOS_PER_SEC as int);
    lemma_fundamental_div_mod_converse_div(d - 1, NANOS_PER_SEC as int, 86_399, 999_999_999);
}

/// Splits an instant into its day and its second-of-day.
pub fn split_instant(ts: i64) -> (r: (i64, i64))
    ensures
        r.0 == day_of(ts as int),
        r.1 == sec_of_day(ts as int),
        MIN_EPOCH_DAY <= r.0 <= MAX_EPOCH_DAY,
        0 <= r.1 < SECS_PER_DAY,
{
    proof {
        lemma_instant_bounds(ts as int);
    }
    let day = match ts.checked_div_euclid(NANOS_PER_DAY) {
        Some(d) => d,
        None => vstd::pervasive::unreached(),
    };
    let nanos = match ts.checked_rem_euclid(NANOS_PER_DAY) {
        Some(n) => n,
        None => vstd::pervasive::unreached(),
    };
    let sec = match nanos.checked_div_euclid(NANOS_PER_SEC) {
        Some(s) => s,
        None => vstd::pervasive::unreached(),
    };
    (day, sec)
}

pub open spec fn is_leap_year(y: int) -> bool {
    y % 4 == 0 && (y % 100 != 0 || y % 400 == 0)
}

pub open spec fn days_in_year(y: int) -> int {
    if is_leap_year(y) { 366 } else { 365 }
}

pub open spec fn days_in_month(y: int, m: int) -> int {
    if m == 2 {
        if is_leap_year(y) { 29 } else { 28 }
    } else if m == 4 || m == 6 || m == 9 || m == 11 {
        30
    } else {
        31
    }
}

/// Days from 1970-01-01 to the first day of year `y` (negative for earlier
/// years).
pub open spec fn days_to_year(y: int) -> int
    decreases (if y >= 1970 { y - 1970 } else { 1970 - y }),
{
    if y == 1970 {
        0
    } else if y > 1970 {
        days_to_year(y - 1) + days_in_year(y - 1)
    } else {
        days_to_year(y + 1) - days_in_year(y)
    }
}

/// Days from the first day of year `y` to the first day of its month `m`.
pub open spec fn days_to_month(y: int, m: int) -> int
    decreases m,
{
    if m <= 1 {
        0
    } else {
        days_to_month(y, m - 1) + days_in_month(y, m - 1)
    }
}

/// The epoch day of the calendar date `y`-`m`-`d`.
pub open spec fn day_from_ymd(y: int, m: int, d: int) -> int {
    days_to_year(y) + days_to_month(y, m) + (d - 1)
}

pub open spec fn valid_ymd(y: int, m: int, d: int) -> bool {
    1 <= m <= 12 && 1 <= d <= days_in_month(y, m)
}

pub proof fn lemma_months_fill_year(y: int)
    ensures
        days_to_month(y, 13) == days_in_year(y),
        forall|m: int| 1 <= m <= 13 ==> 0 <= #[trigger] days_to_month(y, m) <= days_in_year(y),
        forall|m1: int, m2: int|
            1 <= m1 <= m2 <= 13 ==> #[trigger] days_to_month(y, m1) <= #[trigger] days_to_month(y, m2),
{
    reveal_with_fuel(days_to_month, 14);
    assert(days_to_month(y, 13) == days_in_year(y));
    assert forall|m: int| 1 <= m <= 13 implies 0 <= #[trigger] days_to_month(y, m) <= days_in_year(y) by {
        reveal_with_fuel(days_to_month, 14);
    }
    assert forall|m1: int, m2: int| 1 <= m1 <= m2 <= 13 implies
        #[trigger] days_to_month(y, m1) <= #[trigger] days_to_month(y, m2) by {
        reveal_with_fuel(days_to_month, 14);
    }
}

/// The days-to-year function grows between 365 and 366 per year.
pub proof fn lemma_days_to_year_bounds(y: int)
    ensures
        y >= 1970 ==> 365 * (y - 1970) <= days_to_year(y) <= 366 * (y - 1970),
        y <= 1970 ==> 366 * (y - 1970) <= days_to_year(y) <= 365 * (y - 1970),
    decreases (if y >= 1970 { y - 1970 } else { 1970 - y }),
{
    if y > 1970 {
        lemma_days_to_year_bounds(y - 1);
    } else if y < 1970 {
        lemma_days_to_year_bounds(y + 1);
    }
}

pub proof fn lemma_days_to_year_mono(a: int, b: int)
    requires
        a <= b,
    ensures
        days_to_year(a) <= days_to_year(b),
        days_to_year(a) + 365 * (b - a) <= days_to_year(b),
    decreases b - a,
{
    if a < b {
        lemma_days_to_year_mono(a, b - 1);
        assert(days_to_year(b) == days_to_year(b - 1) + days_in_year(b - 1));
    }
}

/// A valid date of year `y` falls in that year's day range.
pub proof fn lemma_day_in_year(y: int, m: int, d: int)
    requires
        valid_ymd(y, m, d),
    ensures
        days_to_year(y) <= day_from_ymd(y, m, d) < days_to_year(y + 1),
        0 <= days_to_month(y, m) + (d - 1) < days_in_year(y),
{
    lemma_months_fill_year(y);
    assert(days_to_month(y, m + 1) == days_to_month(y, m) + days_in_month(y, m));
    assert(days_to_year(y + 1) == days_to_year(y) + days_in_year(y));
}

/// Two valid calendar dates with the same epoch day are the same date.
pub proof fn lemma_ymd_unique(y1: int, m1: int, d1: int, y2: int, m2: int, d2: int)
    requires
        valid_ymd(y1, m1, d1),
        valid_ymd(y2, m2, d2),
        day_from_ymd(y1, m1, d1) == day_from_ymd(y2, m2, d2),
    ensures
        y1 == y2 && m1 == m2 && d1 == d2,
{
    lemma_day_in_year(y1, m1, d1);
    lemma_day_in_year(y2, m2, d2);
    if y1 < y2 {
        lemma_days_to_year_mono(y1 + 1, y2);
        assert(false);
    }
    if y2 < y1 {
        lemma_days_to_year_mono(y2 + 1, y1);
        assert(false);
    }
    lemma_months_fill_year(y1);
    let doy = day_from_ymd(y1, m1, d1) - days_to_year(y1);
    assert(days_to_month(y1, m1) <= doy < days_to_month(y1, m1 + 1));
    assert(days_to_month(y1, m2) <= doy < days_to_month(y1, m2 + 1));
    if m1 < m2 {
        assert(days_to_month(y1, m1 + 1) <= days_to_month(y1, m2));
        assert(false);
    }
    if m2 < m1 {
        assert(days_to_month(y1, m2 + 1) <= days_to_month(y1, m1));
        assert(false);
    }
}

/// Every epoch day is some valid calendar date.
pub proof fn lemma_ymd_exists(day: int)
    ensures
        exists|t: (int, int, int)|
            valid_ymd(t.0, t.1, t.2) && day_from_ymd(t.0, t.1, t.2) == day,
    decreases (if day >= 0 { day } else { -day }),
{
    if day == 0 {
        let w = (1970int, 1int, 1int);
        assert(valid_ymd(w.0, w.1, w.2) && day_from_ymd(w.0, w.1, w.2) == day);
    } else if day > 0 {
        lemma_ymd_exists(day - 1);
        let t = choose|t: (int, int, int)|
            valid_ymd(t.0, t.1, t.2) && day_from_ymd(t.0, t.1, t.2) == day - 1;
        let (y, m, d) = t;
        lemma_months_fill_year(y);
        if d < days_in_month(y, m) {
            let w = (y, m, d + 1);
            assert(valid_ymd(w.0, w.1, w.2) && day_from_ymd(w.0, w.1, w.2) == day);
        } else if m < 12 {
            assert(days_to_month(y, m + 1) == days_to_month(y, m) + days_in_month(y, m));
            let w = (y, m + 1, 1int);
            assert(valid_ymd(w.0, w.1, w.2) && day_from_ymd(w.0, w.1, w.2) == day);
        } else {
            assert(days_to_year(y + 1) == days_to_year(y) + days_in_year(y));
            let w = (y + 1, 1int, 1int);
            assert(valid_ymd(w.0, w.1, w.2) && day_from_ymd(w.0, w.1, w.2) == day);
        }
    } else {
        lemma_ymd_exists(day + 1);
        let t = choose|t: (int, int, int)|
            valid_ymd(t.0, t.1, t.2) && day_from_ymd(t.0, t.1, t.2) == day + 1;
        let (y, m, d) = t;
        lemma_months_fill_year(y);
        lemma_months_fill_year(y - 1);
        if d > 1 {
            let w = (y, m, d - 1);
            assert(valid_ymd(w.0, w.1, w.2) && day_from_ymd(w.0, w.1, w.2) == day);
        } else if m > 1 {
            assert(days_to_month(y, m) == days_to_month(y, m - 1) + days_in_month(y, m - 1));
            let w = (y, m - 1, days_in_month(y, m - 1));
            assert(valid_ymd(w.0, w.1, w.2) && day_from_ymd(w.0, w.1, w.2) == day);
        } else {
            assert(days_to_year(y) == days_to_year(y - 1) + days_in_year(y - 1));
            let w = (y - 1, 12int, 31int);
            assert(valid_ymd(w.0, w.1, w.2) && day_from_ymd(w.0, w.1, w.2) == day);
        }
    }
}

/// The calendar date an epoch day falls on: well defined by
/// `lemma_ymd_exists` and `lemma_ymd_unique`.
pub open spec fn ymd_of_day(day: int) -> (int, int, int) {
    choose|t: (int, int, int)| valid_ymd(t.0, t.1, t.2) && day_from_ymd(t.0, t.1, t.2) == day
}

pub proof fn lemma_ymd_of_day(day: int)
    ensures
        valid_ymd(ymd_of_day(day).0, ymd_of_day(day).1, ymd_of_day(day).2),
        day_from_ymd(ymd_of_day(day).0, ymd_of_day(day).1, ymd_of_day(day).2) == day,
{
    lemma_ymd_exists(day);
}

pub fn days_in_year_exec(y: i64) -> (r: i64)
    requires
        0 <= y,
    ensures
        r == days_in_year(y as int),
{
    let yu = y as u64;
    if yu % 4 == 0 && (yu % 100 != 0 || yu % 400 == 0) {
        366
    } else {
        365
    }
}

pub fn days_in_month_exec(y: i64, m: u8) -> (r: i64)
    requires
        0 <= y,
        1 <= m <= 12,
    ensures
        r == days_in_month(y as int, m as int),
{
    let yu = y as u64;
    if m == 2 {
        if yu % 4 == 0 && (yu % 100 != 0 || yu % 400 == 0) { 29 } else { 28 }
    } else if m == 4 || m == 6 || m == 9 || m == 11 {
        30
    } else {
        31
    }
}

/// Converts an epoch day to its calendar date.
pub fn ymd_from_day(day: i64) -> (r: (i64, u8, u8))
    requires
        MIN_EPOCH_DAY <= day <= MAX_EPOCH_DAY,
    ensures
        valid_ymd(r.0 as int, r.1 as int, r.2 as int),
        day_from_ymd(r.0 as int, r.1 as int, r.2 as int) == day,
        r == ({ let (y, m, d) = ymd_of_day(day as int); (y as i64, m as u8, d as u8) }),
        1677 <= r.0 <= 2262,
{
    let mut y: i64 = 1970;
    let mut rem: i64 = day;
    while rem < 0
        invariant
            MIN_EPOCH_DAY <= day <= MAX_EPOCH_DAY,
            day == days_to_year(y as int) + rem,
            1677 <= y <= 1970,
        decreases (if rem < 0 { -rem } else { 0 }),
    {
        proof {
            lemma_days_to_year_bounds(y as int - 1);
        }
        y = y - 1;
        rem = rem + days_in_year_exec(y);
    }
    while rem >= days_in_year_exec(y)
        invariant
            MIN_EPOCH_DAY <= day <= MAX_EPOCH_DAY,
            day == days_to_year(y as int) + rem,
            0 <= rem,
            1677 <= y <= 2262,
        decreases rem,
    {
        proof {
            lemma_days_to_year_bounds(y as int + 1);
        }
        rem = rem - days_in_year_exec(y);
        y = y + 1;
    }
    proof {
        lemma_days_to_year_bounds(y as int);
    }
    let mut m: u8 = 1;
    while m < 12 && rem >= days_in_month_exec(y, m)
        invariant
            0 <= y,
            1 <= m <= 12,
            0 <= rem,
            days_to_year(y as int) + days_to_month(y as int, m as int) + rem == day,
            rem < days_in_year(y as int) - days_to_month(y as int, m as int),
        decreases 12 - m,
    {
        proof {
            lemma_months_fill_year(y as int);
        }
        rem = rem - days_in_month_exec(y, m);
        m = m + 1;
    }
    proof {
        lemma_months_fill_year(y as int);
        assert(days_to_month(y as int, m as int + 1)
            == days_to_month(y as int, m as int) + days_in_month(y as int, m as int));
        assert(rem < days_in_month(y as int, m as int));
    }
    let d: u8 = (rem + 1) as u8;
    proof {
        lemma_ymd_exists(day as int);
        let t = ymd_of_day(day as int);
        lemma_ymd_unique(t.0, t.1, t.2, y as int, m as int, d as int);
    }
    (y, m, d)
}

/// Converts a calendar date to its epoch day.  Month 13 is accepted and
/// means the first month of the next year, which is convenient for
/// computing month ends.
pub fn day_from_ymd_exec(y: i64, m: u8, d: u8) -> (r: i64)
    requires
        1677 <= y <= 2263,
        1 <= m <= 13,
        1 <= d <= 31,
    ensures
        r == day_from_ymd(y as int, m as int, d as int),
{
    let mut yy: i64 = 1970;
    let mut acc: i64 = 0;
    while yy < y
        invariant
            acc == days_to_year(yy as int),
            1970 <= yy,
            yy <= y || yy == 1970,
            y <= 2263,
            -200_000 <= acc <= 200_000,
        decreases y - yy,
    {
        proof {
            lemma_days_to_year_bounds(yy as int + 1);
        }
        acc = acc + days_in_year_exec(yy);
        yy = yy + 1;
    }
    while yy > y
        invariant
            acc == days_to_year(yy as int),
            y <= yy <= 2263,
            1677 <= y,
            -200_000 <= acc <= 200_000,
        decreases yy - y,
    {
        proof {
            lemma_days_to_year_bounds(yy as int - 1);
        }
        yy = yy - 1;
        acc = acc - days_in_year_exec(yy);
    }
    let mut mm: u8 = 1;
    let mut macc: i64 = 0;
    while mm < m
        invariant
            macc == days_to_month(y as int, mm as int),
            1 <= mm <= m,
            m <= 13,
            0 <= y,
            0 <= macc <= 400,
        decreases m - mm,
    {
        proof {
            lemma_months_fill_year(y as int);
        }
        macc = macc + days_in_month_exec(y, mm);
        mm = mm + 1;
    }
    acc + macc + (d as i64 - 1)
}

/// Day of week of an epoch day, with 0 = Sunday through 6 = Saturday
/// (day 0, 1970-01-01, was a Thursday).
pub open spec fn weekday_of(day: int) -> int {
    (day + 4) % 7
}

pub open spec fn is_weekend_day(day: int) -> bool {
    weekday_of(day) == 0 || weekday_of(day) == 6
}

pub fn weekday(day: i64) -> (w: i64)
    requires
        MIN_EPOCH_DAY <= day <= MAX_EPOCH_DAY,
    ensures
        w == weekday_of(day as int),
        0 <= w <= 6,
{
    match (day + 4).checked_rem_euclid(7) {
        Some(w) => w,
        None => vstd::pervasive::unreached(),
    }
}

/// Shifted epact of the Gregorian computus (Knuth's algorithm R).
pub open spec fn easter_shift(y: int) -> int {
    let c = y / 100 + 1;
    let se = (14 + 11 * (y % 19) - (3 * c) / 4 + (5 + 8 * c) / 25) % 30;
    if se == 0 || (se == 1 && 10 < y % 19) {
        se + 1
    } else {
        se
    }
}

/// Epoch day of Easter Sunday of year `y`: the Sunday strictly after the
/// Paschal full moon, which lies `easter_shift(y)` days before April 19.
/// Rata-die numbering (day 1 = 0001-01-01) makes the week arithmetic of
/// the classical algorithm line up, and day 0 of the epoch is rata die
/// 719163.
pub open spec fn easter_day_of_year(y: int) -> int {
    let p = day_from_ymd(y, 4, 19) + 719_163 - easter_shift(y);
    p + 7 - (p % 7) - 719_163
}

pub fn easter_day(y: i64) -> (r: i64)
    requires
        1677 <= y <= 2262,
    ensures
        r == easter_day_of_year(y as int),
        -200_000 <= r <= 200_000,
{
    let yu = y as u64;
    let c = yu / 100 + 1;
    let a = yu % 19;
    let t1 = (3 * c) / 4;
    let t2 = (5 + 8 * c) / 25;
    let se0 = (14 + 11 * a + t2 - t1) % 30;
    let se = if se0 == 0 || (se0 == 1 && 10 < a) { se0 + 1 } else { se0 };
    proof {
        assert(c == (y as int) / 100 + 1);
        assert(a == (y as int) % 19);
        assert(14 + 11 * a + t2 - t1 == 14 + 11 * ((y as int) % 19)
            - (3 * ((y as int) / 100 + 1)) / 4 + (5 + 8 * ((y as int) / 100 + 1)) / 25);
        assert(se == easter_shift(y as int));
    }
    let april19 = day_from_ymd_exec(y, 4, 19);
    proof {
        lemma_days_to_year_bounds(y as int);
        lemma_months_fill_year(y as int);
    }
    let p = april19 + 719_163 - (se as i64);
    let w = match p.checked_rem_euclid(7) {
        Some(w) => w,
        None => vstd::pervasive::unreached(),
    };
    p + 7 - w - 719_163
}

/// The fixed and Easter-bound public holidays of the calendar date
/// `y`-`m`-`d`: New Year, May Day, Europe Day, the sovereign's birthday,
/// Assumption, All Saints, Christmas and Boxing Day, plus Easter Monday,
/// Ascension and Whit Monday.  The moveable feasts are only recognised in
/// April, May and June.
pub open spec fn ymd_is_public_holiday(y: int, m: int, d: int) -> bool {
    ||| (m == 1 && d == 1)
    ||| (m == 5 && d == 1)
    ||| (m == 5 && d == 9)
    ||| (m == 6 && d == 23)
    ||| (m == 8 && d == 15)
    ||| (m == 11 && d == 1)
    ||| (m == 12 && d == 25)
    ||| (m == 12 && d == 26)
    ||| ((m == 4 || m == 5 || m == 6) && {
        let e = easter_day_of_year(y);
        let day = day_from_ymd(y, m, d);
        day == e + 1 || day == e + 39 || day == e + 50
    })
}

pub open spec fn is_public_holiday_day(day: int) -> bool {
    let (y, m, d) = ymd_of_day(day);
    ymd_is_public_holiday(y, m, d)
}

#[verifier::rlimit(50)]
pub fn is_public_holiday(day: i64) -> (r: bool)
    requires
        MIN_EPOCH_DAY <= day <= MAX_EPOCH_DAY,
    ensures
        r == is_public_holiday_day(day as int),
{
    let (y, m, d) = ymd_from_day(day);
    proof {
        lemma_ymd_of_day(day as int);
        let t = ymd_of_day(day as int);
        lemma_ymd_unique(t.0, t.1, t.2, y as int, m as int, d as int);
    }
    if (m == 1 && d == 1) || (m == 5 && d == 1) || (m == 5 && d == 9)
        || (m == 6 && d == 23) || (m == 8 && d == 15) || (m == 11 && d == 1)
        || (m == 12 && d == 25) || (m == 12 && d == 26) {
        return true;
    }
    if m == 4 || m == 5 || m == 6 {
        let e = easter_day(y);
        if day == e + 1 || day == e + 39 || day == e + 50 {
            return true;
        }
    }
    false
}

} // verus!
