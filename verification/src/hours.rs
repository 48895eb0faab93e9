//! Business-hours computation.
//!
//! Worked time between two instants under a calendar and the fixed
//! working-day window [08:00, 17:00), counted in whole seconds (an hour
//! of work is 3600 seconds; callers display fractions).  A whole working
//! day counts as eight hours.

use vstd::prelude::*;
use vstd::arithmetic::div_mod::{
    lemma_fundamental_div_mod, lemma_fundamental_div_mod_converse_div,
    lemma_fundamental_div_mod_converse_mod, lemma_div_is_ordered,
    lemma_mod_division_less_than_divisor,
};
use crate::dates::{
    day_of, sec_of_day, nanos_in_day, split_instant, lemma_instant_bounds,
    NANOS_PER_SEC, NANOS_PER_DAY, SECS_PER_DAY, MIN_EPOCH_DAY, MAX_EPOCH_DAY,
};
use crate::calendar::{CalendarCombination, day_is_working, day_is_nonworking, standard_nonworking};
use crate::dates::{is_weekend_day, is_public_holiday_day};

verus! {

/// 08:00, as a second of day.
pub const DAY_START_SEC: i64 = 28_800;
/// 17:00, as a second of day.
pub const DAY_END_SEC: i64 = 61_200;
/// The seconds credited for a whole working day: eight hours.
pub const FULL_DAY_WORK_SECS: i64 = 28_800;
/// The width of the working-day window, 08:00 to 17:00.
pub const WINDOW_SECS: i64 = 32_400;
/// An upper bound on the worked seconds of any representable span.
pub const MAX_SPAN_WORK_SECS: i64 = 6_200_000_000;

/// A second of day clamped into the working window.
pub open spec fn clamp_to_window(s: int) -> int {
    if s < DAY_START_SEC {
        DAY_START_SEC as int
    } else if s > DAY_END_SEC {
        DAY_END_SEC as int
    } else {
        s
    }
}

/// Worked seconds between two seconds-of-day of a single working day:
/// the window-clamped distance, except that a span covering the whole
/// nine-hour window counts as the eight-hour working day.
pub open spec fn window_secs(a: int, b: int) -> int {
    let d = clamp_to_window(b) - clamp_to_window(a);
    if d <= 0 {
        0
    } else if d >= WINDOW_SECS {
        FULL_DAY_WORK_SECS as int
    } else {
        d
    }
}

/// The number of working days `d` with `lo <= d < hi`.
pub open spec fn working_days_between(cal: CalendarCombination, lo: int, hi: int) -> int
    decreases hi - lo,
{
    if hi <= lo {
        0
    } else {
        working_days_between(cal, lo, hi - 1) + (if day_is_working(cal, hi - 1) {
            1int
        } else {
            0int
        })
    }
}

/// Worked seconds between two instants.
///
/// A span within one day is the window-clamped distance of its two times,
/// counted only on a working day.  A span across days counts eight hours
/// for every working day strictly between the two days, plus the tail of
/// the first day (its time to the end of the window) and the head of the
/// last day (the start of the window to its time), each counted only on a
/// working day.  A backwards span counts zero.
pub open spec fn work_secs(cal: CalendarCombination, since: int, till: int) -> int {
    if till <= since {
        0
    } else {
        let sd = day_of(since);
        let td = day_of(till);
        if sd == td {
            if day_is_working(cal, sd) {
                window_secs(sec_of_day(since), sec_of_day(till))
            } else {
                0
            }
        } else {
            (FULL_DAY_WORK_SECS as int) * working_days_between(cal, sd + 1, td) + (if day_is_working(
                cal,
                sd,
            ) {
                window_secs(sec_of_day(since), DAY_END_SEC as int)
            } else {
                0int
            }) + (if day_is_working(cal, td) {
                window_secs(DAY_START_SEC as int, sec_of_day(till))
            } else {
                0int
            })
        }
    }
}

pub proof fn lemma_working_days_between_bounds(cal: CalendarCombination, lo: int, hi: int)
    ensures
        0 <= working_days_between(cal, lo, hi),
        hi >= lo ==> working_days_between(cal, lo, hi) <= hi - lo,
    decreases hi - lo,
{
    if hi > lo {
        lemma_working_days_between_bounds(cal, lo, hi - 1);
    }
}

/// Splitting a day count splits the working-day count.
pub proof fn lemma_working_days_between_additive(cal: CalendarCombination, a: int, b: int, c: int)
    requires
        a <= b <= c,
    ensures
        working_days_between(cal, a, c) == working_days_between(cal, a, b)
            + working_days_between(cal, b, c),
    decreases c - b,
{
    if c > b {
        lemma_working_days_between_additive(cal, a, b, c - 1);
    }
}

/// Worked seconds are never negative, and a representable span is worth
/// less than `MAX_SPAN_WORK_SECS`.
pub proof fn lemma_work_secs_bounds(cal: CalendarCombination, since: int, till: int)
    requires
        i64::MIN <= since <= i64::MAX,
        i64::MIN <= till <= i64::MAX,
    ensures
        0 <= work_secs(cal, since, till) < MAX_SPAN_WORK_SECS,
{
    if till > since {
        lemma_instant_bounds(since);
        lemma_instant_bounds(till);
        let sd = day_of(since);
        let td = day_of(till);
        lemma_div_is_ordered(since, till, NANOS_PER_DAY as int);
        if sd != td {
            lemma_working_days_between_bounds(cal, sd + 1, td);
        }
    }
}

/// The window seconds of an in-range pair, computed.
fn window_secs_exec(a: i64, b: i64) -> (r: i64)
    requires
        0 <= a <= SECS_PER_DAY,
        0 <= b <= SECS_PER_DAY,
    ensures
        r == window_secs(a as int, b as int),
        0 <= r < WINDOW_SECS,
{
    let ca = if a < DAY_START_SEC {
        DAY_START_SEC
    } else if a > DAY_END_SEC {
        DAY_END_SEC
    } else {
        a
    };
    let cb = if b < DAY_START_SEC {
        DAY_START_SEC
    } else if b > DAY_END_SEC {
        DAY_END_SEC
    } else {
        b
    };
    let d = cb - ca;
    if d <= 0 {
        0
    } else if d >= WINDOW_SECS {
        FULL_DAY_WORK_SECS
    } else {
        d
    }
}

/// Counts the working days `d` with `lo <= d < hi`.
pub fn count_working_days(calendar: &CalendarCombination, lo: i64, hi: i64) -> (r: i64)
    requires
        MIN_EPOCH_DAY <= lo,
        hi <= MAX_EPOCH_DAY + 1,
    ensures
        r == working_days_between(*calendar, lo as int, hi as int),
        0 <= r,
        hi >= lo ==> r <= hi - lo,
{
    proof {
        lemma_working_days_between_bounds(*calendar, lo as int, hi as int);
    }
    if hi <= lo {
        return 0;
    }
    let mut d = lo;
    let mut n: i64 = 0;
    while d < hi
        invariant
            lo <= d <= hi,
            hi <= MAX_EPOCH_DAY + 1,
            MIN_EPOCH_DAY <= lo,
            n == working_days_between(*calendar, lo as int, d as int),
            0 <= n <= d - lo,
        decreases hi - d,
    {
        proof {
            lemma_working_days_between_additive(*calendar, lo as int, d as int, d as int + 1);
        }
        if !calendar.is_holiday_day(d) {
            n = n + 1;
        }
        d = d + 1;
    }
    n
}

/// Worked seconds between two instants under the calendar: zero when the
/// span is backwards, never negative, at most eight hours per day.
pub fn count_work_houres(since: i64, till: i64, calendar: &CalendarCombination) -> (r: i64)
    ensures
        r == work_secs(*calendar, since as int, till as int),
        0 <= r < MAX_SPAN_WORK_SECS,
{
    proof {
        lemma_work_secs_bounds(*calendar, since as int, till as int);
    }
    if till <= since {
        return 0;
    }
    let (sd, ss) = split_instant(since);
    let (td, ts) = split_instant(till);
    if sd == td {
        if calendar.is_holiday_day(sd) {
            0
        } else {
            window_secs_exec(ss, ts)
        }
    } else {
        proof {
            lemma_div_is_ordered(since as int, till as int, NANOS_PER_DAY as int);
        }
        let days = count_working_days(calendar, sd + 1, td);
        let mut total: i64 = days * FULL_DAY_WORK_SECS;
        if !calendar.is_holiday_day(sd) {
            total = total + window_secs_exec(ss, DAY_END_SEC);
        }
        if !calendar.is_holiday_day(td) {
            total = total + window_secs_exec(DAY_START_SEC, ts);
        }
        total
    }
}

/// Any instant's nanoseconds-in-day and second-of-day lie in range.
pub proof fn lemma_day_parts_range(x: int)
    ensures
        0 <= nanos_in_day(x) < NANOS_PER_DAY,
        0 <= sec_of_day(x) < SECS_PER_DAY,
        x == day_of(x) * (NANOS_PER_DAY as int) + nanos_in_day(x),
{
    let d = NANOS_PER_DAY as int;
    lemma_mod_division_less_than_divisor(x, d);
    lemma_fundamental_div_mod(x, d);
    let r = nanos_in_day(x);
    lemma_div_is_ordered(0, r, NANOS_PER_SEC as int);
    lemma_div_is_ordered(r, d - 1, NANOS_PER_SEC as int);
    lemma_fundamental_div_mod_converse_div(d - 1, NANOS_PER_SEC as int, 86_399, 999_999_999);
}

/// Structure of a day-end instant: one second later, a new day begins.
pub proof fn lemma_day_end_structure(b: int)
    requires
        nanos_in_day(b) == 86_399 * (NANOS_PER_SEC as int),
    ensures
        sec_of_day(b) == 86_399,
        day_of(b + NANOS_PER_SEC) == day_of(b) + 1,
        nanos_in_day(b + NANOS_PER_SEC) == 0,
        sec_of_day(b + NANOS_PER_SEC) == 0,
{
    let d = NANOS_PER_DAY as int;
    let n = NANOS_PER_SEC as int;
    lemma_day_parts_range(b);
    assert(b + n == (day_of(b) + 1) * d + 0) by {
        assert((day_of(b) + 1) * d == day_of(b) * d + d);
    }
    lemma_fundamental_div_mod_converse_div(b + n, d, day_of(b) + 1, 0);
    lemma_fundamental_div_mod_converse_mod(b + n, d, day_of(b) + 1, 0);
    lemma_fundamental_div_mod_converse_div(86_399 * n, n, 86_399, 0);
}

/// An instant strictly inside a day's final second shares that second's
/// day and second-of-day.
pub proof fn lemma_final_second_share(b: int, x: int)
    requires
        nanos_in_day(b) == 86_399 * (NANOS_PER_SEC as int),
        b < x < b + NANOS_PER_SEC,
    ensures
        day_of(x) == day_of(b),
        sec_of_day(x) == 86_399,
{
    let d = NANOS_PER_DAY as int;
    let n = NANOS_PER_SEC as int;
    lemma_day_parts_range(b);
    let r = x - day_of(b) * d;
    lemma_fundamental_div_mod_converse_div(x, d, day_of(b), r);
    lemma_fundamental_div_mod_converse_mod(x, d, day_of(b), r);
    lemma_fundamental_div_mod_converse_div(r, n, 86_399, r - 86_399 * n);
}

/// Splitting a span at a day-end instant `b` (the start of some day's
/// final second) splits the worked seconds: what is worked up to `b` plus
/// what is worked from one second after `b` is the whole.  This holds
/// whether or not the span's start lies before `b`, as long as it lies
/// before the day's end.
#[verifier::rlimit(100)]
pub proof fn lemma_work_secs_split(cal: CalendarCombination, since: int, till: int, b: int)
    requires
        nanos_in_day(b) == 86_399 * (NANOS_PER_SEC as int),
        since < b + NANOS_PER_SEC,
        b < till,
    ensures
        work_secs(cal, since, till) == work_secs(cal, since, b) + work_secs(
            cal,
            b + NANOS_PER_SEC,
            till,
        ),
{
    let d = NANOS_PER_DAY as int;
    let n = NANOS_PER_SEC as int;
    let c = b + n;
    let bd = day_of(b);
    lemma_day_end_structure(b);
    lemma_day_parts_range(since);
    lemma_day_parts_range(till);
    lemma_day_parts_range(b);
    reveal_with_fuel(working_days_between, 3);
    let sd = day_of(since);
    let td = day_of(till);
    let ss = sec_of_day(since);
    let ts = sec_of_day(till);
    if since <= b {
        lemma_div_is_ordered(since, b, d);
        assert(sd <= bd);
    } else {
        lemma_final_second_share(b, since);
        assert(sd == bd && ss == 86_399);
    }
    if till < c {
        lemma_final_second_share(b, till);
        assert(td == bd && ts == 86_399);
        if since <= b {
            assert(work_secs(cal, since, till) == work_secs(cal, since, b));
        } else {
            assert(work_secs(cal, since, till) == 0);
        }
        assert(work_secs(cal, c, till) == 0);
    } else if till == c {
        assert(td == bd + 1 && ts == 0);
        assert(work_secs(cal, c, till) == 0);
        if since > b || since == b {
            assert(work_secs(cal, since, till) == 0);
            assert(work_secs(cal, since, b) == 0);
        } else if sd == bd {
            assert(working_days_between(cal, bd + 1, bd + 1) == 0);
            assert(work_secs(cal, since, till) == work_secs(cal, since, b));
        } else {
            lemma_working_days_between_additive(cal, sd + 1, bd, bd + 1);
            assert(working_days_between(cal, sd + 1, bd + 1)
                == working_days_between(cal, sd + 1, bd) + (if day_is_working(cal, bd) {
                1int
            } else {
                0int
            }));
            assert(work_secs(cal, since, till) == work_secs(cal, since, b));
        }
    } else {
        lemma_div_is_ordered(c, till, d);
        assert(td >= bd + 1);
        if td == bd + 1 {
            assert(working_days_between(cal, bd + 1, td) == 0);
            assert(working_days_between(cal, bd + 2, td) == 0);
        } else {
            lemma_working_days_between_additive(cal, bd + 1, bd + 1 + 1, td);
            assert(working_days_between(cal, bd + 1, td) == (if day_is_working(cal, bd + 1) {
                1int
            } else {
                0int
            }) + working_days_between(cal, bd + 2, td));
        }
        if since > b || since == b {
            assert(work_secs(cal, since, b) == 0);
            assert(window_secs(86_399, DAY_END_SEC as int) == 0);
            assert(work_secs(cal, since, till) == work_secs(cal, c, till));
        } else if sd == bd {
            assert(window_secs(ss, 86_399) == window_secs(ss, DAY_END_SEC as int));
            assert(working_days_between(cal, bd + 1, bd + 1) == 0);
            assert(work_secs(cal, since, till) == work_secs(cal, since, b) + work_secs(
                cal,
                c,
                till,
            ));
        } else {
            lemma_working_days_between_additive(cal, sd + 1, bd, td);
            lemma_working_days_between_additive(cal, bd, bd + 1, td);
            assert(working_days_between(cal, bd, td) == (if day_is_working(cal, bd) {
                1int
            } else {
                0int
            }) + working_days_between(cal, bd + 1, td));
            assert(window_secs(DAY_START_SEC as int, 86_399) == FULL_DAY_WORK_SECS);
            assert(window_secs(0, ts) == window_secs(DAY_START_SEC as int, ts));
            assert(window_secs(0, DAY_END_SEC as int) == FULL_DAY_WORK_SECS);
            assert(work_secs(cal, since, till) == work_secs(cal, since, b) + work_secs(
                cal,
                c,
                till,
            ));
        }
    }
}

/// A span from an instant to itself contains no time: its worked seconds
/// are zero under any calendar, as are those of any backwards span.
pub proof fn lemma_work_secs_point(cal: CalendarCombination, t: int, earlier: int)
    requires
        earlier <= t,
    ensures
        work_secs(cal, t, t) == 0,
        work_secs(cal, t, earlier) == 0,
{
}

/// A day that is a weekend day and a public holiday at once still counts
/// as exactly one non-working day under a calendar combining both rules
/// (such as the one `holydays_and_vacations` builds): the OR-combination
/// is idempotent, so the day range `[d, d+1)` loses exactly one working
/// day, never two.
pub proof fn lemma_overlapping_rules_count_once(
    cal: CalendarCombination,
    vacations: Seq<(i64, i64)>,
    d: int,
)
    requires
        is_weekend_day(d),
        is_public_holiday_day(d),
        forall|x: int| #[trigger] day_is_nonworking(cal, x) == standard_nonworking(vacations, x),
    ensures
        !day_is_working(cal, d),
        working_days_between(cal, d, d + 1) == 0,
        (d + 1 - d) - working_days_between(cal, d, d + 1) == 1,
{
    reveal_with_fuel(working_days_between, 3);
    assert(day_is_nonworking(cal, d));
}

} // verus!
