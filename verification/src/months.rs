//! Monthly aggregation of worked time.
//!
//! A span is cut at month ends into sub-spans, each worth its own worked
//! seconds; the sub-spans of one span carry exactly the span's total, so
//! bucketing by month neither loses nor double-counts time at month
//! boundaries.

use vstd::prelude::*;
use vstd::arithmetic::div_mod::{
    lemma_fundamental_div_mod_converse_div, lemma_fundamental_div_mod_converse_mod,
};
use crate::dates::{
    day_of, nanos_in_day, ymd_of_day, lemma_ymd_of_day, lemma_ymd_unique, lemma_day_in_year,
    day_from_ymd, lemma_months_fill_year, days_to_year, split_instant, ymd_from_day,
    day_from_ymd_exec, NANOS_PER_SEC, NANOS_PER_DAY,
};
use crate::hours::{
    work_secs, count_work_houres, lemma_work_secs_split, lemma_work_secs_bounds,
    lemma_day_parts_range, MAX_SPAN_WORK_SECS,
};
use crate::calendar::CalendarCombination;

verus! {

/// Month (1 through 12) of the calendar date an epoch day falls in.
pub open spec fn month_of_day(day: int) -> int {
    ymd_of_day(day).1
}

/// Month of the calendar date an instant falls in.
pub open spec fn month_of_instant(ts: int) -> int {
    month_of_day(day_of(ts))
}

/// The instant starting the final second of the instant's calendar
/// month: the first day of the next month, minus one second.
pub open spec fn month_end_instant(ts: int) -> int {
    let t = ymd_of_day(day_of(ts));
    let next_first = if t.1 == 12 {
        day_from_ymd(t.0 + 1, 1, 1)
    } else {
        day_from_ymd(t.0, t.1 + 1, 1)
    };
    next_first * (NANOS_PER_DAY as int) - (NANOS_PER_SEC as int)
}

/// A month end starts a day's final second, lies on a day at or after the
/// instant's own, and less than a second before the instant.
pub proof fn lemma_month_end_structure(ts: int)
    ensures
        month_end_instant(ts) > ts - NANOS_PER_SEC,
        day_of(month_end_instant(ts)) >= day_of(ts),
        nanos_in_day(month_end_instant(ts)) == 86_399 * (NANOS_PER_SEC as int),
{
    let big_d = NANOS_PER_DAY as int;
    let n = NANOS_PER_SEC as int;
    let day = day_of(ts);
    lemma_ymd_of_day(day);
    let (y, m, d) = ymd_of_day(day);
    lemma_day_in_year(y, m, d);
    lemma_months_fill_year(y);
    let nf = if m == 12 {
        day_from_ymd(y + 1, 1, 1)
    } else {
        day_from_ymd(y, m + 1, 1)
    };
    assert(day < nf) by {
        if m == 12 {
            assert(days_to_year(y + 1) == days_to_year(y) + crate::dates::days_in_year(y));
        }
    }
    let e = month_end_instant(ts);
    assert(e == (nf - 1) * big_d + 86_399 * n) by {
        assert((nf - 1) * big_d == nf * big_d - big_d);
    }
    lemma_fundamental_div_mod_converse_div(e, big_d, nf - 1, 86_399 * n);
    lemma_fundamental_div_mod_converse_mod(e, big_d, nf - 1, 86_399 * n);
    lemma_day_parts_range(ts);
    assert((nf - 1) * big_d >= day * big_d);
}

/// The month-aligned sub-spans of a span: each runs from the current
/// position to its month's end (or to the span's end, where that comes
/// first), and the next begins one second later.
pub open spec fn month_spans(since: int, till: int) -> Seq<(int, int)>
    decreases
            (if till - since + 2 * (NANOS_PER_SEC as int) >= 0 {
                till - since + 2 * (NANOS_PER_SEC as int)
            } else {
                0
            })
        via month_spans_dec
{
    let e = month_end_instant(since);
    if e >= till {
        seq![(since, till)]
    } else {
        seq![(since, e)] + month_spans(e + NANOS_PER_SEC, till)
    }
}

#[via_fn]
proof fn month_spans_dec(since: int, till: int) {
    let e = month_end_instant(since);
    if e < till {
        lemma_month_end_structure(since);
    }
}

/// The worked seconds of a list of spans.
pub open spec fn spans_work_sum(cal: CalendarCombination, spans: Seq<(int, int)>) -> int
    decreases spans.len(),
{
    if spans.len() == 0 {
        0
    } else {
        spans_work_sum(cal, spans.drop_last()) + work_secs(cal, spans.last().0, spans.last().1)
    }
}

proof fn lemma_spans_work_sum_concat(cal: CalendarCombination, a: Seq<(int, int)>, b: Seq<(int, int)>)
    ensures
        spans_work_sum(cal, a + b) == spans_work_sum(cal, a) + spans_work_sum(cal, b),
    decreases b.len(),
{
    if b.len() == 0 {
        assert(a + b =~= a);
    } else {
        lemma_spans_work_sum_concat(cal, a, b.drop_last());
        assert((a + b).drop_last() =~= a + b.drop_last());
        assert((a + b).last() == b.last());
    }
}

/// Splitting a span at month ends conserves its worked seconds: the
/// month-aligned sub-spans together are worth exactly the whole span.
pub proof fn lemma_month_spans_work(cal: CalendarCombination, since: int, till: int)
    ensures
        spans_work_sum(cal, month_spans(since, till)) == work_secs(cal, since, till),
    decreases
            (if till - since + 2 * (NANOS_PER_SEC as int) >= 0 {
                till - since + 2 * (NANOS_PER_SEC as int)
            } else {
                0
            }),
{
    reveal_with_fuel(spans_work_sum, 3);
    let e = month_end_instant(since);
    lemma_month_end_structure(since);
    if e >= till {
        assert(seq![(since, till)].drop_last() =~= Seq::<(int, int)>::empty());
    } else {
        lemma_month_spans_work(cal, e + NANOS_PER_SEC, till);
        lemma_work_secs_split(cal, since, till, e);
        lemma_spans_work_sum_concat(cal, seq![(since, e)], month_spans(e + NANOS_PER_SEC, till));
        assert(seq![(since, e)].drop_last() =~= Seq::<(int, int)>::empty());
    }
}

/// The first instant of the month after the one `ts` falls in, saturated
/// to the largest representable instant: the end of `ts`'s month is one
/// second before it.
fn month_end_or_max(ts: i64) -> (e: i64)
    ensures
        month_end_instant(ts as int) >= i64::MAX ==> e == i64::MAX,
        month_end_instant(ts as int) < i64::MAX ==> e == month_end_instant(ts as int),
{
    let (day, _) = split_instant(ts);
    let (y, m, _) = ymd_from_day(day);
    proof {
        lemma_ymd_of_day(day as int);
        let t = ymd_of_day(day as int);
        lemma_ymd_unique(t.0, t.1, t.2, y as int, m as int, ymd_of_day(day as int).2);
    }
    let next_first: i64 = if m == 12 {
        day_from_ymd_exec(y + 1, 1, 1)
    } else {
        day_from_ymd_exec(y, m + 1, 1)
    };
    proof {
        lemma_day_in_year(y as int, m as int, ymd_of_day(day as int).2);
        lemma_months_fill_year(y as int);
        crate::dates::lemma_days_to_year_bounds(y as int + 1);
        crate::dates::lemma_days_to_year_bounds(y as int);
    }
    let prod = match next_first.checked_mul(NANOS_PER_DAY) {
        Some(p) => p,
        None => {
            return i64::MAX;
        },
    };
    match prod.checked_sub(NANOS_PER_SEC) {
        Some(e) => e,
        None => vstd::pervasive::unreached(),
    }
}

/// The value under a month key of a month map, zero when absent (summed,
/// should a key ever repeat).
pub open spec fn map_val(s: Seq<(u32, i64)>, m: int) -> int
    decreases s.len(),
{
    if s.len() == 0 {
        0
    } else {
        map_val(s.drop_last(), m) + (if s.last().0 == m {
            s.last().1 as int
        } else {
            0int
        })
    }
}

/// The sum of all values of a month map.
pub open spec fn sum_vals(s: Seq<(u32, i64)>) -> int
    decreases s.len(),
{
    if s.len() == 0 {
        0
    } else {
        sum_vals(s.drop_last()) + s.last().1
    }
}

/// Whether the month map has an entry under the key.
pub open spec fn has_key(s: Seq<(u32, i64)>, m: int) -> bool {
    exists|i: int| 0 <= i < s.len() && (#[trigger] s[i]).0 == m
}

/// Month-map keys are pairwise distinct.
pub open spec fn keys_distinct(s: Seq<(u32, i64)>) -> bool {
    forall|i: int, j: int| 0 <= i < j < s.len() ==> (#[trigger] s[i]).0 != (#[trigger] s[j]).0
}

proof fn lemma_map_val_update(s: Seq<(u32, i64)>, i: int, nv: i64, m: int)
    requires
        0 <= i < s.len(),
    ensures
        map_val(s.update(i, (s[i].0, nv)), m) == map_val(s, m) + (if s[i].0 == m {
            nv - s[i].1
        } else {
            0int
        }),
        sum_vals(s.update(i, (s[i].0, nv))) == sum_vals(s) + nv - s[i].1,
    decreases s.len(),
{
    let u = s.update(i, (s[i].0, nv));
    if i == s.len() - 1 {
        assert(u.drop_last() =~= s.drop_last());
        assert(u.last() == (s[i].0, nv));
    } else {
        lemma_map_val_update(s.drop_last(), i, nv, m);
        assert(u.drop_last() =~= s.drop_last().update(i, (s[i].0, nv)));
        assert(u.last() == s.last());
        assert(s.drop_last()[i] == s[i]);
    }
}

/// Entries of a nonnegative month map are bounded by the map's sum.
proof fn lemma_entry_le_sum(s: Seq<(u32, i64)>, i: int)
    requires
        0 <= i < s.len(),
        forall|j: int| 0 <= j < s.len() ==> 0 <= (#[trigger] s[j]).1,
    ensures
        s[i].1 <= sum_vals(s),
        0 <= sum_vals(s),
    decreases s.len(),
{
    assert forall|j: int| 0 <= j < s.drop_last().len() implies 0 <= (
    #[trigger] s.drop_last()[j]).1 by {
        assert(s.drop_last()[j] == s[j]);
    }
    lemma_sum_vals_nonneg(s.drop_last());
    assert(0 <= s[s.len() - 1].1);
    if i < s.len() - 1 {
        lemma_entry_le_sum(s.drop_last(), i);
        assert(s.drop_last()[i] == s[i]);
    }
}

proof fn lemma_sum_vals_nonneg(s: Seq<(u32, i64)>)
    requires
        forall|j: int| 0 <= j < s.len() ==> 0 <= (#[trigger] s[j]).1,
    ensures
        0 <= sum_vals(s),
    decreases s.len(),
{
    if s.len() > 0 {
        assert forall|j: int| 0 <= j < s.drop_last().len() implies 0 <= (
        #[trigger] s.drop_last()[j]).1 by {
            assert(s.drop_last()[j] == s[j]);
        }
        lemma_sum_vals_nonneg(s.drop_last());
    }
}

/// Adds an amount under a month key, creating the entry when absent.
fn bucket_add(map: &mut Vec<(u32, i64)>, key: u32, amount: i64)
    requires
        0 <= amount,
        keys_distinct(old(map)@),
        forall|j: int| 0 <= j < old(map)@.len() ==> 0 <= (#[trigger] old(map)@[j]).1,
        sum_vals(old(map)@) + amount <= i64::MAX,
    ensures
        forall|m: int|
            #[trigger] map_val(final(map)@, m) == map_val(old(map)@, m) + (if m == key {
                amount as int
            } else {
                0int
            }),
        sum_vals(final(map)@) == sum_vals(old(map)@) + amount,
        forall|m: int|
            #[trigger] has_key(final(map)@, m) == (has_key(old(map)@, m) || m == key),
        keys_distinct(final(map)@),
        forall|j: int| 0 <= j < final(map)@.len() ==> 0 <= (#[trigger] final(map)@[j]).1,
        forall|j: int|
            0 <= j < old(map)@.len() ==> (#[trigger] final(map)@[j]).0 == old(map)@[j].0,
        final(map)@.len() == old(map)@.len() || final(map)@.len() == old(map)@.len() + 1,
        final(map)@.len() == old(map)@.len() + 1 ==> final(map)@.last() == (key, amount),
{
    let ghost s0 = map@;
    let mut i: usize = 0;
    let mut found = false;
    while !found && i < map.len()
        invariant
            map@ == s0,
            0 <= i <= s0.len(),
            forall|j: int| 0 <= j < i ==> (#[trigger] s0[j]).0 != key,
            found ==> i < s0.len() && s0[i as int].0 == key,
        decreases 2 * (s0.len() - i) + (if found { 0int } else { 1int }),
    {
        if map[i].0 == key {
            found = true;
        } else {
            i = i + 1;
        }
    }
    if found {
        proof {
            lemma_entry_le_sum(s0, i as int);
        }
        let v = map[i].1;
        let nv = v + amount;
        map[i] = (key, nv);
        proof {
            lemma_map_val_update(s0, i as int, nv, 0);
            assert forall|m: int|
                #[trigger] map_val(map@, m) == map_val(s0, m) + (if m == key {
                    amount as int
                } else {
                    0int
                }) by {
                lemma_map_val_update(s0, i as int, nv, m);
            }
            assert forall|m: int|
                #[trigger] has_key(map@, m) == (has_key(s0, m) || m == key) by {
                if has_key(s0, m) {
                    let w = choose|w: int| 0 <= w < s0.len() && (#[trigger] s0[w]).0 == m;
                    assert(map@[w].0 == m);
                }
                if m == key {
                    assert(map@[i as int].0 == m);
                }
                if has_key(map@, m) {
                    let w = choose|w: int| 0 <= w < map@.len() && (#[trigger] map@[w]).0 == m;
                    assert(s0[w].0 == m || w == i as int);
                }
            }
        }
    } else {
        map.push((key, amount));
        proof {
            assert(map@.drop_last() =~= s0);
            assert forall|m: int|
                #[trigger] has_key(map@, m) == (has_key(s0, m) || m == key) by {
                if has_key(s0, m) {
                    let w = choose|w: int| 0 <= w < s0.len() && (#[trigger] s0[w]).0 == m;
                    assert(map@[w].0 == m);
                }
                if m == key {
                    assert(map@[s0.len() as int].0 == m);
                }
                if has_key(map@, m) {
                    let w = choose|w: int| 0 <= w < map@.len() && (#[trigger] map@[w]).0 == m;
                    if w < s0.len() {
                        assert(s0[w].0 == m);
                    }
                }
            }
        }
    }
}

/// Each month's contribution to a list of spans: the worked seconds of
/// the spans starting in that month.
pub open spec fn month_bucket(cal: CalendarCombination, spans: Seq<(int, int)>, m: int) -> int
    decreases spans.len(),
{
    if spans.len() == 0 {
        0
    } else {
        month_bucket(cal, spans.drop_last(), m) + (if month_of_instant(spans.last().0) == m {
            work_secs(cal, spans.last().0, spans.last().1)
        } else {
            0int
        })
    }
}

/// Whether some span starts in the month.
pub open spec fn spans_have_month(spans: Seq<(int, int)>, m: int) -> bool {
    exists|i: int| 0 <= i < spans.len() && month_of_instant((#[trigger] spans[i]).0) == m
}

/// The month of the instant's calendar date, computed.
pub fn month_of(ts: i64) -> (m: u8)
    ensures
        1 <= m <= 12,
        m == month_of_instant(ts as int),
{
    let (day, _) = split_instant(ts);
    let (_, m, d) = ymd_from_day(day);
    proof {
        lemma_ymd_of_day(day as int);
    }
    m
}

impl crate::ranges::TimeRange {
    /// The start of this interval clipped to the report bounds: an open
    /// start falls back to the global start, and nothing reaches before
    /// it.
    pub open spec fn clip_since(self, global_start: int) -> int {
        match self.start {
            Some(s) => if s > global_start {
                s as int
            } else {
                global_start
            },
            None => global_start,
        }
    }

    /// The end of this interval clipped to the report bounds.
    pub open spec fn clip_till(self, global_end: int) -> int {
        match self.end {
            Some(e) => if (e as int) < global_end {
                e as int
            } else {
                global_end
            },
            None => global_end,
        }
    }

    /// Worked seconds of this interval, clipped to the report bounds.
    pub fn work_hours(&self, global_start: i64, global_end: i64, calendar: &CalendarCombination) -> (r:
        i64)
        ensures
            r == work_secs(
                *calendar,
                self.clip_since(global_start as int),
                self.clip_till(global_end as int),
            ),
            0 <= r < MAX_SPAN_WORK_SECS,
    {
        let since = match self.start {
            Some(s) => if s > global_start {
                s
            } else {
                global_start
            },
            None => global_start,
        };
        let till = match self.end {
            Some(e) => if e < global_end {
                e
            } else {
                global_end
            },
            None => global_end,
        };
        count_work_houres(since, till, calendar)
    }

    /// Worked seconds of this clipped interval, bucketed by the month in
    /// which each month-aligned sub-span starts.  The buckets together
    /// carry exactly the interval's total.
    pub fn month_hours(
        &self,
        global_start: i64,
        global_end: i64,
        calendar: &CalendarCombination,
    ) -> (r: Vec<(u32, i64)>)
        ensures
            ({
                let since = self.clip_since(global_start as int);
                let till = self.clip_till(global_end as int);
                let spans = month_spans(since, till);
                &&& sum_vals(r@) == work_secs(*calendar, since, till)
                &&& forall|m: int|
                    #[trigger] map_val(r@, m) == month_bucket(*calendar, spans, m)
                &&& forall|m: int| #[trigger] has_key(r@, m) == spans_have_month(spans, m)
                &&& keys_distinct(r@)
                &&& forall|i: int| 0 <= i < r@.len() ==> 1 <= (#[trigger] r@[i]).0 <= 12
                &&& forall|i: int| 0 <= i < r@.len() ==> 0 <= (#[trigger] r@[i]).1
            }),
    {
        let since = match self.start {
            Some(s) => if s > global_start {
                s
            } else {
                global_start
            },
            None => global_start,
        };
        let till = match self.end {
            Some(e) => if e < global_end {
                e
            } else {
                global_end
            },
            None => global_end,
        };
        let ghost since0 = since as int;
        let ghost till0 = till as int;
        let mut result: Vec<(u32, i64)> = Vec::new();
        let mut cur: i64 = since;
        let mut stop = false;
        let ghost mut processed: Seq<(int, int)> = Seq::empty();
        proof {
            lemma_work_secs_bounds(*calendar, since0, till0);
        }
        while !stop
            invariant
                since0 == since as int,
                till0 == till as int,
                !stop ==> month_spans(since0, till0) =~= processed + month_spans(
                    cur as int,
                    till0,
                ),
                stop ==> month_spans(since0, till0) =~= processed,
                forall|m: int|
                    #[trigger] map_val(result@, m) == month_bucket(*calendar, processed, m),
                sum_vals(result@) == spans_work_sum(*calendar, processed),
                forall|m: int| #[trigger] has_key(result@, m) == spans_have_month(processed, m),
                keys_distinct(result@),
                forall|i: int| 0 <= i < result@.len() ==> 1 <= (#[trigger] result@[i]).0 <= 12,
                forall|i: int| 0 <= i < result@.len() ==> 0 <= (#[trigger] result@[i]).1,
                spans_work_sum(*calendar, processed) + (if !stop {
                    work_secs(*calendar, cur as int, till0)
                } else {
                    0int
                }) == work_secs(*calendar, since0, till0),
                0 <= work_secs(*calendar, since0, till0) < MAX_SPAN_WORK_SECS,
            decreases (if stop {
                0int
            } else if till0 - cur + 2 * (NANOS_PER_SEC as int) >= 0 {
                till0 - cur + 2 * (NANOS_PER_SEC as int) + 1
            } else {
                1int
            }),
        {
            proof {
                lemma_month_end_structure(cur as int);
                lemma_work_secs_bounds(*calendar, cur as int, till0);
            }
            let e_sat = month_end_or_max(cur);
            let key = month_of(cur);
            if e_sat >= till {
                let wh = count_work_houres(cur, till, calendar);
                proof {
                    lemma_sum_vals_nonneg(result@);
                }
                bucket_add(&mut result, key as u32, wh);
                proof {
                    let sp = (cur as int, till0);
                    assert(month_end_instant(cur as int) >= till0);
                    assert(month_spans(cur as int, till0) =~= seq![sp]);
                    let p2 = processed + seq![sp];
                    assert(p2.drop_last() =~= processed);
                    assert(p2.last() == sp);
                    assert(month_spans(since0, till0) =~= p2);
                    assert(month_of_instant(sp.0) == key as int);
                    assert forall|m: int|
                        #[trigger] map_val(result@, m) == month_bucket(*calendar, p2, m) by {
                        assert(month_bucket(*calendar, p2, m) == month_bucket(
                            *calendar,
                            processed,
                            m,
                        ) + (if month_of_instant(sp.0) == m {
                            work_secs(*calendar, sp.0, sp.1)
                        } else {
                            0int
                        }));
                    }
                    assert(sum_vals(result@) == spans_work_sum(*calendar, p2));
                    assert forall|m: int|
                        #[trigger] has_key(result@, m) == spans_have_month(p2, m) by {
                        if spans_have_month(processed, m) {
                            let w = choose|w: int|
                                0 <= w < processed.len() && month_of_instant(
                                    (#[trigger] processed[w]).0,
                                ) == m;
                            assert(month_of_instant(p2[w].0) == m);
                        }
                        if m == key {
                            assert(month_of_instant(p2[p2.len() - 1].0) == m);
                        }
                        if spans_have_month(p2, m) {
                            let w = choose|w: int|
                                0 <= w < p2.len() && month_of_instant((#[trigger] p2[w]).0) == m;
                            if w < processed.len() {
                                assert(month_of_instant(processed[w].0) == m);
                            }
                        }
                    }
                    processed = p2;
                }
                stop = true;
            } else {
                let wh = count_work_houres(cur, e_sat, calendar);
                proof {
                    lemma_sum_vals_nonneg(result@);
                }
                bucket_add(&mut result, key as u32, wh);
                proof {
                    let e = month_end_instant(cur as int);
                    assert(e == e_sat as int);
                    let sp = (cur as int, e);
                    let p2 = processed + seq![sp];
                    assert(p2.drop_last() =~= processed);
                    assert(p2.last() == sp);
                    assert(month_spans(cur as int, till0) =~= seq![sp] + month_spans(
                        e + NANOS_PER_SEC,
                        till0,
                    ));
                    assert(month_spans(since0, till0) =~= p2 + month_spans(
                        e + NANOS_PER_SEC,
                        till0,
                    ));
                    lemma_work_secs_split(*calendar, cur as int, till0, e);
                    assert(month_of_instant(sp.0) == key as int);
                    assert forall|m: int|
                        #[trigger] map_val(result@, m) == month_bucket(*calendar, p2, m) by {
                        assert(month_bucket(*calendar, p2, m) == month_bucket(*calendar, processed, m) + (
                        if month_of_instant(sp.0) == m {
                            work_secs(*calendar, sp.0, sp.1)
                        } else {
                            0int
                        }));
                    }
                    assert(sum_vals(result@) == spans_work_sum(*calendar, p2));
                    assert forall|m: int|
                        #[trigger] has_key(result@, m) == spans_have_month(p2, m) by {
                        if spans_have_month(processed, m) {
                            let w = choose|w: int|
                                0 <= w < processed.len() && month_of_instant(
                                    (#[trigger] processed[w]).0,
                                ) == m;
                            assert(month_of_instant(p2[w].0) == m);
                        }
                        if m == key {
                            assert(month_of_instant(p2[p2.len() - 1].0) == m);
                        }
                        if spans_have_month(p2, m) {
                            let w = choose|w: int|
                                0 <= w < p2.len() && month_of_instant((#[trigger] p2[w]).0) == m;
                            if w < processed.len() {
                                assert(month_of_instant(processed[w].0) == m);
                            }
                        }
                    }
                    processed = p2;
                    // the next position stays representable
                    assert(day_of(e) <= 106_750) by {
                        lemma_day_parts_range(e);
                        if day_of(e) >= 106_751 {
                            assert(e >= 106_751 * (NANOS_PER_DAY as int) + 86_399 * (
                            NANOS_PER_SEC as int));
                        }
                    }
                    assert(e + NANOS_PER_SEC <= i64::MAX) by {
                        lemma_day_parts_range(e);
                        assert(e + NANOS_PER_SEC == day_of(e) * (NANOS_PER_DAY as int) + 86_400
                            * (NANOS_PER_SEC as int));
                    }
                }
                cur = e_sat + NANOS_PER_SEC;
            }
        }
        result
    }
}

/// The first instant of the default report window, 2022-01-01T00:00:00Z.
pub const DEFAULT_REPORT_START: i64 = 1_640_995_200_000_000_000;

/// The report start an optional bound resolves to.
pub open spec fn resolved_start(global_start: Option<i64>) -> int {
    match global_start {
        Some(s) => s as int,
        None => DEFAULT_REPORT_START as int,
    }
}

/// The report end an optional bound resolves to, never past the clock
/// reading `now`.
pub open spec fn resolved_end(global_end: Option<i64>, now: int) -> int {
    match global_end {
        Some(e) => if (e as int) < now {
            e as int
        } else {
            now
        },
        None => now,
    }
}

/// The worked seconds of a list of intervals, each clipped to the bounds.
pub open spec fn ranges_work_sum(
    cal: CalendarCombination,
    ranges: Seq<crate::ranges::TimeRange>,
    gs: int,
    ge: int,
) -> int
    decreases ranges.len(),
{
    if ranges.len() == 0 {
        0
    } else {
        ranges_work_sum(cal, ranges.drop_last(), gs, ge) + work_secs(
            cal,
            ranges.last().clip_since(gs),
            ranges.last().clip_till(ge),
        )
    }
}

/// A month's worked seconds accumulated over a list of clipped intervals.
pub open spec fn ranges_month_bucket(
    cal: CalendarCombination,
    ranges: Seq<crate::ranges::TimeRange>,
    gs: int,
    ge: int,
    m: int,
) -> int
    decreases ranges.len(),
{
    if ranges.len() == 0 {
        0
    } else {
        ranges_month_bucket(cal, ranges.drop_last(), gs, ge, m) + month_bucket(
            cal,
            month_spans(ranges.last().clip_since(gs), ranges.last().clip_till(ge)),
            m,
        )
    }
}

/// Whether any clipped interval has a sub-span starting in the month.
pub open spec fn ranges_have_month(
    ranges: Seq<crate::ranges::TimeRange>,
    gs: int,
    ge: int,
    m: int,
) -> bool {
    exists|i: int|
        0 <= i < ranges.len() && spans_have_month(
            month_spans((#[trigger] ranges[i]).clip_since(gs), ranges[i].clip_till(ge)),
            m,
        )
}

pub proof fn lemma_ranges_work_sum_bounds(
    cal: CalendarCombination,
    ranges: Seq<crate::ranges::TimeRange>,
    gs: int,
    ge: int,
)
    requires
        i64::MIN <= gs <= i64::MAX,
        i64::MIN <= ge <= i64::MAX,
    ensures
        0 <= ranges_work_sum(cal, ranges, gs, ge) <= ranges.len() * (MAX_SPAN_WORK_SECS as int),
    decreases ranges.len(),
{
    if ranges.len() > 0 {
        lemma_ranges_work_sum_bounds(cal, ranges.drop_last(), gs, ge);
        lemma_work_secs_bounds(
            cal,
            ranges.last().clip_since(gs),
            ranges.last().clip_till(ge),
        );
        assert((ranges.len() - 1) * (MAX_SPAN_WORK_SECS as int) + MAX_SPAN_WORK_SECS
            == ranges.len() * (MAX_SPAN_WORK_SECS as int));
    }
}

proof fn lemma_sum_vals_prefix(s: Seq<(u32, i64)>, j: int)
    requires
        0 <= j <= s.len(),
        forall|i: int| 0 <= i < s.len() ==> 0 <= (#[trigger] s[i]).1,
    ensures
        0 <= sum_vals(s.take(j)) <= sum_vals(s),
    decreases s.len() - j,
{
    if j == s.len() {
        assert(s.take(j) =~= s);
        lemma_sum_vals_nonneg(s);
    } else {
        lemma_sum_vals_prefix(s, j + 1);
        assert(s.take(j + 1).drop_last() =~= s.take(j));
        assert(s.take(j + 1).last() == s[j]);
        assert(0 <= s[j].1);
        assert forall|k: int| 0 <= k < s.take(j).len() implies 0 <= (
        #[trigger] s.take(j)[k]).1 by {
            assert(s.take(j)[k] == s[k]);
        }
        lemma_sum_vals_nonneg(s.take(j));
    }
}

/// The worked seconds of the intervals between two explicit bounds.
pub fn total_work_secs(
    ranges: &Vec<crate::ranges::TimeRange>,
    global_start: i64,
    global_end: i64,
    calendar: &CalendarCombination,
) -> (r: i64)
    requires
        ranges@.len() <= 1_000_000_000,
    ensures
        r == ranges_work_sum(*calendar, ranges@, global_start as int, global_end as int),
        0 <= r,
{
    let mut total: i64 = 0;
    let mut i: usize = 0;
    proof {
        assert(ranges@.take(0) =~= Seq::empty());
    }
    while i < ranges.len()
        invariant
            0 <= i <= ranges@.len(),
            ranges@.len() <= 1_000_000_000,
            total == ranges_work_sum(
                *calendar,
                ranges@.take(i as int),
                global_start as int,
                global_end as int,
            ),
            0 <= total <= i * (MAX_SPAN_WORK_SECS as int),
        decreases ranges@.len() - i,
    {
        let wh = ranges[i].work_hours(global_start, global_end, calendar);
        proof {
            assert(ranges@.take(i as int + 1).drop_last() =~= ranges@.take(i as int));
            assert(ranges@.take(i as int + 1).last() == ranges@[i as int]);
            assert((i + 1) * (MAX_SPAN_WORK_SECS as int) == i * (MAX_SPAN_WORK_SECS as int)
                + MAX_SPAN_WORK_SECS);
        }
        total = total + wh;
        i = i + 1;
    }
    proof {
        assert(ranges@.take(ranges@.len() as int) =~= ranges@);
    }
    total
}

/// The worked seconds of the intervals under the report bounds.  An
/// absent start falls back to the default report start; the end never
/// reaches past the present clock reading, whose value the contract
/// leaves open.
pub fn working_houres_from_ranges(
    ranges: &Vec<crate::ranges::TimeRange>,
    global_start: Option<i64>,
    global_end: Option<i64>,
    calendar: &CalendarCombination,
) -> (r: i64)
    requires
        ranges@.len() <= 1_000_000_000,
    ensures
        exists|now_ts: int|
            r == ranges_work_sum(
                *calendar,
                ranges@,
                resolved_start(global_start),
                #[trigger] resolved_end(global_end, now_ts),
            ),
        0 <= r,
{
    let now_ts = crate::clock::now_timestamp();
    let gs = match global_start {
        Some(s) => s,
        None => DEFAULT_REPORT_START,
    };
    let ge = match global_end {
        Some(e) => if e < now_ts {
            e
        } else {
            now_ts
        },
        None => now_ts,
    };
    let r = total_work_secs(ranges, gs, ge, calendar);
    proof {
        assert(gs as int == resolved_start(global_start));
        assert(ge as int == resolved_end(global_end, now_ts as int));
    }
    r
}

/// Whether a month map faithfully buckets the intervals' worked seconds
/// between the bounds: its values are the per-month accumulations, its
/// keys are exactly the months touched, and its values sum to the total.
pub open spec fn month_map_matches(
    r: Seq<(u32, i64)>,
    cal: CalendarCombination,
    ranges: Seq<crate::ranges::TimeRange>,
    gs: int,
    ge: int,
) -> bool {
    &&& sum_vals(r) == ranges_work_sum(cal, ranges, gs, ge)
    &&& forall|m: int| #[trigger] map_val(r, m) == ranges_month_bucket(cal, ranges, gs, ge, m)
    &&& forall|m: int| #[trigger] has_key(r, m) == ranges_have_month(ranges, gs, ge, m)
    &&& keys_distinct(r)
    &&& forall|i: int| 0 <= i < r.len() ==> 1 <= (#[trigger] r[i]).0 <= 12
    &&& forall|i: int| 0 <= i < r.len() ==> 0 <= (#[trigger] r[i]).1
}

/// The per-month worked seconds of the intervals between two explicit
/// bounds, all matching months added together.
pub fn month_hours_bounded(
    ranges: &Vec<crate::ranges::TimeRange>,
    global_start: i64,
    global_end: i64,
    calendar: &CalendarCombination,
) -> (r: Vec<(u32, i64)>)
    requires
        ranges@.len() <= 1_000_000_000,
    ensures
        month_map_matches(r@, *calendar, ranges@, global_start as int, global_end as int),
{
    let ghost gs0 = global_start as int;
    let ghost ge0 = global_end as int;
    let mut acc: Vec<(u32, i64)> = Vec::new();
    let mut i: usize = 0;
    proof {
        assert(ranges@.take(0) =~= Seq::<crate::ranges::TimeRange>::empty());
    }
    while i < ranges.len()
        invariant
            0 <= i <= ranges@.len(),
            ranges@.len() <= 1_000_000_000,
            gs0 == global_start as int,
            ge0 == global_end as int,
            sum_vals(acc@) == ranges_work_sum(*calendar, ranges@.take(i as int), gs0, ge0),
            forall|m: int|
                #[trigger] map_val(acc@, m) == ranges_month_bucket(
                    *calendar,
                    ranges@.take(i as int),
                    gs0,
                    ge0,
                    m,
                ),
            forall|m: int|
                #[trigger] has_key(acc@, m) == ranges_have_month(
                    ranges@.take(i as int),
                    gs0,
                    ge0,
                    m,
                ),
            keys_distinct(acc@),
            forall|k: int| 0 <= k < acc@.len() ==> 1 <= (#[trigger] acc@[k]).0 <= 12,
            forall|k: int| 0 <= k < acc@.len() ==> 0 <= (#[trigger] acc@[k]).1,
        decreases ranges@.len() - i,
    {
        let per = ranges[i].month_hours(global_start, global_end, calendar);
        let ghost pre = ranges@.take(i as int);
        let ghost cs = ranges@[i as int].clip_since(gs0);
        let ghost ct = ranges@[i as int].clip_till(ge0);
        let ghost spans_i = month_spans(cs, ct);
        proof {
            lemma_ranges_work_sum_bounds(*calendar, pre, gs0, ge0);
            assert(ranges@.take(i as int + 1).drop_last() =~= pre);
            assert(ranges@.take(i as int + 1).last() == ranges@[i as int]);
        }
        let mut j: usize = 0;
        proof {
            assert(per@.take(0) =~= Seq::<(u32, i64)>::empty());
        }
        while j < per.len()
            invariant
                0 <= j <= per@.len(),
                gs0 == global_start as int,
                ge0 == global_end as int,
                0 <= i < ranges@.len(),
                ranges@.len() <= 1_000_000_000,
                pre == ranges@.take(i as int),
                cs == ranges@[i as int].clip_since(gs0),
                ct == ranges@[i as int].clip_till(ge0),
                spans_i == month_spans(cs, ct),
                sum_vals(per@) == work_secs(*calendar, cs, ct),
                forall|m: int| #[trigger] map_val(per@, m) == month_bucket(*calendar, spans_i, m),
                forall|m: int| #[trigger] has_key(per@, m) == spans_have_month(spans_i, m),
                forall|k: int| 0 <= k < per@.len() ==> 1 <= (#[trigger] per@[k]).0 <= 12,
                forall|k: int| 0 <= k < per@.len() ==> 0 <= (#[trigger] per@[k]).1,
                sum_vals(acc@) == ranges_work_sum(*calendar, pre, gs0, ge0) + sum_vals(
                    per@.take(j as int),
                ),
                forall|m: int|
                    #[trigger] map_val(acc@, m) == ranges_month_bucket(
                        *calendar,
                        pre,
                        gs0,
                        ge0,
                        m,
                    ) + map_val(per@.take(j as int), m),
                forall|m: int|
                    #[trigger] has_key(acc@, m) == (ranges_have_month(pre, gs0, ge0, m)
                        || has_key(per@.take(j as int), m)),
                keys_distinct(acc@),
                forall|k: int| 0 <= k < acc@.len() ==> 1 <= (#[trigger] acc@[k]).0 <= 12,
                forall|k: int| 0 <= k < acc@.len() ==> 0 <= (#[trigger] acc@[k]).1,
            decreases per@.len() - j,
        {
            let (key, amount) = per[j];
            let ghost accpre = acc@;
            let ghost jpre = per@.take(j as int);
            proof {
                lemma_ranges_work_sum_bounds(*calendar, pre, gs0, ge0);
                lemma_work_secs_bounds(*calendar, cs, ct);
                lemma_sum_vals_prefix(per@, j as int);
                lemma_sum_vals_prefix(per@, j as int + 1);
                assert(per@.take(j as int + 1).drop_last() =~= jpre);
                assert(per@.take(j as int + 1).last() == per@[j as int]);
                assert(sum_vals(per@.take(j as int + 1)) == sum_vals(jpre) + amount);
            }
            bucket_add(&mut acc, key, amount);
            proof {
                let jp = per@.take(j as int + 1);
                assert forall|m: int|
                    #[trigger] map_val(acc@, m) == ranges_month_bucket(
                        *calendar,
                        pre,
                        gs0,
                        ge0,
                        m,
                    ) + map_val(jp, m) by {
                    assert(map_val(jp, m) == map_val(jpre, m) + (if per@[j as int].0 == m {
                        per@[j as int].1 as int
                    } else {
                        0int
                    }));
                    assert(map_val(acc@, m) == map_val(accpre, m) + (if m == key {
                        amount as int
                    } else {
                        0int
                    }));
                }
                assert forall|m: int|
                    #[trigger] has_key(acc@, m) == (ranges_have_month(pre, gs0, ge0, m)
                        || has_key(jp, m)) by {
                    assert(has_key(acc@, m) == (has_key(accpre, m) || m == key));
                    if has_key(jpre, m) {
                        let w = choose|w: int|
                            0 <= w < jpre.len() && (#[trigger] jpre[w]).0 == m;
                        assert(jp[w].0 == m);
                    }
                    if m == key {
                        assert(jp[j as int].0 == m);
                    }
                    if has_key(jp, m) {
                        let w = choose|w: int| 0 <= w < jp.len() && (#[trigger] jp[w]).0 == m;
                        if w < j {
                            assert(jpre[w].0 == m);
                        }
                    }
                }
            }
            j = j + 1;
        }
        proof {
            assert(per@.take(per@.len() as int) =~= per@);
            let nxt = ranges@.take(i as int + 1);
            assert(nxt.drop_last() =~= pre);
            assert(nxt.last() == ranges@[i as int]);
            assert(sum_vals(acc@) == ranges_work_sum(*calendar, nxt, gs0, ge0));
            assert forall|m: int|
                #[trigger] map_val(acc@, m) == ranges_month_bucket(
                    *calendar,
                    nxt,
                    gs0,
                    ge0,
                    m,
                ) by {
                assert(ranges_month_bucket(*calendar, nxt, gs0, ge0, m) == ranges_month_bucket(
                    *calendar,
                    pre,
                    gs0,
                    ge0,
                    m,
                ) + month_bucket(*calendar, spans_i, m));
            }
            assert forall|m: int|
                #[trigger] has_key(acc@, m) == ranges_have_month(nxt, gs0, ge0, m) by {
                if ranges_have_month(pre, gs0, ge0, m) {
                    let w = choose|w: int|
                        0 <= w < pre.len() && spans_have_month(
                            month_spans(
                                (#[trigger] pre[w]).clip_since(gs0),
                                pre[w].clip_till(ge0),
                            ),
                            m,
                        );
                    assert(nxt[w] == pre[w]);
                    assert(spans_have_month(
                        month_spans(nxt[w].clip_since(gs0), nxt[w].clip_till(ge0)),
                        m,
                    ));
                }
                if spans_have_month(spans_i, m) {
                    assert(nxt[i as int] == ranges@[i as int]);
                    assert(spans_have_month(
                        month_spans(nxt[i as int].clip_since(gs0), nxt[i as int].clip_till(ge0)),
                        m,
                    ));
                }
                if ranges_have_month(nxt, gs0, ge0, m) {
                    let w = choose|w: int|
                        0 <= w < nxt.len() && spans_have_month(
                            month_spans(
                                (#[trigger] nxt[w]).clip_since(gs0),
                                nxt[w].clip_till(ge0),
                            ),
                            m,
                        );
                    if w < i {
                        assert(pre[w] == nxt[w]);
                        assert(spans_have_month(
                            month_spans(pre[w].clip_since(gs0), pre[w].clip_till(ge0)),
                            m,
                        ));
                    }
                }
            }
        }
        i = i + 1;
    }
    proof {
        assert(ranges@.take(ranges@.len() as int) =~= ranges@);
    }
    acc
}

/// The per-month worked seconds of the intervals under the report
/// bounds, resolved as in `working_houres_from_ranges`.
pub fn month_hours(
    ranges: &Vec<crate::ranges::TimeRange>,
    global_start: Option<i64>,
    global_end: Option<i64>,
    calendar: &CalendarCombination,
) -> (r: Vec<(u32, i64)>)
    requires
        ranges@.len() <= 1_000_000_000,
    ensures
        exists|now_ts: int|
            month_map_matches(
                r@,
                *calendar,
                ranges@,
                resolved_start(global_start),
                #[trigger] resolved_end(global_end, now_ts),
            ),
{
    let now_ts = crate::clock::now_timestamp();
    let gs = match global_start {
        Some(s) => s,
        None => DEFAULT_REPORT_START,
    };
    let ge = match global_end {
        Some(e) => if e < now_ts {
            e
        } else {
            now_ts
        },
        None => now_ts,
    };
    let r = month_hours_bounded(ranges, gs, ge, calendar);
    proof {
        assert(gs as int == resolved_start(global_start));
        assert(ge as int == resolved_end(global_end, now_ts as int));
    }
    r
}

/// The linear month index of an instant's calendar month: twelve per
/// year plus the month, so consecutive months differ by one across year
/// ends too.
pub open spec fn ym_of_instant(ts: int) -> int {
    let t = ymd_of_day(day_of(ts));
    t.0 * 12 + (t.1 - 1)
}

/// The calendar months from the first instant's month (inclusive) to the
/// second's (exclusive), as month-of-year numbers in order; empty when
/// the second month does not come later.
pub fn month_range(since: i64, till: i64) -> (r: Vec<u32>)
    ensures
        ({
            let a = ym_of_instant(since as int);
            let b = ym_of_instant(till as int);
            &&& b > a ==> r@.len() == b - a && (forall|k: int|
                0 <= k < r@.len() ==> #[trigger] r@[k] == ((a + k) % 12) + 1)
            &&& b <= a ==> r@.len() == 0
        }),
{
    let (sd, _) = split_instant(since);
    let (ys, ms, dds) = ymd_from_day(sd);
    let (td, _) = split_instant(till);
    let (yt, mt, ddt) = ymd_from_day(td);
    proof {
        lemma_ymd_of_day(sd as int);
        let ts0 = ymd_of_day(sd as int);
        lemma_ymd_unique(ts0.0, ts0.1, ts0.2, ys as int, ms as int, dds as int);
        lemma_ymd_of_day(td as int);
        let tt0 = ymd_of_day(td as int);
        lemma_ymd_unique(tt0.0, tt0.1, tt0.2, yt as int, mt as int, ddt as int);
    }
    let a: i64 = ys * 12 + (ms as i64 - 1);
    let b: i64 = yt * 12 + (mt as i64 - 1);
    let ghost a0 = ym_of_instant(since as int);
    let ghost b0 = ym_of_instant(till as int);
    proof {
        assert(a == a0 && b == b0);
    }
    let mut r: Vec<u32> = Vec::new();
    let mut cur: i64 = a;
    while cur < b
        invariant
            a0 == a && b0 == b,
            0 < a <= cur,
            cur <= b || cur == a,
            b <= 30_000,
            r@.len() == cur - a,
            forall|k: int| 0 <= k < r@.len() ==> #[trigger] r@[k] == ((a + k) % 12) + 1,
        decreases b - cur,
    {
        let mth: u32 = ((cur as u64 % 12) as u32) + 1;
        proof {
            assert(cur as u64 == cur);
            assert((cur as u64 % 12) as int == cur as int % 12);
        }
        r.push(mth);
        cur = cur + 1;
    }
    r
}

/// The least and greatest month keys of a month map — the report's
/// displayed month range, which collapses to a single month when only
/// one month has activity; nothing for an empty map.
pub fn month_key_span(map: &Vec<(u32, i64)>) -> (r: Option<(u32, u32)>)
    ensures
        (r is None) <==> map@.len() == 0,
        r is Some ==> ({
            let lohi = r->0;
            has_key(map@, lohi.0 as int) && has_key(map@, lohi.1 as int) && (forall|k: int|
                0 <= k < map@.len() ==> lohi.0 <= (#[trigger] map@[k]).0 <= lohi.1)
        }),
{
    if map.len() == 0 {
        return None;
    }
    let mut lo: u32 = map[0].0;
    let mut hi: u32 = map[0].0;
    let mut i: usize = 1;
    while i < map.len()
        invariant
            1 <= i <= map@.len(),
            map@.len() > 0,
            has_key(map@, lo as int),
            has_key(map@, hi as int),
            forall|k: int| 0 <= k < i ==> lo <= (#[trigger] map@[k]).0 <= hi,
        decreases map@.len() - i,
    {
        let k = map[i].0;
        if k < lo {
            lo = k;
        }
        if k > hi {
            hi = k;
        }
        i = i + 1;
    }
    Some((lo, hi))
}

} // verus!
