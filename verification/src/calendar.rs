//! Working-day calendars.
//!
//! A calendar is a combination of rules; a day is non-working as soon as
//! any rule marks it (logical OR).  The rules are a closed set of
//! variants, extensible by adding a variant: weekends, public holidays and
//! ad-hoc vacation ranges.

use vstd::prelude::*;
use crate::dates::{
    day_of, is_weekend_day, is_public_holiday_day, split_instant, weekday, is_public_holiday,
    MIN_EPOCH_DAY, MAX_EPOCH_DAY,
};

verus! {

broadcast use vstd::seq_lib::group_filter_ensures;

/// One rule marking certain days non-working.
pub enum CalendarRule {
    /// Saturdays and Sundays.
    Weekend,
    /// The fixed and Easter-bound public holidays of `crate::dates`.
    PublicHoliday,
    /// Ad-hoc vacations, as inclusive instant ranges: a day is covered
    /// when it lies between a range's start date and end date.
    Vacations(Vec<(i64, i64)>),
}

/// Whether some vacation range covers the day.
pub open spec fn vacations_cover_day(v: Seq<(i64, i64)>, day: int) -> bool {
    exists|i: int|
        0 <= i < v.len() && day_of(#[trigger] (v[i]).0 as int) <= day <= day_of(v[i].1 as int)
}

/// Whether one rule marks the day non-working.
pub open spec fn rule_marks_day(rule: CalendarRule, day: int) -> bool {
    match rule {
        CalendarRule::Weekend => is_weekend_day(day),
        CalendarRule::PublicHoliday => is_public_holiday_day(day),
        CalendarRule::Vacations(v) => vacations_cover_day(v@, day),
    }
}

/// An OR-combination of calendar rules.
pub struct CalendarCombination {
    pub rules: Vec<CalendarRule>,
}

/// A day is non-working when any composed rule marks it.
pub open spec fn day_is_nonworking(cal: CalendarCombination, day: int) -> bool {
    exists|i: int| 0 <= i < cal.rules@.len() && rule_marks_day(cal.rules@[i], day)
}

pub open spec fn day_is_working(cal: CalendarCombination, day: int) -> bool {
    !day_is_nonworking(cal, day)
}

/// The verdict of the calendar built by `holydays_and_vacations`.
pub open spec fn standard_nonworking(vacations: Seq<(i64, i64)>, day: int) -> bool {
    is_weekend_day(day) || is_public_holiday_day(day) || vacations_cover_day(vacations, day)
}

impl CalendarCombination {
    /// The combination of the public-holiday rule, the weekend rule and
    /// the given vacation ranges.
    pub fn holydays_and_vacations(vacations: Vec<(i64, i64)>) -> (r: Self)
        ensures
            forall|day: int|
                #[trigger] day_is_nonworking(r, day) == standard_nonworking(vacations@, day),
    {
        let rules = vec![
            CalendarRule::Weekend,
            CalendarRule::PublicHoliday,
            CalendarRule::Vacations(vacations),
        ];
        let r = CalendarCombination { rules };
        proof {
            assert forall|day: int|
                #[trigger] day_is_nonworking(r, day) == standard_nonworking(vacations@, day) by {
                if is_weekend_day(day) {
                    assert(rule_marks_day(r.rules@[0], day));
                }
                if is_public_holiday_day(day) {
                    assert(rule_marks_day(r.rules@[1], day));
                }
                if vacations_cover_day(vacations@, day) {
                    assert(rule_marks_day(r.rules@[2], day));
                }
            }
        }
        r
    }

    /// Whether one rule marks the day.
    fn rule_marks(rule: &CalendarRule, day: i64) -> (r: bool)
        requires
            MIN_EPOCH_DAY <= day <= MAX_EPOCH_DAY,
        ensures
            r == rule_marks_day(*rule, day as int),
    {
        match rule {
            CalendarRule::Weekend => {
                let w = weekday(day);
                w == 0 || w == 6
            },
            CalendarRule::PublicHoliday => is_public_holiday(day),
            CalendarRule::Vacations(v) => {
                let mut i: usize = 0;
                let mut found = false;
                while i < v.len()
                    invariant
                        0 <= i <= v.len(),
                        found == exists|j: int|
                            0 <= j < i && day_of(#[trigger] (v@[j]).0 as int) <= day <= day_of(
                                v@[j].1 as int,
                            ),
                    decreases v.len() - i,
                {
                    let (s, e) = v[i];
                    let (sd, _) = split_instant(s);
                    let (ed, _) = split_instant(e);
                    if sd <= day && day <= ed {
                        found = true;
                    }
                    i = i + 1;
                }
                found
            },
        }
    }

    /// Whether the day is non-working under this calendar.
    pub fn is_holiday_day(&self, day: i64) -> (r: bool)
        requires
            MIN_EPOCH_DAY <= day <= MAX_EPOCH_DAY,
        ensures
            r == day_is_nonworking(*self, day as int),
    {
        let mut i: usize = 0;
        while i < self.rules.len()
            invariant
                0 <= i <= self.rules.len(),
                MIN_EPOCH_DAY <= day <= MAX_EPOCH_DAY,
                forall|j: int| 0 <= j < i ==> !rule_marks_day(self.rules@[j], day as int),
            decreases self.rules.len() - i,
        {
            if Self::rule_marks(&self.rules[i], day) {
                return true;
            }
            i = i + 1;
        }
        false
    }

    /// Whether the instant falls on a non-working day.
    pub fn is_holiday(&self, ts: i64) -> (r: bool)
        ensures
            r == day_is_nonworking(*self, day_of(ts as int)),
    {
        let (day, _) = split_instant(ts);
        self.is_holiday_day(day)
    }

    /// Whether the instant falls on a working day.
    pub fn is_working(&self, ts: i64) -> (r: bool)
        ensures
            r == day_is_working(*self, day_of(ts as int)),
    {
        !self.is_holiday(ts)
    }
}

/// A stored vacation: an inclusive whole-day range with an identifier, by
/// which it can be removed.
pub struct Vacation {
    pub id: i64,
    pub start: i64,
    pub end: i64,
}

/// Whether the vacation covers the day.
pub open spec fn vacation_covers(v: Vacation, day: int) -> bool {
    day_of(v.start as int) <= day <= day_of(v.end as int)
}

/// The instant ranges of a list of vacations, in order.
pub fn vacation_ranges(vacations: &Vec<Vacation>) -> (r: Vec<(i64, i64)>)
    ensures
        r@.len() == vacations@.len(),
        forall|i: int|
            0 <= i < r@.len() ==> #[trigger] r@[i] == (vacations@[i].start, vacations@[i].end),
{
    let mut r: Vec<(i64, i64)> = Vec::new();
    let mut i: usize = 0;
    while i < vacations.len()
        invariant
            0 <= i <= vacations.len(),
            r@.len() == i,
            forall|j: int|
                0 <= j < i ==> #[trigger] r@[j] == (vacations@[j].start, vacations@[j].end),
        decreases vacations.len() - i,
    {
        let v = &vacations[i];
        r.push((v.start, v.end));
        i = i + 1;
    }
    r
}

/// The vacations left after removing every vacation with the given id.
pub fn remove_vacation(vacations: &Vec<Vacation>, id: i64) -> (r: Vec<Vacation>)
    ensures
        r@ == vacations@.filter(|v: Vacation| v.id != id),
{
    let mut r: Vec<Vacation> = Vec::new();
    let mut i: usize = 0;
    proof {
        assert(vacations@.subrange(0, 0).filter(|v: Vacation| v.id != id) =~= Seq::empty());
    }
    while i < vacations.len()
        invariant
            0 <= i <= vacations.len(),
            r@ == vacations@.subrange(0, i as int).filter(|v: Vacation| v.id != id),
        decreases vacations.len() - i,
    {
        let ghost pred = |v: Vacation| v.id != id;
        let ghost pre = vacations@.subrange(0, i as int);
        let v = Vacation {
            id: vacations[i].id,
            start: vacations[i].start,
            end: vacations[i].end,
        };
        proof {
            assert(vacations@.subrange(0, i as int + 1) =~= pre + seq![vacations@[i as int]]);
            Seq::filter_distributes_over_add(pre, seq![vacations@[i as int]], pred);
            reveal_with_fuel(Seq::filter, 3);
            assert(seq![vacations@[i as int]].drop_last() =~= Seq::<Vacation>::empty());
        }
        if v.id != id {
            r.push(v);
            proof {
                assert(v == vacations@[i as int]);
                assert(seq![vacations@[i as int]].filter(pred) =~= seq![vacations@[i as int]]);
            }
        } else {
            proof {
                assert(v == vacations@[i as int]);
                assert(seq![vacations@[i as int]].filter(pred) =~= Seq::<Vacation>::empty());
            }
        }
        i = i + 1;
    }
    proof {
        assert(vacations@.subrange(0, vacations@.len() as int) =~= vacations@);
    }
    r
}

/// Every element of a filtered vacation list comes from the original list.
proof fn lemma_filter_is_subset(s: Seq<Vacation>, pred: spec_fn(Vacation) -> bool)
    ensures
        forall|x: Vacation| #[trigger] s.filter(pred).contains(x) ==> s.contains(x),
    decreases s.len(),
{
    reveal(Seq::filter);
    if s.len() > 0 {
        lemma_filter_is_subset(s.drop_last(), pred);
        assert forall|x: Vacation| #[trigger] s.filter(pred).contains(x) implies s.contains(x) by {
            let f = s.filter(pred);
            let k = choose|k: int| 0 <= k < f.len() && f[k] == x;
            if pred(s.last()) && k == f.len() - 1 {
                assert(s[s.len() - 1] == x);
            } else {
                assert(s.drop_last().filter(pred)[k] == x);
                assert(s.drop_last().filter(pred).contains(x));
                let j = choose|j: int|
                    0 <= j < s.drop_last().len() && s.drop_last()[j] == x;
                assert(s[j] == x);
            }
        }
    }
}

/// Removing a vacation by id restores the days it covered: a day not
/// otherwise non-working, all of whose covering vacations carry the
/// removed id, is a working day under the calendar rebuilt from the
/// remaining vacations.
pub proof fn lemma_remove_vacation_restores_day(
    vacations: Seq<Vacation>,
    id: i64,
    day: int,
)
    requires
        !is_weekend_day(day),
        !is_public_holiday_day(day),
        forall|i: int|
            0 <= i < vacations.len() && #[trigger] vacation_covers(vacations[i], day)
                ==> vacations[i].id == id,
    ensures
        !standard_nonworking(
            vacations.filter(|v: Vacation| v.id != id).map_values(|v: Vacation| (v.start, v.end)),
            day,
        ),
{
    let kept = vacations.filter(|v: Vacation| v.id != id);
    let ranges = kept.map_values(|v: Vacation| (v.start, v.end));
    if vacations_cover_day(ranges, day) {
        let i = choose|i: int|
            0 <= i < ranges.len() && day_of(#[trigger] (ranges[i]).0 as int) <= day <= day_of(
                ranges[i].1 as int,
            );
        assert(ranges[i] == (kept[i].start, kept[i].end));
        assert(vacation_covers(kept[i], day));
        lemma_filter_is_subset(vacations, |v: Vacation| v.id != id);
        assert(kept.contains(kept[i]));
        assert(vacations.contains(kept[i]));
        let j = choose|j: int| 0 <= j < vacations.len() && vacations[j] == kept[i];
        assert(vacation_covers(vacations[j], day));
        assert((|v: Vacation| v.id != id)(kept[i]));
        assert(false);
    }
}

} // verus!
