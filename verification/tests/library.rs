use tasktrack::calendar::{CalendarCombination, CalendarRule, Vacation};
use tasktrack::calendar::{remove_vacation, vacation_ranges};
use tasktrack::dates::{day_from_ymd_exec, weekday, is_public_holiday, easter_day};
use tasktrack::dates::{NANOS_PER_DAY, NANOS_PER_SEC};
use tasktrack::hours::count_work_houres;
use tasktrack::months::{
    month_hours, month_hours_bounded, month_key_span, month_range, total_work_secs,
    working_houres_from_ranges,
};
use tasktrack::ranges::{reconstruct, Event, EventKind, TimeRange};
use tasktrack::tasks::EditArgs;
use tasktrack::tracker::{activate, active_task_id, ActivationStatus};
use tasktrack::clock::now_timestamp;

fn day(y: i64, m: u8, d: u8) -> i64 {
    day_from_ymd_exec(y, m, d)
}

fn ts(y: i64, m: u8, d: u8, h: i64, mi: i64, s: i64) -> i64 {
    day(y, m, d) * NANOS_PER_DAY + (h * 3600 + mi * 60 + s) * NANOS_PER_SEC
}

fn hours(secs: i64) -> f64 {
    secs as f64 / 3600.0
}

fn weekends_only() -> CalendarCombination {
    CalendarCombination { rules: vec![CalendarRule::Weekend] }
}

fn full_calendar(vacations: Vec<(i64, i64)>) -> CalendarCombination {
    CalendarCombination::holydays_and_vacations(vacations)
}

#[test]
fn count_work_houres_test() {
    let calendar = weekends_only();
    // Anchor at 08:00 of this week's Monday, so that the following days
    // are working days whatever today is.
    let today = now_timestamp().div_euclid(NANOS_PER_DAY);
    let monday = today - (weekday(today) + 6) % 7;
    let now = monday * NANOS_PER_DAY + 8 * 3600 * NANOS_PER_SEC;
    let one_hour = 3600 * NANOS_PER_SEC;
    let one_day = NANOS_PER_DAY;
    let saturday = now + 5 * one_day;
    assert_eq!(
        hours(count_work_houres(saturday, saturday + one_hour, &calendar)),
        0.0
    );
    assert_eq!(hours(count_work_houres(now, now + one_hour, &calendar)), 1.0);
    let tomorrow = now + one_day;
    assert_eq!(hours(count_work_houres(now, tomorrow, &calendar)), 8.0);
    assert_eq!(
        hours(count_work_houres(now, tomorrow + 2 * one_hour, &calendar)),
        10.0
    );
    assert_eq!(
        hours(count_work_houres(now, tomorrow + one_day + 2 * one_hour, &calendar)),
        18.0
    );
    assert_eq!(
        hours(count_work_houres(now, tomorrow + 2 * one_day + 2 * one_hour, &calendar)),
        26.0
    );
}

#[test]
fn work_hours_same_instant_is_zero() {
    let calendar = full_calendar(vec![]);
    let t = ts(2024, 3, 4, 10, 30, 15);
    assert_eq!(count_work_houres(t, t, &calendar), 0);
    let weekend_t = ts(2024, 3, 9, 12, 0, 0);
    assert_eq!(count_work_houres(weekend_t, weekend_t, &calendar), 0);
}

#[test]
fn work_hours_backwards_span_is_zero() {
    let calendar = weekends_only();
    let a = ts(2024, 3, 4, 9, 0, 0);
    let b = ts(2024, 3, 6, 9, 0, 0);
    assert_eq!(count_work_houres(b, a, &calendar), 0);
}

#[test]
fn work_hours_full_window_is_eight() {
    // 2024-03-04 is a Monday and no public holiday.
    let calendar = full_calendar(vec![]);
    let since = ts(2024, 3, 4, 9, 0, 0);
    let till = ts(2024, 3, 4, 17, 0, 0);
    assert_eq!(hours(count_work_houres(since, till, &calendar)), 8.0);
}

#[test]
fn work_hours_weekend_gap() {
    // 2024-03-08 is a Friday; the following Monday is 2024-03-11.
    let calendar = weekends_only();
    let since = ts(2024, 3, 8, 16, 0, 0);
    let till = ts(2024, 3, 11, 9, 0, 0);
    assert_eq!(hours(count_work_houres(since, till, &calendar)), 2.0);
}

#[test]
fn weekend_holiday_counts_once() {
    // 2022-01-01, New Year, was a Saturday: weekend and public holiday at
    // once, still exactly one non-working day.
    let calendar = full_calendar(vec![]);
    let since = ts(2021, 12, 31, 16, 0, 0);
    let till = ts(2022, 1, 3, 9, 0, 0);
    assert_eq!(hours(count_work_houres(since, till, &calendar)), 2.0);
}

#[test]
fn fractional_minutes_and_seconds() {
    let calendar = weekends_only();
    let since = ts(2024, 3, 4, 9, 0, 0);
    let till = ts(2024, 3, 4, 9, 30, 0);
    assert_eq!(hours(count_work_houres(since, till, &calendar)), 0.5);
    let till2 = ts(2024, 3, 4, 9, 0, 36);
    assert_eq!(hours(count_work_houres(since, till2, &calendar)), 0.01);
}

#[test]
fn times_clamped_into_window() {
    let calendar = weekends_only();
    // 06:00 counts as 08:00, 20:00 counts as 17:00; the full window is
    // the eight-hour working day.
    let since = ts(2024, 3, 4, 6, 0, 0);
    let till = ts(2024, 3, 4, 20, 0, 0);
    assert_eq!(hours(count_work_houres(since, till, &calendar)), 8.0);
}

#[test]
fn public_holidays_fixed_dates() {
    assert!(is_public_holiday(day(2024, 1, 1)));
    assert!(is_public_holiday(day(2024, 5, 1)));
    assert!(is_public_holiday(day(2024, 5, 9)));
    assert!(is_public_holiday(day(2024, 6, 23)));
    assert!(is_public_holiday(day(2024, 8, 15)));
    assert!(is_public_holiday(day(2024, 11, 1)));
    assert!(is_public_holiday(day(2024, 12, 25)));
    assert!(is_public_holiday(day(2024, 12, 26)));
    assert!(!is_public_holiday(day(2024, 3, 4)));
}

#[test]
fn public_holidays_easter_bound() {
    // Easter Sunday 2024 fell on March 31.
    assert_eq!(easter_day(2024), day(2024, 3, 31));
    // Easter Monday, Ascension and Whit Monday 2022: April 18, May 26,
    // June 6 (Easter Sunday was April 17).
    assert_eq!(easter_day(2022), day(2022, 4, 17));
    assert!(is_public_holiday(day(2022, 4, 18)));
    assert!(is_public_holiday(day(2022, 5, 26)));
    assert!(is_public_holiday(day(2022, 6, 6)));
    assert!(!is_public_holiday(day(2022, 4, 19)));
}

#[test]
fn weekday_of_known_dates() {
    // 2024-03-04 was a Monday, 1970-01-01 a Thursday.
    assert_eq!(weekday(day(2024, 3, 4)), 1);
    assert_eq!(weekday(day(1970, 1, 1)), 4);
    assert_eq!(weekday(day(2024, 3, 9)), 6);
    assert_eq!(weekday(day(2024, 3, 10)), 0);
}

#[test]
fn vacation_days_are_nonworking() {
    let vac_start = ts(2024, 3, 5, 0, 0, 0);
    let vac_end = ts(2024, 3, 6, 23, 59, 59);
    let calendar = full_calendar(vec![(vac_start, vac_end)]);
    assert!(calendar.is_holiday(ts(2024, 3, 5, 10, 0, 0)));
    assert!(calendar.is_holiday(ts(2024, 3, 6, 10, 0, 0)));
    assert!(calendar.is_working(ts(2024, 3, 7, 10, 0, 0)));
    // Monday to Friday of that week: the two vacation days drop out.
    let since = ts(2024, 3, 4, 8, 0, 0);
    let till = ts(2024, 3, 8, 17, 0, 0);
    assert_eq!(hours(count_work_houres(since, till, &calendar)), 24.0);
}

#[test]
fn removing_vacation_restores_working_days() {
    let vacations = vec![
        Vacation { id: 1, start: ts(2024, 3, 5, 0, 0, 0), end: ts(2024, 3, 6, 23, 59, 59) },
        Vacation { id: 2, start: ts(2024, 3, 20, 0, 0, 0), end: ts(2024, 3, 20, 23, 59, 59) },
    ];
    let before = full_calendar(vacation_ranges(&vacations));
    let probe = ts(2024, 3, 5, 10, 0, 0);
    assert!(!before.is_working(probe));
    let remaining = remove_vacation(&vacations, 1);
    assert_eq!(remaining.len(), 1);
    assert_eq!(remaining[0].id, 2);
    let after = full_calendar(vacation_ranges(&remaining));
    assert!(after.is_working(probe));
    assert!(!after.is_working(ts(2024, 3, 20, 10, 0, 0)));
}

#[test]
fn reconstruct_start_stop_pairs() {
    let events = vec![
        Event { task_id: "A".to_string(), timestamp: 100, kind: EventKind::Start },
        Event { task_id: "A".to_string(), timestamp: 200, kind: EventKind::Stop },
        Event { task_id: "B".to_string(), timestamp: 300, kind: EventKind::Start },
        Event { task_id: "A".to_string(), timestamp: 400, kind: EventKind::Start },
    ];
    let tasks = reconstruct(&events);
    assert_eq!(tasks.len(), 2);
    assert_eq!(tasks[0].0, "A");
    assert_eq!(tasks[0].1.len(), 2);
    assert_eq!(tasks[0].1[0].start, Some(100));
    assert_eq!(tasks[0].1[0].end, Some(200));
    assert_eq!(tasks[0].1[1].start, Some(400));
    assert_eq!(tasks[0].1[1].end, None);
    assert_eq!(tasks[1].0, "B");
    assert_eq!(tasks[1].1.len(), 1);
    assert_eq!(tasks[1].1[0].start, Some(300));
    assert_eq!(tasks[1].1[0].end, None);
}

#[test]
fn reconstruct_unmatched_stop_is_degenerate() {
    let events = vec![
        Event { task_id: "A".to_string(), timestamp: 500, kind: EventKind::Stop },
        Event { task_id: "A".to_string(), timestamp: 600, kind: EventKind::Stop },
    ];
    let tasks = reconstruct(&events);
    assert_eq!(tasks.len(), 1);
    assert_eq!(tasks[0].1.len(), 2);
    assert_eq!(tasks[0].1[0].start, None);
    assert_eq!(tasks[0].1[0].end, Some(500));
    assert_eq!(tasks[0].1[1].start, None);
    assert_eq!(tasks[0].1[1].end, Some(600));
}

#[test]
fn reconstruct_empty_input() {
    let tasks = reconstruct(&vec![]);
    assert_eq!(tasks.len(), 0);
}

#[test]
fn scenario_one_monday_interval() {
    // Start and stop on Monday 2024-03-04, two worked hours in March.
    let events = vec![
        Event { task_id: "A".to_string(), timestamp: ts(2024, 3, 4, 10, 0, 0), kind: EventKind::Start },
        Event { task_id: "A".to_string(), timestamp: ts(2024, 3, 4, 12, 0, 0), kind: EventKind::Stop },
    ];
    let tasks = reconstruct(&events);
    assert_eq!(tasks.len(), 1);
    assert_eq!(tasks[0].0, "A");
    let calendar = full_calendar(vec![]);
    let since = ts(2024, 3, 1, 0, 0, 0);
    let till = ts(2024, 3, 31, 23, 59, 59);
    let total = total_work_secs(&tasks[0].1, since, till, &calendar);
    assert_eq!(hours(total), 2.0);
    let by_month = month_hours_bounded(&tasks[0].1, since, till, &calendar);
    assert_eq!(month_key_span(&by_month), Some((3, 3)));
}

#[test]
fn month_hours_sum_equals_total() {
    // One interval across February, March and April 2024.
    let ranges = vec![TimeRange {
        start: Some(ts(2024, 2, 20, 10, 0, 0)),
        end: Some(ts(2024, 4, 10, 15, 30, 0)),
    }];
    let calendar = full_calendar(vec![]);
    let gs = ts(2024, 1, 1, 0, 0, 0);
    let ge = ts(2024, 12, 31, 23, 59, 59);
    let total = total_work_secs(&ranges, gs, ge, &calendar);
    let by_month = month_hours_bounded(&ranges, gs, ge, &calendar);
    assert_eq!(by_month.len(), 3);
    let sum: i64 = by_month.iter().map(|e| e.1).sum();
    assert_eq!(sum, total);
    assert_eq!(month_key_span(&by_month), Some((2, 4)));
}

#[test]
fn month_hours_open_interval_clipped() {
    // An interval still open is clipped to the report end.
    let ranges = vec![TimeRange { start: Some(ts(2024, 3, 4, 9, 0, 0)), end: None }];
    let calendar = weekends_only();
    let gs = ts(2024, 3, 1, 0, 0, 0);
    let ge = ts(2024, 3, 4, 12, 0, 0);
    let total = total_work_secs(&ranges, gs, ge, &calendar);
    assert_eq!(hours(total), 3.0);
}

#[test]
fn month_range_lists_months() {
    let since = ts(2024, 3, 10, 0, 0, 0);
    let till = ts(2024, 5, 2, 0, 0, 0);
    assert_eq!(month_range(since, till), vec![3, 4]);
    assert_eq!(month_range(till, since), Vec::<u32>::new());
    assert_eq!(month_range(since, since), Vec::<u32>::new());
    // across a year end
    let nov = ts(2023, 11, 20, 0, 0, 0);
    let feb = ts(2024, 2, 1, 0, 0, 0);
    assert_eq!(month_range(nov, feb), vec![11, 12, 1]);
}

#[test]
fn month_key_span_empty() {
    assert_eq!(month_key_span(&Vec::new()), None);
}

#[test]
fn optional_bounds_match_explicit_bounds() {
    // With both bounds given and in the past, the convenience entry
    // points agree with the explicitly bounded ones.
    let ranges = vec![TimeRange {
        start: Some(ts(2024, 3, 4, 9, 0, 0)),
        end: Some(ts(2024, 3, 5, 12, 0, 0)),
    }];
    let calendar = weekends_only();
    let gs = ts(2024, 3, 1, 0, 0, 0);
    let ge = ts(2024, 3, 31, 23, 59, 59);
    let total = total_work_secs(&ranges, gs, ge, &calendar);
    assert_eq!(
        working_houres_from_ranges(&ranges, Some(gs), Some(ge), &calendar),
        total
    );
    assert_eq!(hours(total), 12.0);
    let by_month = month_hours(&ranges, Some(gs), Some(ge), &calendar);
    assert_eq!(by_month, month_hours_bounded(&ranges, gs, ge, &calendar));
}

#[test]
fn activate_from_idle() {
    let (transition, status) = activate(None, "A".to_string(), 1000);
    assert!(matches!(status, ActivationStatus::Activated));
    assert!(transition.stop.is_none());
    let start = transition.start.expect("a start event");
    assert_eq!(start.task_id, "A");
    assert_eq!(start.timestamp, 1000);
    assert!(matches!(start.kind, EventKind::Start));
}

#[test]
fn activate_twice_is_idempotent() {
    let (first, status) = activate(None, "A".to_string(), 1000);
    assert!(matches!(status, ActivationStatus::Activated));
    let now_active = active_task_id(&first.start);
    assert_eq!(now_active, Some("A".to_string()));
    let (second, status2) = activate(now_active, "A".to_string(), 2000);
    assert!(matches!(status2, ActivationStatus::AlreadyActive));
    assert!(second.start.is_none());
    assert!(second.stop.is_none());
}

#[test]
fn activate_over_other_deactivates() {
    let (transition, status) = activate(Some("A".to_string()), "B".to_string(), 3000);
    match status {
        ActivationStatus::Deactivated(old) => assert_eq!(old, "A"),
        _ => panic!("expected a deactivation"),
    }
    let stop = transition.stop.expect("a stop event");
    assert_eq!(stop.task_id, "A");
    assert_eq!(stop.timestamp, 3000);
    assert!(matches!(stop.kind, EventKind::Stop));
    let start = transition.start.expect("a start event");
    assert_eq!(start.task_id, "B");
    assert_eq!(start.timestamp, 3000);
}

#[test]
fn active_item_needs_latest_start() {
    let stop_event = Some(Event { task_id: "A".to_string(), timestamp: 7, kind: EventKind::Stop });
    assert_eq!(active_task_id(&stop_event), None);
    assert_eq!(active_task_id(&None), None);
    let start_event = Some(Event { task_id: "B".to_string(), timestamp: 9, kind: EventKind::Start });
    assert_eq!(active_task_id(&start_event), Some("B".to_string()));
}

#[test]
fn edit_update_detection() {
    let no_change = EditArgs {
        task_id: "A".to_string(),
        url: None,
        drop_url: false,
        title: None,
        drop_title: false,
        workpackage: None,
        drop_workpackage: false,
        objective: None,
        drop_objective: false,
    };
    assert!(!no_change.has_updates());
    let set_title = EditArgs {
        task_id: "A".to_string(),
        url: None,
        drop_url: false,
        title: Some("t".to_string()),
        drop_title: false,
        workpackage: None,
        drop_workpackage: false,
        objective: None,
        drop_objective: false,
    };
    assert!(set_title.has_updates());
    let drop_url = EditArgs {
        task_id: "A".to_string(),
        url: None,
        drop_url: true,
        title: None,
        drop_title: false,
        workpackage: None,
        drop_workpackage: false,
        objective: None,
        drop_objective: false,
    };
    assert!(drop_url.has_updates());
}

#[test]
fn clock_reads_a_modern_instant() {
    // Well after 2022-01-01 and within the representable range.
    let now = now_timestamp();
    assert!(now > 1_640_995_200_000_000_000);
}
