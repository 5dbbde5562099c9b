use nettu_scheduler::calendar_math::{civil_from_days, days_from_civil, is_leap_year, weekday};
use nettu_scheduler::errors::CoreError;
use nettu_scheduler::instant::DAY_MS;
use nettu_scheduler::recurrence::{evaluate, Frequency, RecurrenceRule};

fn rule(freq: Frequency) -> RecurrenceRule {
    RecurrenceRule {
        freq,
        interval: 1,
        count: None,
        until: None,
        by_weekday: Vec::new(),
        by_month_day: Vec::new(),
        wkst: 0,
    }
}

const HOUR: i64 = 3_600_000;

#[test]
fn civil_date_roundtrips() {
    assert_eq!(civil_from_days(0), (1970, 1, 1));
    assert_eq!(civil_from_days(30), (1970, 1, 31));
    assert_eq!(civil_from_days(59), (1970, 3, 1));
    assert_eq!(days_from_civil(1970, 1, 1), 0);
    assert_eq!(days_from_civil(2021, 1, 1), 18628);
    for z in [0i64, 1, 30, 59, 365, 789, 18628, 2_932_896] {
        let (y, m, d) = civil_from_days(z);
        assert_eq!(days_from_civil(y, m, d), z);
    }
}

#[test]
fn weekday_of_epoch_is_thursday() {
    // 1970-01-01 was a Thursday; 0 = Monday.
    assert_eq!(weekday(0), 3);
    assert_eq!(weekday(4), 0);
    assert_eq!(weekday(10), 6);
}

#[test]
fn leap_years() {
    assert!(is_leap_year(1972));
    assert!(is_leap_year(2000));
    assert!(!is_leap_year(1970));
    assert!(!is_leap_year(1900));
}

#[test]
fn daily_rule_yields_each_day_in_window() {
    let base: i64 = 9 * HOUR;
    let r = rule(Frequency::Daily);
    let occs = evaluate(base, &r, 0, 4 * DAY_MS).unwrap();
    assert_eq!(occs, vec![base, base + DAY_MS, base + 2 * DAY_MS, base + 3 * DAY_MS]);
}

#[test]
fn weekly_interval_two_lands_on_alternate_weeks() {
    // Anchor: Monday 1970-01-05 at 09:00, window of six weeks: occurrences
    // land on weeks 0, 2 and 4 only, each at the anchor's time of day.
    let base: i64 = 4 * DAY_MS + 9 * HOUR;
    let mut r = rule(Frequency::Weekly);
    r.interval = 2;
    let occs = evaluate(base, &r, base, base + 42 * DAY_MS).unwrap();
    assert_eq!(occs, vec![base, base + 14 * DAY_MS, base + 28 * DAY_MS]);
}

#[test]
fn weekly_by_weekday_selects_days_inside_each_week() {
    // Anchor Monday 1970-01-05 09:00; Wednesdays (2) and Fridays (4) of two
    // weeks.
    let base: i64 = 4 * DAY_MS + 9 * HOUR;
    let mut r = rule(Frequency::Weekly);
    r.by_weekday = vec![2, 4];
    let occs = evaluate(base, &r, base, base + 14 * DAY_MS).unwrap();
    assert_eq!(
        occs,
        vec![
            6 * DAY_MS + 9 * HOUR,
            8 * DAY_MS + 9 * HOUR,
            13 * DAY_MS + 9 * HOUR,
            15 * DAY_MS + 9 * HOUR,
        ]
    );
}

#[test]
fn monthly_day_31_skips_short_months() {
    // Anchor 1970-01-31 at 09:00, window spanning February: February is
    // skipped entirely, nothing is clamped onto Feb 28.
    let base: i64 = 30 * DAY_MS + 9 * HOUR;
    let r = rule(Frequency::Monthly);
    let occs = evaluate(base, &r, base, base + 90 * DAY_MS).unwrap();
    assert_eq!(occs, vec![base, 89 * DAY_MS + 9 * HOUR]);
    // day 89 is 1970-03-31
    assert_eq!(civil_from_days(89), (1970, 3, 31));
}

#[test]
fn monthly_by_month_day_selects_days() {
    let base: i64 = 4 * DAY_MS + 9 * HOUR;
    let mut r = rule(Frequency::Monthly);
    r.by_month_day = vec![10, 20];
    let occs = evaluate(base, &r, base, base + 60 * DAY_MS).unwrap();
    assert_eq!(
        occs,
        vec![
            9 * DAY_MS + 9 * HOUR,
            19 * DAY_MS + 9 * HOUR,
            40 * DAY_MS + 9 * HOUR,
            50 * DAY_MS + 9 * HOUR,
        ]
    );
}

#[test]
fn yearly_rule_on_leap_day_skips_common_years() {
    // 1972-02-29 is day 789; the next leap day is 1976-02-29, day 2250.
    let base: i64 = 789 * DAY_MS;
    let r = rule(Frequency::Yearly);
    let occs = evaluate(base, &r, base, base + 5 * 365 * DAY_MS).unwrap();
    assert_eq!(occs, vec![789 * DAY_MS, 2250 * DAY_MS]);
}

#[test]
fn count_is_a_global_index_across_window_slices() {
    // Three occurrences in all, however the windows are sliced.
    let base: i64 = 9 * HOUR;
    let mut r = rule(Frequency::Daily);
    r.count = Some(3);
    let first = evaluate(base, &r, 0, 2 * DAY_MS).unwrap();
    assert_eq!(first, vec![base, base + DAY_MS]);
    let second = evaluate(base, &r, 2 * DAY_MS, 10 * DAY_MS).unwrap();
    assert_eq!(second, vec![base + 2 * DAY_MS]);
    let third = evaluate(base, &r, 10 * DAY_MS, 40 * DAY_MS).unwrap();
    assert_eq!(third, Vec::<i64>::new());
    let whole = evaluate(base, &r, 0, 40 * DAY_MS).unwrap();
    assert_eq!(whole.len(), 3);
}

#[test]
fn until_bound_is_inclusive() {
    let base: i64 = 9 * HOUR;
    let mut r = rule(Frequency::Daily);
    r.until = Some(base + 2 * DAY_MS);
    let occs = evaluate(base, &r, 0, 30 * DAY_MS).unwrap();
    assert_eq!(occs, vec![base, base + DAY_MS, base + 2 * DAY_MS]);
}

#[test]
fn malformed_rules_are_unresolvable() {
    let mut bad = rule(Frequency::Daily);
    bad.interval = 0;
    assert_eq!(evaluate(0, &bad, 0, DAY_MS), Err(CoreError::UnresolvableRecurrence));

    let mut conflicting = rule(Frequency::Daily);
    conflicting.count = Some(2);
    conflicting.until = Some(DAY_MS);
    assert_eq!(evaluate(0, &conflicting, 0, DAY_MS), Err(CoreError::UnresolvableRecurrence));

    let mut bad_wkst = rule(Frequency::Weekly);
    bad_wkst.wkst = 9;
    assert_eq!(evaluate(0, &bad_wkst, 0, DAY_MS), Err(CoreError::UnresolvableRecurrence));
}

#[test]
fn output_is_sorted_and_inside_the_window() {
    let base: i64 = 4 * DAY_MS + 9 * HOUR;
    let mut r = rule(Frequency::Weekly);
    r.by_weekday = vec![0, 3, 6];
    let ws = base + 3 * DAY_MS;
    let we = base + 40 * DAY_MS;
    let occs = evaluate(base, &r, ws, we).unwrap();
    assert!(occs.len() > 0);
    for w in occs.windows(2) {
        assert!(w[0] < w[1]);
    }
    for t in occs {
        assert!(ws <= t && t < we);
    }
}
