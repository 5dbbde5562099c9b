use nettu_scheduler::event::{CalendarEvent, CalendarView};
use nettu_scheduler::freebusy::{
    busy_for_events, compute_busy, merge_busy, BusyInterval, BusySource,
};
use nettu_scheduler::instant::DAY_MS;
use nettu_scheduler::recurrence::{Frequency, RecurrenceRule};

fn iv(start: i64, end: i64) -> BusyInterval {
    BusyInterval { start, end }
}

#[test]
fn merge_coalesces_overlap_and_touch() {
    // Overlapping and touching intervals over one calendar fuse into one.
    let merged = merge_busy(&vec![iv(10, 20), iv(15, 25), iv(25, 30)]);
    assert_eq!(merged, vec![iv(10, 30)]);
}

#[test]
fn merge_keeps_real_gaps() {
    let merged = merge_busy(&vec![iv(40, 50), iv(10, 20), iv(18, 25), iv(60, 61)]);
    assert_eq!(merged, vec![iv(10, 25), iv(40, 50), iv(60, 61)]);
}

#[test]
fn merge_of_nothing_is_nothing() {
    assert_eq!(merge_busy(&Vec::new()), Vec::<BusyInterval>::new());
}

#[test]
fn merge_handles_contained_intervals() {
    let merged = merge_busy(&vec![iv(10, 100), iv(20, 30), iv(40, 50)]);
    assert_eq!(merged, vec![iv(10, 100)]);
}

fn event(start_ts: i64, duration: i64, recurrence: Option<RecurrenceRule>) -> CalendarEvent {
    CalendarEvent {
        id: "event-1".to_string(),
        user_id: "user-1".to_string(),
        calendar_id: "cal-1".to_string(),
        account_id: "acct-1".to_string(),
        start_ts,
        duration,
        recurrence,
        exceptions: Vec::new(),
        reminders: Vec::new(),
    }
}

#[test]
fn busy_for_zero_events_is_empty_not_an_error() {
    let view = CalendarView::create(0, DAY_MS).unwrap();
    assert_eq!(busy_for_events(&Vec::new(), &view), Vec::<BusyInterval>::new());
}

#[test]
fn busy_for_events_merges_across_events() {
    let view = CalendarView::create(0, DAY_MS).unwrap();
    let a = event(10, 10, None);
    let b = event(15, 10, None);
    let c = event(25, 5, None);
    let busy = busy_for_events(&vec![a, b, c], &view);
    assert_eq!(busy, vec![iv(10, 30)]);
}

#[test]
fn compute_busy_reports_per_calendar_and_fails_closed() {
    let view = CalendarView::create(0, 7 * DAY_MS).unwrap();
    let rule = RecurrenceRule {
        freq: Frequency::Daily,
        interval: 1,
        count: Some(2),
        until: None,
        by_weekday: Vec::new(),
        by_month_day: Vec::new(),
        wkst: 0,
    };
    let calendars = vec![
        ("local".to_string(), BusySource::Local(vec![event(0, 3_600_000, Some(rule))])),
        (
            "synced".to_string(),
            BusySource::Synced(Some(vec![iv(100, 200), iv(150, 400)])),
        ),
        ("down".to_string(), BusySource::Synced(None)),
    ];
    let reports = compute_busy(&calendars, &view);
    assert_eq!(reports.len(), 3);

    assert_eq!(reports[0].calendar_id, "local");
    assert!(reports[0].available);
    assert_eq!(reports[0].intervals, vec![iv(0, 3_600_000), iv(DAY_MS, DAY_MS + 3_600_000)]);

    assert_eq!(reports[1].calendar_id, "synced");
    assert!(reports[1].available);
    assert_eq!(reports[1].intervals, vec![iv(100, 400)]);

    assert_eq!(reports[2].calendar_id, "down");
    assert!(!reports[2].available);
    assert_eq!(reports[2].intervals, Vec::<BusyInterval>::new());
}
