use nettu_scheduler::calendar::Calendar;
use nettu_scheduler::errors::CoreError;
use nettu_scheduler::event::{
    CalendarEvent, CalendarView, EventInstance, ExceptionOverride, OverrideAction,
};
use nettu_scheduler::get_calendar_events::{GetCalendarEventsUseCase, UseCaseErrors};
use nettu_scheduler::instant::DAY_MS;
use nettu_scheduler::recurrence::{Frequency, RecurrenceRule};

const HOUR: i64 = 3_600_000;

fn plain_event(start_ts: i64, duration: i64) -> CalendarEvent {
    CalendarEvent {
        id: "event-1".to_string(),
        user_id: "user-1".to_string(),
        calendar_id: "cal-1".to_string(),
        account_id: "acct-1".to_string(),
        start_ts,
        duration,
        recurrence: None,
        exceptions: Vec::new(),
        reminders: Vec::new(),
    }
}

fn daily(start_ts: i64, duration: i64) -> CalendarEvent {
    let mut e = plain_event(start_ts, duration);
    e.recurrence = Some(RecurrenceRule {
        freq: Frequency::Daily,
        interval: 1,
        count: None,
        until: None,
        by_weekday: Vec::new(),
        by_month_day: Vec::new(),
        wkst: 0,
    });
    e
}

#[test]
fn view_rejects_inverted_and_empty_ranges() {
    assert!(CalendarView::create(10, 20).is_ok());
    assert_eq!(CalendarView::create(20, 20).unwrap_err(), CoreError::InvalidWindow);
    assert_eq!(CalendarView::create(30, 20).unwrap_err(), CoreError::InvalidWindow);
}

#[test]
fn non_recurring_event_expands_to_itself_when_intersecting() {
    let view = CalendarView::create(0, DAY_MS).unwrap();
    let e = plain_event(9 * HOUR, HOUR);
    let insts = e.expand(&view).unwrap();
    assert_eq!(insts, vec![EventInstance { start_ts: 9 * HOUR, end_ts: 10 * HOUR }]);

    let outside = plain_event(2 * DAY_MS, HOUR);
    assert_eq!(outside.expand(&view).unwrap(), Vec::<EventInstance>::new());

    // Touching the window edge only does not intersect a half-open range.
    let touching = plain_event(DAY_MS, HOUR);
    assert_eq!(touching.expand(&view).unwrap(), Vec::<EventInstance>::new());
}

#[test]
fn recurring_event_expands_each_occurrence() {
    let view = CalendarView::create(0, 3 * DAY_MS).unwrap();
    let e = daily(9 * HOUR, HOUR);
    let insts = e.expand(&view).unwrap();
    assert_eq!(insts.len(), 3);
    assert_eq!(insts[0], EventInstance { start_ts: 9 * HOUR, end_ts: 10 * HOUR });
    assert_eq!(insts[1], EventInstance {
        start_ts: DAY_MS + 9 * HOUR,
        end_ts: DAY_MS + 10 * HOUR,
    });
    assert_eq!(insts[2], EventInstance {
        start_ts: 2 * DAY_MS + 9 * HOUR,
        end_ts: 2 * DAY_MS + 10 * HOUR,
    });
}

#[test]
fn cancelled_override_removes_the_occurrence() {
    let view = CalendarView::create(0, 3 * DAY_MS).unwrap();
    let mut e = daily(9 * HOUR, HOUR);
    e.exceptions = vec![ExceptionOverride {
        original_start: DAY_MS + 9 * HOUR,
        action: OverrideAction::Cancelled,
    }];
    let insts = e.expand(&view).unwrap();
    assert_eq!(insts.len(), 2);
    assert_eq!(insts[0].start_ts, 9 * HOUR);
    assert_eq!(insts[1].start_ts, 2 * DAY_MS + 9 * HOUR);
}

#[test]
fn modified_override_substitutes_and_output_stays_sorted() {
    let view = CalendarView::create(0, 3 * DAY_MS).unwrap();
    let mut e = daily(9 * HOUR, HOUR);
    // Move the second occurrence before the first one.
    e.exceptions = vec![ExceptionOverride {
        original_start: DAY_MS + 9 * HOUR,
        action: OverrideAction::Modified { new_start: 2 * HOUR, new_duration: 30 * 60_000 },
    }];
    let insts = e.expand(&view).unwrap();
    assert_eq!(insts.len(), 3);
    assert_eq!(insts[0], EventInstance { start_ts: 2 * HOUR, end_ts: 2 * HOUR + 30 * 60_000 });
    assert_eq!(insts[1].start_ts, 9 * HOUR);
    assert_eq!(insts[2].start_ts, 2 * DAY_MS + 9 * HOUR);
    for w in insts.windows(2) {
        assert!(w[0].start_ts <= w[1].start_ts);
    }
}

#[test]
fn modified_override_outside_view_is_dropped() {
    let view = CalendarView::create(0, 3 * DAY_MS).unwrap();
    let mut e = daily(9 * HOUR, HOUR);
    e.exceptions = vec![ExceptionOverride {
        original_start: DAY_MS + 9 * HOUR,
        action: OverrideAction::Modified { new_start: 10 * DAY_MS, new_duration: HOUR },
    }];
    let insts = e.expand(&view).unwrap();
    assert_eq!(insts.len(), 2);
}

fn calendar_for(user: &str) -> Calendar {
    Calendar::new(&user.to_string())
}

#[test]
fn get_calendar_events_filters_empty_expansions() {
    let cal = calendar_for("user-1");
    let usecase = GetCalendarEventsUseCase {
        calendar_id: cal.id.clone(),
        user_id: "user-1".to_string(),
        start_ts: 0,
        end_ts: DAY_MS,
    };
    let in_window = plain_event(9 * HOUR, HOUR);
    let outside = plain_event(5 * DAY_MS, HOUR);
    let res = usecase.execute(Some(cal), vec![in_window, outside]).unwrap();
    assert_eq!(res.events.len(), 1);
    assert_eq!(res.events[0].instances.len(), 1);
    assert_eq!(res.events[0].instances[0].start_ts, 9 * HOUR);
}

#[test]
fn get_calendar_events_rejects_bad_timespan_and_foreign_calendar() {
    let usecase = GetCalendarEventsUseCase {
        calendar_id: "c".to_string(),
        user_id: "user-1".to_string(),
        start_ts: DAY_MS,
        end_ts: DAY_MS,
    };
    match usecase.execute(Some(calendar_for("user-1")), Vec::new()) {
        Err(UseCaseErrors::InvalidTimespanError) => {},
        _ => panic!("expected an invalid timespan"),
    }

    let usecase = GetCalendarEventsUseCase {
        calendar_id: "c".to_string(),
        user_id: "user-1".to_string(),
        start_ts: 0,
        end_ts: DAY_MS,
    };
    match usecase.execute(Some(calendar_for("someone-else")), Vec::new()) {
        Err(UseCaseErrors::NotFoundError) => {},
        _ => panic!("expected not found"),
    }
    match usecase.execute(None, Vec::new()) {
        Err(UseCaseErrors::NotFoundError) => {},
        _ => panic!("expected not found"),
    }
}
