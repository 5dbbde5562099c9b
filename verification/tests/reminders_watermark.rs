use nettu_scheduler::delete_event::{DeleteEventUseCase, UseCaseErrors};
use nettu_scheduler::errors::CoreError;
use nettu_scheduler::event::CalendarEvent;
use nettu_scheduler::instant::DAY_MS;
use nettu_scheduler::recurrence::{Frequency, RecurrenceRule};
use nettu_scheduler::reminder::{
    expanding_step, on_event_changed, run_expansion, EventOperation, Reminder, ReminderRepo,
    WatermarkStore,
};

const HOUR: i64 = 3_600_000;

fn row(remind_at: i64, event_id: &str) -> Reminder {
    Reminder {
        id: String::new(),
        remind_at,
        event_id: event_id.to_string(),
        account_id: "acct-1".to_string(),
    }
}

fn daily_event(id: &str, start_ts: i64, offsets: Vec<i64>) -> CalendarEvent {
    CalendarEvent {
        id: id.to_string(),
        user_id: "user-1".to_string(),
        calendar_id: "cal-1".to_string(),
        account_id: "acct-1".to_string(),
        start_ts,
        duration: HOUR,
        recurrence: Some(RecurrenceRule {
            freq: Frequency::Daily,
            interval: 1,
            count: None,
            until: None,
            by_weekday: Vec::new(),
            by_month_day: Vec::new(),
            wkst: 0,
        }),
        exceptions: Vec::new(),
        reminders: offsets,
    }
}

#[test]
fn retention_sweep_splits_exactly_at_the_line() {
    let mut repo = ReminderRepo::new();
    repo.bulk_insert(vec![row(10, "a"), row(20, "a"), row(30, "b"), row(21, "b")]).unwrap();
    let removed = repo.delete_all_before(20);
    let removed_ats: Vec<i64> = removed.iter().map(|r| r.remind_at).collect();
    assert_eq!(removed_ats, vec![10, 20]);
    let kept_ats: Vec<i64> = repo.all_rows().iter().map(|r| r.remind_at).collect();
    assert_eq!(kept_ats, vec![30, 21]);
    // A second sweep at the same line removes nothing: deletion is idempotent.
    assert_eq!(repo.delete_all_before(20).len(), 0);
}

#[test]
fn delete_by_event_only_touches_that_event() {
    let mut repo = ReminderRepo::new();
    repo.bulk_insert(vec![row(10, "a"), row(20, "b"), row(30, "a")]).unwrap();
    let res = repo.delete_by_event(&"a".to_string());
    assert_eq!(res.deleted_count, 2);
    assert_eq!(repo.all_rows().len(), 1);
    assert_eq!(repo.all_rows()[0].event_id, "b");
}

#[test]
fn expansion_generates_one_row_per_occurrence_and_offset() {
    let event = daily_event("e1", 9 * HOUR, vec![10 * 60_000, 0]);
    let outcome = run_expansion(&event, None, 0, 2 * DAY_MS);
    assert_eq!(outcome.new_until, 2 * DAY_MS);
    let ats: Vec<i64> = outcome.rows.iter().map(|r| r.remind_at).collect();
    assert_eq!(
        ats,
        vec![
            9 * HOUR - 10 * 60_000,
            9 * HOUR,
            DAY_MS + 9 * HOUR - 10 * 60_000,
            DAY_MS + 9 * HOUR,
        ]
    );
    for r in outcome.rows.iter() {
        assert_eq!(r.event_id, "e1");
        assert_eq!(r.account_id, "acct-1");
    }
}

#[test]
fn expansion_resumes_at_the_watermark() {
    let event = daily_event("e1", 9 * HOUR, vec![0]);
    let outcome = run_expansion(&event, Some(2 * DAY_MS), 0, 4 * DAY_MS);
    assert_eq!(outcome.new_until, 4 * DAY_MS);
    let ats: Vec<i64> = outcome.rows.iter().map(|r| r.remind_at).collect();
    assert_eq!(ats, vec![2 * DAY_MS + 9 * HOUR, 3 * DAY_MS + 9 * HOUR]);
}

#[test]
fn watermark_advance_is_idempotent_for_an_unchanged_now() {
    let event = daily_event("e1", 9 * HOUR, vec![0]);
    let mut watermarks = WatermarkStore::new();
    let mut reminders = ReminderRepo::new();
    let first = expanding_step(&event, &mut watermarks, &mut reminders, 0, 2 * DAY_MS).unwrap();
    assert_eq!(first, 2 * DAY_MS);
    let rows_after_first = reminders.all_rows().len();
    assert_eq!(rows_after_first, 2);
    assert_eq!(watermarks.read(&"e1".to_string()), Some(2 * DAY_MS));

    // Re-running with the same `now` is a no-op: no duplicate rows, no
    // watermark movement.
    let second = expanding_step(&event, &mut watermarks, &mut reminders, 0, 2 * DAY_MS).unwrap();
    assert_eq!(second, 2 * DAY_MS);
    assert_eq!(reminders.all_rows().len(), rows_after_first);
    assert_eq!(watermarks.read(&"e1".to_string()), Some(2 * DAY_MS));
}

#[test]
fn rolling_horizon_extends_the_watermark() {
    let event = daily_event("e1", 9 * HOUR, vec![0]);
    let mut watermarks = WatermarkStore::new();
    let mut reminders = ReminderRepo::new();
    expanding_step(&event, &mut watermarks, &mut reminders, 0, 2 * DAY_MS).unwrap();
    // A later tick with a later `now` materializes only the new range.
    let advanced = expanding_step(&event, &mut watermarks, &mut reminders, DAY_MS, 2 * DAY_MS)
        .unwrap();
    assert_eq!(advanced, 3 * DAY_MS);
    assert_eq!(reminders.all_rows().len(), 3);
    assert_eq!(watermarks.read(&"e1".to_string()), Some(3 * DAY_MS));
}

#[test]
fn compare_and_advance_detects_a_lost_race() {
    let mut watermarks = WatermarkStore::new();
    let eid = "e1".to_string();
    assert!(watermarks.compare_and_advance(&eid, None, 100).is_ok());
    assert_eq!(watermarks.read(&eid), Some(100));
    // A stale expectation loses the compare.
    assert_eq!(
        watermarks.compare_and_advance(&eid, Some(50), 200),
        Err(CoreError::ExpansionConflict)
    );
    assert_eq!(watermarks.read(&eid), Some(100));
    assert!(watermarks.compare_and_advance(&eid, Some(100), 200).is_ok());
    assert_eq!(watermarks.read(&eid), Some(200));
}

#[test]
fn event_change_resets_and_deletion_purges() {
    let event = daily_event("e1", 9 * HOUR, vec![0]);
    let mut watermarks = WatermarkStore::new();
    let mut reminders = ReminderRepo::new();
    expanding_step(&event, &mut watermarks, &mut reminders, 0, 2 * DAY_MS).unwrap();
    assert!(watermarks.read(&"e1".to_string()).is_some());

    on_event_changed(&event, EventOperation::Updated, &mut watermarks, &mut reminders);
    assert_eq!(watermarks.read(&"e1".to_string()), None);
    assert_eq!(reminders.all_rows().len(), 2);

    on_event_changed(&event, EventOperation::Deleted, &mut watermarks, &mut reminders);
    assert_eq!(watermarks.read(&"e1".to_string()), None);
    assert_eq!(reminders.all_rows().len(), 0);
}

#[test]
fn delete_event_use_case_purges_only_the_owned_event() {
    let event = daily_event("e1", 9 * HOUR, vec![0]);
    let other = daily_event("e2", 9 * HOUR, vec![0]);
    let mut watermarks = WatermarkStore::new();
    let mut reminders = ReminderRepo::new();
    expanding_step(&event, &mut watermarks, &mut reminders, 0, 2 * DAY_MS).unwrap();
    expanding_step(&other, &mut watermarks, &mut reminders, 0, 2 * DAY_MS).unwrap();

    let usecase = DeleteEventUseCase { user_id: "user-1".to_string(), event_id: "e1".to_string() };
    let deleted = usecase.execute(Some(event), &mut watermarks, &mut reminders).unwrap();
    assert_eq!(deleted.id, "e1");
    assert!(reminders.all_rows().iter().all(|r| r.event_id == "e2"));
    assert_eq!(watermarks.read(&"e1".to_string()), None);
    assert_eq!(watermarks.read(&"e2".to_string()), Some(2 * DAY_MS));

    let foreign = DeleteEventUseCase {
        user_id: "someone-else".to_string(),
        event_id: "e2".to_string(),
    };
    match foreign.execute(Some(other), &mut watermarks, &mut reminders) {
        Err(UseCaseErrors::NotFound) => {},
        _ => panic!("expected not found"),
    }
    assert_eq!(watermarks.read(&"e2".to_string()), Some(2 * DAY_MS));
}
