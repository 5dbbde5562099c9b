use core::str::FromStr;

use nettu_scheduler::account::{Account, CreateAccountUseCase, InMemoryAccountRepo};
use nettu_scheduler::calendar::{Calendar, UpdateCalendarSettingsUseCase};
use nettu_scheduler::entity::{InvalidIDError, ID};
use nettu_scheduler::google::{
    FreeBusyCalendar, GoogleCalendarEvent, GoogleCalendarEventDateTime, GoogleDateTime,
};
use nettu_scheduler::repos::Repos;
use nettu_scheduler::user::{User, UserResponse};

#[test]
fn it_rejects_invalid_wkst() {
    let user_id = "1".to_string();
    let calendar = Calendar::new(&user_id);
    let usecase = UpdateCalendarSettingsUseCase {
        calendar_id: calendar.id.clone(),
        user_id: user_id.clone(),
        wkst: Some(20),
        timezone: None,
    };
    let res = usecase.execute(Some(calendar), true);
    assert!(res.is_err());
}

#[test]
fn it_update_settings_with_valid_wkst() {
    let user_id = "1".to_string();
    let calendar = Calendar::new(&user_id);
    assert_eq!(calendar.settings.wkst, 0);
    let new_wkst = 3;
    let usecase = UpdateCalendarSettingsUseCase {
        calendar_id: calendar.id.clone(),
        user_id: user_id.clone(),
        wkst: Some(new_wkst),
        timezone: None,
    };
    let res = usecase.execute(Some(calendar), true);
    assert!(res.is_ok());

    // Check that calendar settings have been updated
    let calendar = res.unwrap();
    assert_eq!(calendar.settings.wkst, new_wkst);
}

#[test]
fn unresolvable_timezone_is_rejected() {
    let user_id = "1".to_string();
    let calendar = Calendar::new(&user_id);
    let usecase = UpdateCalendarSettingsUseCase {
        calendar_id: calendar.id.clone(),
        user_id,
        wkst: None,
        timezone: Some("NotA/Zone".to_string()),
    };
    let res = usecase.execute(Some(calendar), false);
    assert!(res.is_err());
}

#[test]
fn google_datetime_roundtrips_through_rfc3339_text() {
    let t: i64 = 1_609_459_200_123;
    let dt = GoogleDateTime::from_timestamp_millis(t);
    assert_eq!(dt.get_timestamp_millis(), t);

    let wrapped = GoogleCalendarEventDateTime::new(0);
    assert_eq!(wrapped.time_zone, "UTC");
    assert_eq!(wrapped.date_time.get_timestamp_millis(), 0);
}

#[test]
fn google_event_maps_start_and_end() {
    let e = nettu_scheduler::event::CalendarEvent {
        id: "e".to_string(),
        user_id: "u".to_string(),
        calendar_id: "c".to_string(),
        account_id: "a".to_string(),
        start_ts: 3_600_000,
        duration: 1_800_000,
        recurrence: None,
        exceptions: Vec::new(),
        reminders: Vec::new(),
    };
    let g = GoogleCalendarEvent::from(&e);
    assert_eq!(g.start.date_time.get_timestamp_millis(), 3_600_000);
    assert_eq!(g.end.date_time.get_timestamp_millis(), 5_400_000);
    assert_eq!(g.summary, "");
    assert_eq!(g.recurrence.len(), 0);

    let fb = FreeBusyCalendar::new("cal".to_string());
    assert_eq!(fb.id, "cal");
}

#[test]
fn ids_render_and_parse() {
    let id = ID::new();
    let text = id.as_string();
    assert_eq!(text.len(), 36);
    let parsed = ID::from_str(&text).unwrap();
    assert_eq!(parsed.as_string(), text);

    match ID::from_str("not-a-uuid") {
        Err(InvalidIDError::Malformed(s)) => assert_eq!(s, "not-a-uuid"),
        _ => panic!("expected a malformed id"),
    }
}

#[test]
fn account_repo_inserts_saves_finds_and_deletes() {
    let mut repo = InMemoryAccountRepo::new();
    let a = Account::new();
    let a_id = a.id.clone();
    let a_key = a.secret_api_key.clone();
    repo.insert(a).unwrap();

    let found = repo.find(&a_id).unwrap();
    assert_eq!(found.id, a_id);
    assert!(repo.find(&"missing".to_string()).is_none());

    let by_key = repo.find_by_apikey(&a_key).unwrap();
    assert_eq!(by_key.id, a_id);

    let mut changed = found;
    changed.secret_api_key = "rotated-key".to_string();
    repo.save(changed).unwrap();
    assert_eq!(repo.find(&a_id).unwrap().secret_api_key, "rotated-key");

    let deleted = repo.delete(&a_id).unwrap();
    assert_eq!(deleted.id, a_id);
    assert!(repo.find(&a_id).is_none());
}

#[test]
fn create_account_returns_the_stored_credentials() {
    let mut repos = Repos::create_inmemory();
    let usecase = CreateAccountUseCase {};
    let res = usecase.perform(&mut repos.accounts).unwrap();
    let found = repos.accounts.find(&res.account_id).unwrap();
    assert_eq!(found.secret_api_key, res.secret_api_key);
    assert_eq!(repos.accounts.find_by_apikey(&res.secret_api_key).unwrap().id, res.account_id);
}

#[test]
fn user_response_wraps_the_user() {
    let response = UserResponse::new(User { id: "user-9".to_string() });
    assert_eq!(response.user.id, "user-9");
}
