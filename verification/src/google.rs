use vstd::prelude::*;

use chrono::TimeZone;

use crate::event::CalendarEvent;
use crate::instant::MAX_TS;

verus! {

/// The RFC 3339 text chrono renders for an instant (UTC, millisecond
/// precision). A function of the instant alone.
pub uninterp spec fn rfc3339_of(t: int) -> Seq<char>;

/// Relies on chrono's Utc::timestamp_millis_opt and DateTime::to_rfc3339:
/// every instant of the supported span maps to a single civil datetime, and
/// the rendered text depends on the instant alone.
#[verifier::external_body]
fn format_rfc3339_millis(t: i64) -> (r: String)
    requires
        0 <= t <= MAX_TS,
    ensures
        r@ == rfc3339_of(t as int),
{
    match chrono::Utc.timestamp_millis_opt(t) {
        chrono::LocalResult::Single(dt) => dt.to_rfc3339(),
        _ => String::new(),
    }
}

/// Relies on chrono's DateTime::parse_from_rfc3339 and timestamp_millis:
/// parsing text chrono itself rendered recovers exactly the instant it was
/// rendered from.
#[verifier::external_body]
fn parse_rfc3339_millis(s: &String) -> (r: i64)
    requires
        exists|t: i64| 0 <= t <= MAX_TS && s@ == rfc3339_of(t as int),
    ensures
        0 <= r <= MAX_TS,
        s@ == rfc3339_of(r as int),
{
    match chrono::DateTime::parse_from_rfc3339(s.as_str()) {
        Ok(dt) => dt.timestamp_millis(),
        Err(_) => 0,
    }
}

/// An instant carried as its RFC 3339 text, the form the remote calendar API
/// speaks. Every value holds text rendered from some supported instant, so
/// reading the instant back cannot fail.
#[derive(Debug)]
pub struct GoogleDateTime(String);

impl GoogleDateTime {
    /// Every value's text is chrono's rendering of a supported instant.
    #[verifier::type_invariant]
    pub closed spec fn wf(&self) -> bool {
        exists|t: i64| 0 <= t <= MAX_TS && self.0@ == rfc3339_of(t as int)
    }

    pub closed spec fn spec_text(&self) -> Seq<char> {
        self.0@
    }

    pub fn from_timestamp_millis(timestamp: i64) -> (r: Self)
        requires
            0 <= timestamp <= MAX_TS,
        ensures
            r.spec_text() == rfc3339_of(timestamp as int),
    {
        let text: String = format_rfc3339_millis(timestamp);
        let r = GoogleDateTime(text);
        proof {
            assert(0 <= timestamp <= MAX_TS && r.0@ == rfc3339_of(timestamp as int));
        }
        r
    }

    /// Reads the instant back out of the text; total, because the type's
    /// invariant says the text came from a supported instant.
    pub fn get_timestamp_millis(&self) -> (r: i64)
        ensures
            0 <= r <= MAX_TS,
            self.spec_text() == rfc3339_of(r as int),
    {
        proof {
            use_type_invariant(&*self);
        }
        parse_rfc3339_millis(&self.0)
    }
}

/// A datetime as the remote calendar API carries it: the text plus a fixed
/// UTC marker.
#[derive(Debug)]
pub struct GoogleCalendarEventDateTime {
    pub date_time: GoogleDateTime,
    pub time_zone: String,
}

impl GoogleCalendarEventDateTime {
    pub fn new(date_time_millis: i64) -> (r: Self)
        requires
            0 <= date_time_millis <= MAX_TS,
        ensures
            r.date_time.spec_text() == rfc3339_of(date_time_millis as int),
            r.time_zone@ == "UTC"@,
    {
        GoogleCalendarEventDateTime {
            date_time: GoogleDateTime::from_timestamp_millis(date_time_millis),
            time_zone: "UTC".to_string(),
        }
    }
}

/// The event shape the remote calendar API accepts.
#[derive(Debug)]
pub struct GoogleCalendarEvent {
    pub start: GoogleCalendarEventDateTime,
    pub end: GoogleCalendarEventDateTime,
    pub summary: String,
    pub description: String,
    pub recurrence: Vec<String>,
}

impl GoogleCalendarEvent {
    /// Maps an event of the engine onto the remote shape: start and end as
    /// RFC 3339 text, no content, and no recurrence (recurrence sync is not
    /// supported, occurrences are pushed one by one).
    pub fn from(e: &CalendarEvent) -> (r: Self)
        requires
            0 <= e.start_ts,
            0 < e.duration,
            e.start_ts + e.duration <= MAX_TS,
        ensures
            r.start.date_time.spec_text() == rfc3339_of(e.start_ts as int),
            r.end.date_time.spec_text() == rfc3339_of(e.start_ts + e.duration),
            r.summary@ == Seq::<char>::empty(),
            r.description@ == Seq::<char>::empty(),
            r.recurrence@.len() == 0,
    {
        GoogleCalendarEvent {
            start: GoogleCalendarEventDateTime::new(e.start_ts),
            end: GoogleCalendarEventDateTime::new(e.start_ts + e.duration),
            summary: String::new(),
            description: String::new(),
            recurrence: Vec::new(),
        }
    }
}

/// One calendar's busy spans as the remote API reports them.
#[derive(Debug)]
pub struct FreeBusyCalendarResponse {
    pub busy: Vec<FreeBusyTimeSpanResponse>,
}

/// One busy span as the remote API reports it.
#[derive(Debug)]
pub struct FreeBusyTimeSpanResponse {
    pub start: GoogleDateTime,
    pub end: GoogleDateTime,
}

/// The remote API's availability answer.
#[derive(Debug)]
pub struct FreeBusyResponse {
    pub kind: String,
    pub time_min: GoogleDateTime,
    pub time_max: GoogleDateTime,
    pub calendars: Vec<(String, FreeBusyCalendarResponse)>,
}

/// A calendar named in an availability request.
#[derive(Debug)]
pub struct FreeBusyCalendar {
    pub id: String,
}

impl FreeBusyCalendar {
    pub fn new(id: String) -> (r: Self)
        ensures
            r.id == id,
    {
        FreeBusyCalendar { id }
    }
}

/// An availability request to the remote API.
#[derive(Debug)]
pub struct FreeBusyRequest {
    pub time_min: GoogleDateTime,
    pub time_max: GoogleDateTime,
    pub time_zone: String,
    pub items: Vec<FreeBusyCalendar>,
}

/// The remote API's calendar-list answer.
#[derive(Debug)]
pub struct ListCalendarsResponse {
    pub kind: String,
    pub items: Vec<GoogleCalendarListEntry>,
}

/// One remote calendar as listed by the remote API.
#[derive(Debug)]
pub struct GoogleCalendarListEntry {
    pub id: String,
    pub summary: String,
    pub description: String,
    pub location: String,
    pub time_zone: String,
    pub summary_override: String,
    pub color_id: String,
    pub background_color: String,
    pub foreground_color: String,
    pub hidden: bool,
    pub selected: bool,
    pub access_role: GoogleCalendarAccessRole,
    pub primary: bool,
    pub deleted: bool,
}

/// The remote API's access levels.
#[derive(Clone, Copy, Debug, PartialEq, Eq, Structural)]
pub enum GoogleCalendarAccessRole {
    Owner,
    Writer,
    Reader,
    FreeBusyReader,
}

} // verus!
