//! Core engine of a calendar scheduler: bounded-window recurrence expansion,
//! per-event reminder materialization behind a monotone watermark, and
//! free/busy interval merging across calendars.
//!
//! All instants are absolute milliseconds since the Unix epoch (UTC). The
//! engine itself performs no I/O: persistence and network collaborators hand
//! it plain values and take plain values back.

pub mod account;
pub mod calendar;
pub mod calendar_math;
pub mod delete_event;
pub mod entity;
pub mod errors;
pub mod event;
pub mod freebusy;
pub mod get_calendar_events;
pub mod google;
pub mod instant;
pub mod recurrence;
pub mod reminder;
pub mod repos;
pub mod user;
