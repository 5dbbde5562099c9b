use vstd::prelude::*;

use crate::entity::ID;

verus! {

/// Per-calendar settings the evaluator depends on: the weekday on which
/// weeks start (0 = Monday .. 6 = Sunday) and the calendar's IANA timezone
/// name. The engine never interprets the name itself; it consumes a timezone
/// resolver as a capability.
#[derive(Debug)]
pub struct CalendarSettings {
    pub wkst: i64,
    pub timezone: String,
}

impl CalendarSettings {
    /// Accepts only a weekday index `0..=6`; anything else leaves the
    /// settings untouched and reports failure.
    pub fn set_wkst(&mut self, wkst: i64) -> (r: bool)
        ensures
            r == (0 <= wkst <= 6),
            r ==> final(self).wkst == wkst && final(self).timezone == old(self).timezone,
            !r ==> *final(self) == *old(self),
    {
        if 0 <= wkst && wkst <= 6 {
            self.wkst = wkst;
            true
        } else {
            false
        }
    }

    /// Accepts the name exactly when the timezone resolver recognised it;
    /// `resolvable` is that resolver's verdict, handed in as a capability.
    pub fn set_timezone(&mut self, timezone: &String, resolvable: bool) -> (r: bool)
        ensures
            r == resolvable,
            r ==> final(self).timezone == *timezone && final(self).wkst == old(self).wkst,
            !r ==> *final(self) == *old(self),
    {
        if resolvable {
            self.timezone = timezone.clone();
            true
        } else {
            false
        }
    }
}

/// A calendar: identity, owner, settings.
#[derive(Debug)]
pub struct Calendar {
    pub id: String,
    pub user_id: String,
    pub settings: CalendarSettings,
}

impl Calendar {
    /// A fresh calendar for the user, with default settings: weeks start on
    /// weekday 0 and instants are read as UTC.
    pub fn new(user_id: &String) -> (r: Calendar)
        ensures
            r.user_id == *user_id,
            r.settings.wkst == 0,
            r.settings.timezone@ == "UTC"@,
            r.id@.len() == 36,
    {
        Calendar {
            id: ID::new().as_string(),
            user_id: user_id.clone(),
            settings: CalendarSettings { wkst: 0, timezone: "UTC".to_string() },
        }
    }
}

/// Path parameters of the settings update route.
#[derive(Debug)]
pub struct UpdateCalendarSettigsPathParams {
    pub calendar_id: String,
}

/// Body of the settings update route.
#[derive(Debug)]
pub struct UpdateCalendarSettingsBody {
    pub wkst: Option<i64>,
    pub timezone: Option<String>,
}

/// The settings update: which calendar, on whose behalf, and what to change.
pub struct UpdateCalendarSettingsUseCase {
    pub user_id: String,
    pub calendar_id: String,
    pub wkst: Option<i64>,
    pub timezone: Option<String>,
}

/// Why a settings update was refused. `StorageError` belongs to the
/// persistence step around the decision and never comes out of the decision
/// itself.
#[derive(Debug)]
pub enum UseCaseErrors {
    CalendarNotFoundError,
    StorageError,
    InvalidSettings(String),
}

impl UpdateCalendarSettingsUseCase {
    /// The decision core of the settings update: in comes the calendar as
    /// the repository found it and the timezone resolver's verdict on the
    /// requested name, out comes the updated calendar for the caller to
    /// persist. A calendar that does not exist or belongs to someone else is
    /// not found; a weekday outside `0..=6` or an unresolvable timezone is
    /// invalid and changes nothing.
    pub fn execute(&self, calendar: Option<Calendar>, timezone_resolvable: bool) -> (r: Result<
        Calendar,
        UseCaseErrors,
    >)
        ensures
            match r {
                Result::Ok(cal) => (match calendar {
                    Option::Some(c0) => {
                        &&& c0.user_id@ == self.user_id@
                        &&& cal.id == c0.id
                        &&& cal.user_id == c0.user_id
                        &&& (match self.wkst {
                            Option::Some(w) => 0 <= w <= 6 && cal.settings.wkst == w,
                            Option::None => cal.settings.wkst == c0.settings.wkst,
                        })
                        &&& (match self.timezone {
                            Option::Some(tz) => timezone_resolvable && cal.settings.timezone@
                                == tz@,
                            Option::None => cal.settings.timezone@ == c0.settings.timezone@,
                        })
                    },
                    Option::None => false,
                }),
                Result::Err(e) => match e {
                    UseCaseErrors::CalendarNotFoundError => (match calendar {
                        Option::Some(c0) => c0.user_id@ != self.user_id@,
                        Option::None => true,
                    }),
                    UseCaseErrors::InvalidSettings(_) => (match calendar {
                        Option::Some(c0) => c0.user_id@ == self.user_id@ && ((match self.wkst {
                            Option::Some(w) => !(0 <= w <= 6),
                            Option::None => false,
                        }) || (self.timezone is Some && !timezone_resolvable)),
                        Option::None => false,
                    }),
                    UseCaseErrors::StorageError => false,
                },
            },
    {
        let mut cal: Calendar = match calendar {
            Option::Some(c) => c,
            Option::None => {
                return Result::Err(UseCaseErrors::CalendarNotFoundError);
            },
        };
        if !(cal.user_id == self.user_id) {
            return Result::Err(UseCaseErrors::CalendarNotFoundError);
        }
        match &self.wkst {
            Option::Some(w) => {
                if !cal.settings.set_wkst(*w) {
                    return Result::Err(
                        UseCaseErrors::InvalidSettings(
                            "Invalid wkst property, it must be between 0 and 6".to_string(),
                        ),
                    );
                }
            },
            Option::None => {},
        }
        match &self.timezone {
            Option::Some(tz) => {
                if !cal.settings.set_timezone(tz, timezone_resolvable) {
                    return Result::Err(
                        UseCaseErrors::InvalidSettings(
                            "Invalid timezone property, it must be a valid IANA timezone name".to_string(),
                        ),
                    );
                }
            },
            Option::None => {},
        }
        Result::Ok(cal)
    }
}

} // verus!
