use vstd::prelude::*;

use crate::event::CalendarEvent;
use crate::reminder::{
    on_event_changed, spec_other_event_pred, EventOperation, ReminderRepo, WatermarkStore,
};

verus! {

/// Path parameters of the event delete route.
#[derive(Debug)]
pub struct PathParams {
    pub event_id: String,
}

/// The delete request: which event, on whose behalf.
pub struct DeleteEventUseCase {
    pub user_id: String,
    pub event_id: String,
}

/// Why an event deletion failed.
#[derive(Debug)]
pub enum UseCaseErrors {
    NotFound,
}

impl DeleteEventUseCase {
    /// The decision core of the delete path: in comes the repository's
    /// lookup result; on a match owned by the requesting user the event's
    /// reminder rows and watermark are purged — the reminder-sync side
    /// effect of deletion — and the event goes back to the caller, who then
    /// removes it from the event repository. Any other lookup outcome is not
    /// found and changes nothing.
    pub fn execute(
        &self,
        event: Option<CalendarEvent>,
        watermarks: &mut WatermarkStore,
        reminders: &mut ReminderRepo,
    ) -> (r: Result<CalendarEvent, UseCaseErrors>)
        ensures
            match r {
                Result::Ok(e) => {
                    &&& (match event {
                        Option::Some(e0) => e == e0 && e0.user_id@ == self.user_id@,
                        Option::None => false,
                    })
                    &&& final(reminders).rows() == old(reminders).rows().filter(
                        spec_other_event_pred(e.id@),
                    )
                    &&& final(watermarks).spec_read(e.id@) is None
                },
                Result::Err(e) => {
                    &&& e == UseCaseErrors::NotFound
                    &&& (match event {
                        Option::Some(e0) => e0.user_id@ != self.user_id@,
                        Option::None => true,
                    })
                    &&& *final(reminders) == *old(reminders)
                    &&& *final(watermarks) == *old(watermarks)
                },
            },
    {
        match event {
            Option::Some(e) => {
                if e.user_id == self.user_id {
                    on_event_changed(&e, EventOperation::Deleted, watermarks, reminders);
                    Result::Ok(e)
                } else {
                    Result::Err(UseCaseErrors::NotFound)
                }
            },
            Option::None => Result::Err(UseCaseErrors::NotFound),
        }
    }
}

} // verus!
