use vstd::prelude::*;

use crate::calendar::Calendar;
use crate::event::{
    spec_event_wf, spec_expand, spec_sorted_by_start, CalendarEvent, CalendarView, EventInstance,
};
use crate::instant::MAX_TS;

verus! {

broadcast use vstd::seq_lib::group_to_multiset_ensures;

/// Path parameters of the calendar read route.
#[derive(Debug)]
pub struct CalendarPathParams {
    pub calendar_id: String,
}

/// Query parameters of the calendar read route.
#[derive(Debug)]
pub struct TimespanParams {
    pub start_ts: i64,
    pub end_ts: i64,
}

/// The read query: which calendar, on whose behalf, over which timespan.
pub struct GetCalendarEventsUseCase {
    pub calendar_id: String,
    pub user_id: String,
    pub start_ts: i64,
    pub end_ts: i64,
}

/// An event paired with its concrete instances inside the queried timespan.
pub struct EventWithInstances {
    pub event: CalendarEvent,
    pub instances: Vec<EventInstance>,
}

/// The read query's answer: the calendar and its events with instances.
pub struct UseCaseResponse {
    pub calendar: Calendar,
    pub events: Vec<EventWithInstances>,
}

/// Why the read query failed.
#[derive(Debug)]
pub enum UseCaseErrors {
    NotFoundError,
    InvalidTimespanError,
}

/// Keeps events with at least one instance inside the view.
pub open spec fn spec_has_instances_pred(view: CalendarView) -> spec_fn(CalendarEvent) -> bool {
    |e: CalendarEvent| spec_expand(e, view).len() > 0
}

impl GetCalendarEventsUseCase {
    /// The decision core of the read path: in come the calendar and its
    /// events as the repository found them, out comes each event paired with
    /// its instances inside `[start_ts, end_ts)`, ordered by instance start;
    /// events with no instance in the window are dropped. An inverted
    /// timespan is rejected before anything else; a calendar that does not
    /// exist or belongs to someone else is not found.
    pub fn execute(&self, calendar: Option<Calendar>, events: Vec<CalendarEvent>) -> (r: Result<
        UseCaseResponse,
        UseCaseErrors,
    >)
        requires
            forall|i: int| 0 <= i < events@.len() ==> spec_event_wf(#[trigger] events@[i]),
            0 <= self.start_ts,
            self.end_ts <= MAX_TS,
        ensures
            ({
                let view = CalendarView::spec_of(self.start_ts, self.end_ts);
                match r {
                    Result::Ok(res) => {
                        &&& self.start_ts < self.end_ts
                        &&& (match calendar {
                            Option::Some(c) => res.calendar == c && c.user_id@ == self.user_id@,
                            Option::None => false,
                        })
                        &&& res.events@.map_values(|ew: EventWithInstances| ew.event)
                            == events@.filter(spec_has_instances_pred(view))
                        &&& forall|j: int|
                            0 <= j < res.events@.len() ==> {
                                &&& spec_sorted_by_start((#[trigger] res.events@[j]).instances@)
                                &&& res.events@[j].instances@.to_multiset() == spec_expand(
                                    res.events@[j].event,
                                    view,
                                ).to_multiset()
                                &&& res.events@[j].instances@.len() > 0
                            }
                    },
                    Result::Err(e) => match e {
                        UseCaseErrors::InvalidTimespanError => self.start_ts >= self.end_ts,
                        UseCaseErrors::NotFoundError => self.start_ts < self.end_ts
                            && (match calendar {
                            Option::Some(c) => c.user_id@ != self.user_id@,
                            Option::None => true,
                        }),
                    },
                }
            }),
    {
        let view: CalendarView = match CalendarView::create(self.start_ts, self.end_ts) {
            Result::Ok(v) => v,
            Result::Err(_) => {
                return Result::Err(UseCaseErrors::InvalidTimespanError);
            },
        };
        let cal: Calendar = match calendar {
            Option::Some(c) => {
                if c.user_id == self.user_id {
                    c
                } else {
                    return Result::Err(UseCaseErrors::NotFoundError);
                }
            },
            Option::None => {
                return Result::Err(UseCaseErrors::NotFoundError);
            },
        };
        let mut remaining: Vec<CalendarEvent> = events;
        let ghost orig = remaining@;
        let ghost mut done: int = 0;
        let mut kept: Vec<EventWithInstances> = Vec::new();
        proof {
            assert(orig.take(0) =~= Seq::<CalendarEvent>::empty());
            assert(orig.take(0).filter(spec_has_instances_pred(view)) =~= Seq::<
                CalendarEvent,
            >::empty());
            assert(kept@.map_values(|ew: EventWithInstances| ew.event) =~= Seq::<
                CalendarEvent,
            >::empty());
            assert(orig.take(0) + remaining@ =~= orig);
        }
        while remaining.len() > 0
            invariant
                0 <= done <= orig.len(),
                orig.take(done) + remaining@ == orig,
                remaining@.len() == orig.len() - done,
                forall|i: int| 0 <= i < orig.len() ==> spec_event_wf(#[trigger] orig[i]),
                0 <= view.spec_start() < view.spec_end() <= MAX_TS,
                view == CalendarView::spec_of(self.start_ts, self.end_ts),
                kept@.map_values(|ew: EventWithInstances| ew.event) == orig.take(done).filter(
                    spec_has_instances_pred(view),
                ),
                forall|j: int|
                    0 <= j < kept@.len() ==> {
                        &&& spec_sorted_by_start((#[trigger] kept@[j]).instances@)
                        &&& kept@[j].instances@.to_multiset() == spec_expand(
                            kept@[j].event,
                            view,
                        ).to_multiset()
                        &&& kept@[j].instances@.len() > 0
                    },
            decreases remaining@.len(),
        {
            let ev: CalendarEvent = remaining.remove(0);
            proof {
                assert(orig[done] == ev);
                assert(spec_event_wf(ev));
                assert(orig.take(done + 1) =~= orig.take(done).push(orig[done]));
                assert(orig.take(done + 1) + remaining@ =~= orig);
                orig.take(done).lemma_filter_push(orig[done], spec_has_instances_pred(view));
            }
            let instances: Vec<EventInstance> = match ev.expand(&view) {
                Result::Ok(v) => v,
                Result::Err(_) => {
                    proof {
                        assert(false);
                    }
                    Vec::new()
                },
            };
            proof {
                instances@.to_multiset_ensures();
                spec_expand(ev, view).to_multiset_ensures();
                assert(instances@.len() == instances@.to_multiset().len());
                assert(spec_expand(ev, view).len() == spec_expand(ev, view).to_multiset().len());
            }
            let ghost kept_pre = kept@;
            if instances.len() > 0 {
                kept.push(EventWithInstances { event: ev, instances });
                proof {
                    assert(kept@.map_values(|ew: EventWithInstances| ew.event)
                        =~= kept_pre.map_values(|ew: EventWithInstances| ew.event).push(
                        kept@[kept@.len() - 1].event,
                    ));
                }
            }
            proof {
                done = done + 1;
            }
        }
        proof {
            assert(orig.take(done) =~= orig);
        }
        Result::Ok(UseCaseResponse { calendar: cal, events: kept })
    }
}

} // verus!
