use vstd::prelude::*;
use vstd::multiset::Multiset;

use crate::errors::CoreError;
use crate::instant::MAX_TS;
use crate::recurrence::{
    evaluate, ints_of, lemma_evaluate_sorted, spec_evaluate, spec_rule_valid, RecurrenceRule,
};

verus! {

broadcast use vstd::seq_lib::group_to_multiset_ensures;

/// A bounded half-open window `[start_ts, end_ts)` of instants: the scope of
/// every expansion and availability query. Construction fails unless the
/// start strictly precedes the end; a view is immutable once created.
#[derive(Clone, Copy, Debug, PartialEq, Eq, Structural)]
pub struct CalendarView {
    start_ts: i64,
    end_ts: i64,
}

impl CalendarView {
    pub closed spec fn spec_start(&self) -> int {
        self.start_ts as int
    }

    /// The view value with the given bounds (whether or not they are valid);
    /// `create` returns exactly this value on success.
    pub closed spec fn spec_of(start_ts: i64, end_ts: i64) -> CalendarView {
        CalendarView { start_ts, end_ts }
    }

    pub closed spec fn spec_end(&self) -> int {
        self.end_ts as int
    }

    /// The only way to obtain a view; rejects an empty or inverted range.
    pub fn create(start_ts: i64, end_ts: i64) -> (r: Result<CalendarView, CoreError>)
        ensures
            match r {
                Result::Ok(v) => start_ts < end_ts && v.spec_start() == start_ts && v.spec_end()
                    == end_ts && v == CalendarView::spec_of(start_ts, end_ts),
                Result::Err(e) => e == CoreError::InvalidWindow && start_ts >= end_ts,
            },
    {
        if start_ts < end_ts {
            Result::Ok(CalendarView { start_ts, end_ts })
        } else {
            Result::Err(CoreError::InvalidWindow)
        }
    }

    /// The bounds of [`CalendarView::spec_of`].
    pub proof fn lemma_spec_of(start_ts: i64, end_ts: i64)
        ensures
            CalendarView::spec_of(start_ts, end_ts).spec_start() == start_ts,
            CalendarView::spec_of(start_ts, end_ts).spec_end() == end_ts,
    {
    }

    pub fn start_ts(&self) -> (r: i64)
        ensures
            r == self.spec_start(),
    {
        self.start_ts
    }

    pub fn end_ts(&self) -> (r: i64)
        ensures
            r == self.spec_end(),
    {
        self.end_ts
    }
}

/// One concrete repetition of an event: derived, never persisted.
#[derive(Clone, Copy, Debug, PartialEq, Eq, Structural)]
pub struct EventInstance {
    pub start_ts: i64,
    pub end_ts: i64,
}

/// What an exception does to the occurrence it targets.
#[derive(Clone, Copy, Debug, PartialEq, Eq, Structural)]
pub enum OverrideAction {
    Cancelled,
    Modified { new_start: i64, new_duration: i64 },
}

/// A per-occurrence exception, keyed by the occurrence's original start.
#[derive(Clone, Copy, Debug, PartialEq, Eq, Structural)]
pub struct ExceptionOverride {
    pub original_start: i64,
    pub action: OverrideAction,
}

/// A calendar event: the anchor occurrence, an optional recurrence rule,
/// per-occurrence exceptions, and reminder offsets (milliseconds before each
/// occurrence start). Without a rule the event has exactly one occurrence,
/// itself.
#[derive(Debug)]
pub struct CalendarEvent {
    pub id: String,
    pub user_id: String,
    pub calendar_id: String,
    pub account_id: String,
    pub start_ts: i64,
    pub duration: i64,
    pub recurrence: Option<RecurrenceRule>,
    pub exceptions: Vec<ExceptionOverride>,
    pub reminders: Vec<i64>,
}

/// Replacement occurrences must themselves be well-formed instants.
pub open spec fn spec_exceptions_wf(exc: Seq<ExceptionOverride>) -> bool {
    forall|i: int|
        0 <= i < exc.len() ==> (match (#[trigger] exc[i]).action {
            OverrideAction::Cancelled => true,
            OverrideAction::Modified { new_start, new_duration } => 0 <= new_start <= MAX_TS && 0
                < new_duration <= MAX_TS,
        })
}

/// Reminder offsets are non-negative and bounded.
pub open spec fn spec_reminders_wf(offsets: Seq<i64>) -> bool {
    forall|i: int| 0 <= i < offsets.len() ==> 0 <= #[trigger] offsets[i] <= MAX_TS
}

/// Well-formedness of a stored event: positive duration, instants in the
/// supported span, a resolvable rule if any, well-formed exceptions and
/// reminder offsets.
pub open spec fn spec_event_wf(e: CalendarEvent) -> bool {
    &&& 0 <= e.start_ts <= MAX_TS
    &&& 0 < e.duration <= MAX_TS
    &&& (match e.recurrence {
        Option::Some(rule) => spec_rule_valid(rule),
        Option::None => true,
    })
    &&& spec_exceptions_wf(e.exceptions@)
    &&& spec_reminders_wf(e.reminders@)
}

/// Two half-open intervals `[s, e)` and `[ws, we)` share an instant.
pub open spec fn spec_intersects(s: int, e: int, ws: int, we: int) -> bool {
    s < we && ws < e
}

/// The instance an occurrence at `occ` resolves to: the first exception whose
/// `original_start` equals `occ` decides — `Cancelled` removes the occurrence
/// and `Modified` substitutes its replacement; without a match the occurrence
/// stands as it is.
pub open spec fn spec_resolve(exc: Seq<ExceptionOverride>, occ: int, dur: int) -> Option<
    EventInstance,
>
    decreases exc.len(),
{
    if exc.len() == 0 {
        Option::Some(
            (EventInstance { start_ts: occ as i64, end_ts: (occ + dur) as i64 }),
        )
    } else if exc[0].original_start == occ {
        match exc[0].action {
            OverrideAction::Cancelled => Option::None,
            OverrideAction::Modified { new_start, new_duration } => Option::Some(
                (EventInstance { start_ts: new_start, end_ts: (new_start + new_duration) as i64 }),
            ),
        }
    } else {
        spec_resolve(exc.drop_first(), occ, dur)
    }
}

/// The instances the given occurrence starts expand to: each occurrence is
/// resolved through the exceptions, cancelled occurrences disappear, and an
/// instance whose final interval no longer touches the view is dropped.
pub open spec fn spec_expand_insts(
    occs: Seq<int>,
    exc: Seq<ExceptionOverride>,
    dur: int,
    ws: int,
    we: int,
) -> Seq<EventInstance>
    decreases occs.len(),
{
    if occs.len() == 0 {
        Seq::empty()
    } else {
        let head = match spec_resolve(exc, occs[0], dur) {
            Option::Some(inst) => if spec_intersects(
                inst.start_ts as int,
                inst.end_ts as int,
                ws,
                we,
            ) {
                seq![inst]
            } else {
                Seq::<EventInstance>::empty()
            },
            Option::None => Seq::<EventInstance>::empty(),
        };
        head + spec_expand_insts(occs.drop_first(), exc, dur, ws, we)
    }
}

/// The instances of an event inside a view, before ordering: a non-recurring
/// event contributes itself when its interval touches the view; a recurring
/// event contributes its evaluated occurrences, resolved through exceptions.
pub open spec fn spec_expand(e: CalendarEvent, view: CalendarView) -> Seq<EventInstance> {
    match e.recurrence {
        Option::None => {
            if spec_intersects(
                e.start_ts as int,
                e.start_ts + e.duration,
                view.spec_start(),
                view.spec_end(),
            ) {
                seq![(EventInstance { start_ts: e.start_ts, end_ts: (e.start_ts + e.duration) as i64 })]
            } else {
                Seq::empty()
            }
        },
        Option::Some(rule) => spec_expand_insts(
            spec_evaluate(e.start_ts as int, rule, view.spec_start(), view.spec_end()),
            e.exceptions@,
            e.duration as int,
            view.spec_start(),
            view.spec_end(),
        ),
    }
}

/// Ascending final occurrence starts.
pub open spec fn spec_sorted_by_start(s: Seq<EventInstance>) -> bool {
    forall|i: int, j: int| 0 <= i < j < s.len() ==> s[i].start_ts <= s[j].start_ts
}

/// Every resolved instance is a well-formed interval.
proof fn lemma_resolve_wf(exc: Seq<ExceptionOverride>, occ: int, dur: int)
    requires
        spec_exceptions_wf(exc),
        0 <= occ <= MAX_TS,
        0 < dur <= MAX_TS,
    ensures
        match spec_resolve(exc, occ, dur) {
            Option::Some(inst) => inst.start_ts < inst.end_ts,
            Option::None => true,
        },
    decreases exc.len(),
{
    if exc.len() == 0 {
    } else if exc[0].original_start == occ {
        assert(spec_exceptions_wf(exc));
    } else {
        assert(forall|i: int|
            0 <= i < exc.drop_first().len() ==> exc.drop_first()[i] == exc[i + 1]);
        lemma_resolve_wf(exc.drop_first(), occ, dur);
    }
}

/// Law: every instance the expansion keeps intersects the view and is a
/// well-formed interval.
pub proof fn lemma_expand_insts_props(
    occs: Seq<int>,
    exc: Seq<ExceptionOverride>,
    dur: int,
    ws: int,
    we: int,
)
    requires
        spec_exceptions_wf(exc),
        0 < dur <= MAX_TS,
        forall|i: int| 0 <= i < occs.len() ==> 0 <= #[trigger] occs[i] <= MAX_TS,
    ensures
        ({
            let s = spec_expand_insts(occs, exc, dur, ws, we);
            forall|i: int|
                0 <= i < s.len() ==> (spec_intersects(
                    (#[trigger] s[i]).start_ts as int,
                    s[i].end_ts as int,
                    ws,
                    we,
                ) && s[i].start_ts < s[i].end_ts)
        }),
    decreases occs.len(),
{
    if occs.len() == 0 {
    } else {
        lemma_resolve_wf(exc, occs[0], dur);
        lemma_expand_insts_props(occs.drop_first(), exc, dur, ws, we);
        let head = match spec_resolve(exc, occs[0], dur) {
            Option::Some(inst) => if spec_intersects(
                inst.start_ts as int,
                inst.end_ts as int,
                ws,
                we,
            ) {
                seq![inst]
            } else {
                Seq::<EventInstance>::empty()
            },
            Option::None => Seq::<EventInstance>::empty(),
        };
        let rest = spec_expand_insts(occs.drop_first(), exc, dur, ws, we);
        let s = spec_expand_insts(occs, exc, dur, ws, we);
        assert(s == head + rest);
        assert(forall|i: int| head.len() <= i < s.len() ==> s[i] == rest[i - head.len()]);
    }
}

/// Executable twin of [`spec_resolve`].
fn resolve_override(exceptions: &Vec<ExceptionOverride>, occ: i64, dur: i64) -> (r: Option<
    EventInstance,
>)
    requires
        0 <= occ <= MAX_TS,
        0 < dur <= MAX_TS,
        spec_exceptions_wf(exceptions@),
    ensures
        r == spec_resolve(exceptions@, occ as int, dur as int),
{
    proof {
        assert(exceptions@.skip(0) =~= exceptions@);
    }
    let mut i: usize = 0;
    while i < exceptions.len()
        invariant
            0 <= i <= exceptions@.len(),
            0 <= occ <= MAX_TS,
            0 < dur <= MAX_TS,
            spec_exceptions_wf(exceptions@),
            spec_resolve(exceptions@.skip(i as int), occ as int, dur as int) == spec_resolve(
                exceptions@,
                occ as int,
                dur as int,
            ),
        decreases exceptions@.len() - i,
    {
        let ex: ExceptionOverride = exceptions[i];
        proof {
            assert(exceptions@.skip(i as int)[0] == ex);
            assert(exceptions@.skip(i as int).drop_first() =~= exceptions@.skip(i as int + 1));
        }
        if ex.original_start == occ {
            match ex.action {
                OverrideAction::Cancelled => {
                    return Option::None;
                },
                OverrideAction::Modified { new_start, new_duration } => {
                    proof {
                        assert(spec_exceptions_wf(exceptions@));
                        assert(0 <= new_start <= MAX_TS && 0 < new_duration <= MAX_TS);
                    }
                    return Option::Some(
                        EventInstance { start_ts: new_start, end_ts: new_start + new_duration },
                    );
                },
            }
        }
        i = i + 1;
    }
    proof {
        assert(exceptions@.skip(exceptions@.len() as int) =~= Seq::<ExceptionOverride>::empty());
    }
    Option::Some(EventInstance { start_ts: occ, end_ts: occ + dur })
}

/// Inserts an instance into a start-sorted list, keeping it sorted; an
/// instance with an equal start goes after the ones already there.
fn insert_sorted(out: &mut Vec<EventInstance>, inst: EventInstance)
    requires
        spec_sorted_by_start(old(out)@),
    ensures
        spec_sorted_by_start(final(out)@),
        final(out)@.to_multiset() == old(out)@.to_multiset().insert(inst),
        final(out)@.len() == old(out)@.len() + 1,
{
    let mut i: usize = out.len();
    while i > 0 && out[i - 1].start_ts > inst.start_ts
        invariant
            0 <= i <= out@.len(),
            out@ == old(out)@,
            spec_sorted_by_start(out@),
            forall|k: int| i <= k < out@.len() ==> out@[k].start_ts > inst.start_ts,
        decreases i,
    {
        i = i - 1;
    }
    proof {
        vstd::seq_lib::to_multiset_insert(out@, i as int, inst);
    }
    out.insert(i, inst);
}

impl CalendarEvent {
    /// Input validation for a stored event.
    pub fn is_wf(&self) -> (r: bool)
        ensures
            r == spec_event_wf(*self),
    {
        if !(0 <= self.start_ts && self.start_ts <= MAX_TS) {
            return false;
        }
        if !(0 < self.duration && self.duration <= MAX_TS) {
            return false;
        }
        match &self.recurrence {
            Option::Some(rule) => {
                if !rule.is_valid() {
                    return false;
                }
            },
            Option::None => {},
        }
        let mut i: usize = 0;
        while i < self.exceptions.len()
            invariant
                0 <= i <= self.exceptions@.len(),
                forall|k: int|
                    0 <= k < i ==> (match (#[trigger] self.exceptions@[k]).action {
                        OverrideAction::Cancelled => true,
                        OverrideAction::Modified { new_start, new_duration } => 0 <= new_start
                            <= MAX_TS && 0 < new_duration <= MAX_TS,
                    }),
            decreases self.exceptions@.len() - i,
        {
            match self.exceptions[i].action {
                OverrideAction::Cancelled => {},
                OverrideAction::Modified { new_start, new_duration } => {
                    if !(0 <= new_start && new_start <= MAX_TS && 0 < new_duration
                        && new_duration <= MAX_TS) {
                        return false;
                    }
                },
            }
            i = i + 1;
        }
        let mut j: usize = 0;
        while j < self.reminders.len()
            invariant
                0 <= j <= self.reminders@.len(),
                forall|k: int| 0 <= k < j ==> 0 <= #[trigger] self.reminders@[k] <= MAX_TS,
            decreases self.reminders@.len() - j,
        {
            if !(0 <= self.reminders[j] && self.reminders[j] <= MAX_TS) {
                return false;
            }
            j = j + 1;
        }
        true
    }

    /// Expands the event inside `view`: the read-only projection of the event
    /// onto concrete instances, ordered by final occurrence start. The result
    /// holds, as a multiset, exactly the instances of [`spec_expand`]; a
    /// non-recurring event yields itself when its interval touches the view
    /// and nothing otherwise. Pure: same inputs, same output.
    pub fn expand(&self, view: &CalendarView) -> (r: Result<Vec<EventInstance>, CoreError>)
        requires
            0 <= self.start_ts <= MAX_TS,
            0 < self.duration <= MAX_TS,
            spec_exceptions_wf(self.exceptions@),
            0 <= view.spec_start() < view.spec_end() <= MAX_TS,
        ensures
            match r {
                Result::Ok(v) => {
                    &&& (match self.recurrence {
                        Option::Some(rule) => spec_rule_valid(rule),
                        Option::None => true,
                    })
                    &&& spec_sorted_by_start(v@)
                    &&& v@.to_multiset() == spec_expand(*self, *view).to_multiset()
                    &&& forall|i: int|
                        0 <= i < v@.len() ==> (spec_intersects(
                            (#[trigger] v@[i]).start_ts as int,
                            v@[i].end_ts as int,
                            view.spec_start(),
                            view.spec_end(),
                        ) && v@[i].start_ts < v@[i].end_ts)
                    &&& (self.recurrence is None ==> v@ == spec_expand(*self, *view))
                },
                Result::Err(e) => {
                    &&& e == CoreError::UnresolvableRecurrence
                    &&& (match self.recurrence {
                        Option::Some(rule) => !spec_rule_valid(rule),
                        Option::None => false,
                    })
                },
            },
    {
        match &self.recurrence {
            Option::None => {
                let mut v: Vec<EventInstance> = Vec::new();
                let end: i64 = self.start_ts + self.duration;
                if self.start_ts < view.end_ts() && end > view.start_ts() {
                    v.push(EventInstance { start_ts: self.start_ts, end_ts: end });
                }
                proof {
                    assert(v@ =~= spec_expand(*self, *view));
                }
                Result::Ok(v)
            },
            Option::Some(rule) => {
                let occs: Vec<i64> = match evaluate(
                    self.start_ts,
                    rule,
                    view.start_ts(),
                    view.end_ts(),
                ) {
                    Result::Ok(o) => o,
                    Result::Err(e) => {
                        return Result::Err(e);
                    },
                };
                proof {
                    lemma_evaluate_sorted(
                        self.start_ts as int,
                        *rule,
                        view.spec_start(),
                        view.spec_end(),
                    );
                    assert(forall|k: int|
                        0 <= k < occs@.len() ==> ints_of(occs@)[k] == #[trigger] occs@[k] as int);
                }
                let ghost full = spec_expand(*self, *view);
                let ghost occ_ints = ints_of(occs@);
                let mut out: Vec<EventInstance> = Vec::new();
                proof {
                    assert(occ_ints.skip(0) =~= occ_ints);
                    assert(out@.to_multiset().add(
                        spec_expand_insts(
                            occ_ints,
                            self.exceptions@,
                            self.duration as int,
                            view.spec_start(),
                            view.spec_end(),
                        ).to_multiset(),
                    ) =~= full.to_multiset());
                }
                let mut i: usize = 0;
                while i < occs.len()
                    invariant
                        0 <= i <= occs@.len(),
                        0 <= self.start_ts <= MAX_TS,
                        0 < self.duration <= MAX_TS,
                        spec_exceptions_wf(self.exceptions@),
                        0 <= view.spec_start() < view.spec_end() <= MAX_TS,
                        self.recurrence == Option::Some(*rule),
                        occ_ints == ints_of(occs@),
                        occ_ints.len() == occs@.len(),
                        forall|k: int| 0 <= k < occs@.len() ==> 0 <= #[trigger] occs@[k] <= MAX_TS,
                        full == spec_expand(*self, *view),
                        spec_sorted_by_start(out@),
                        out@.to_multiset().add(
                            spec_expand_insts(
                                occ_ints.skip(i as int),
                                self.exceptions@,
                                self.duration as int,
                                view.spec_start(),
                                view.spec_end(),
                            ).to_multiset(),
                        ) == full.to_multiset(),
                    decreases occs@.len() - i,
                {
                    let occ: i64 = occs[i];
                    proof {
                        assert(occ_ints.skip(i as int)[0] == occ as int);
                        assert(occ_ints.skip(i as int).drop_first() =~= occ_ints.skip(
                            i as int + 1,
                        ));
                    }
                    let ghost suffix = occ_ints.skip(i as int);
                    let ghost rest = spec_expand_insts(
                        occ_ints.skip(i as int + 1),
                        self.exceptions@,
                        self.duration as int,
                        view.spec_start(),
                        view.spec_end(),
                    );
                    let ghost out_pre = out@;
                    let inst_opt: Option<EventInstance> = resolve_override(
                        &self.exceptions,
                        occ,
                        self.duration,
                    );
                    let mut kept: bool = false;
                    match inst_opt {
                        Option::Some(inst) => {
                            if inst.start_ts < view.end_ts() && inst.end_ts > view.start_ts() {
                                insert_sorted(&mut out, inst);
                                kept = true;
                                proof {
                                    assert(spec_expand_insts(
                                        suffix,
                                        self.exceptions@,
                                        self.duration as int,
                                        view.spec_start(),
                                        view.spec_end(),
                                    ) == seq![inst] + rest);
                                    vstd::seq_lib::lemma_multiset_commutative(seq![inst], rest);
                                    assert(seq![inst].to_multiset() =~= Multiset::<
                                        EventInstance,
                                    >::empty().insert(inst));
                                    assert(out@.to_multiset().add(rest.to_multiset())
                                        =~= out_pre.to_multiset().add(
                                        (seq![inst] + rest).to_multiset(),
                                    ));
                                }
                            } else {
                                proof {
                                    assert(spec_expand_insts(
                                        suffix,
                                        self.exceptions@,
                                        self.duration as int,
                                        view.spec_start(),
                                        view.spec_end(),
                                    ) == Seq::<EventInstance>::empty() + rest);
                                    assert(Seq::<EventInstance>::empty() + rest =~= rest);
                                }
                            }
                        },
                        Option::None => {
                            proof {
                                assert(spec_expand_insts(
                                    suffix,
                                    self.exceptions@,
                                    self.duration as int,
                                    view.spec_start(),
                                    view.spec_end(),
                                ) == Seq::<EventInstance>::empty() + rest);
                                assert(Seq::<EventInstance>::empty() + rest =~= rest);
                            }
                        },
                    }
                    i = i + 1;
                }
                proof {
                    assert(occ_ints.skip(occs@.len() as int) =~= Seq::<int>::empty());
                    assert(spec_expand_insts(
                        Seq::<int>::empty(),
                        self.exceptions@,
                        self.duration as int,
                        view.spec_start(),
                        view.spec_end(),
                    ).to_multiset() =~= Multiset::<EventInstance>::empty());
                    assert(out@.to_multiset().add(Multiset::<EventInstance>::empty())
                        =~= out@.to_multiset());
                    lemma_expand_insts_props(
                        occ_ints,
                        self.exceptions@,
                        self.duration as int,
                        view.spec_start(),
                        view.spec_end(),
                    );
                    assert forall|k: int|
                        0 <= k < out@.len() implies (spec_intersects(
                        (#[trigger] out@[k]).start_ts as int,
                        out@[k].end_ts as int,
                        view.spec_start(),
                        view.spec_end(),
                    ) && out@[k].start_ts < out@[k].end_ts) by {
                        assert(out@.contains(out@[k]));
                        assert(out@.to_multiset().contains(out@[k]));
                        assert(full.to_multiset().contains(out@[k]));
                        assert(full.contains(out@[k]));
                        let j = choose|j: int| 0 <= j < full.len() && full[j] == out@[k];
                        assert(spec_intersects(
                            full[j].start_ts as int,
                            full[j].end_ts as int,
                            view.spec_start(),
                            view.spec_end(),
                        ) && full[j].start_ts < full[j].end_ts);
                    }
                }
                Result::Ok(out)
            },
        }
    }
}

} // verus!
