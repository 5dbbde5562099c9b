use vstd::prelude::*;

use crate::errors::CoreError;
use crate::event::{spec_event_wf, CalendarEvent};
use crate::instant::MAX_TS;
use crate::recurrence::{evaluate, ints_of, lemma_evaluate_sorted, spec_evaluate};

verus! {

/// A persisted notification trigger: one row per occurrence and reminder
/// offset. Identity is assigned by the persistence collaborator; rows built
/// by the materializer leave it empty.
#[derive(Debug)]
pub struct Reminder {
    pub id: String,
    pub remind_at: i64,
    pub event_id: String,
    pub account_id: String,
}

/// How many rows a deletion removed.
#[derive(Clone, Copy, Debug, PartialEq, Eq, Structural)]
pub struct DeleteResult {
    pub deleted_count: u64,
}

/// Keeps rows whose trigger lies strictly after `t`.
pub open spec fn spec_after_pred(t: i64) -> spec_fn(Reminder) -> bool {
    |r: Reminder| r.remind_at > t
}

/// Selects rows whose trigger is at or before `t`.
pub open spec fn spec_at_or_before_pred(t: i64) -> spec_fn(Reminder) -> bool {
    |r: Reminder| r.remind_at <= t
}

/// Keeps rows of every event but the named one.
pub open spec fn spec_other_event_pred(eid: Seq<char>) -> spec_fn(Reminder) -> bool {
    |r: Reminder| r.event_id@ != eid
}

/// The reminder persistence: an ordered collection of rows. This store backs
/// the retention sweep and the per-event cascade delete.
pub struct ReminderRepo {
    rows: Vec<Reminder>,
}

impl ReminderRepo {
    pub closed spec fn rows(&self) -> Seq<Reminder> {
        self.rows@
    }

    pub fn new() -> (r: ReminderRepo)
        ensures
            r.rows().len() == 0,
    {
        ReminderRepo { rows: Vec::new() }
    }

    /// The stored rows, in insertion order.
    pub fn all_rows(&self) -> (r: &Vec<Reminder>)
        ensures
            r@ == self.rows(),
    {
        &self.rows
    }

    /// Appends a batch of rows; the in-memory store accepts every batch
    /// whole, so a retried batch is simply appended again.
    pub fn bulk_insert(&mut self, reminders: Vec<Reminder>) -> (r: Result<(), CoreError>)
        ensures
            r is Ok,
            final(self).rows() == old(self).rows() + reminders@,
    {
        let mut incoming: Vec<Reminder> = reminders;
        proof {
            assert(self.rows@ + incoming@.skip(0) =~= old(self).rows() + reminders@);
        }
        while incoming.len() > 0
            invariant
                self.rows@ + incoming@ == old(self).rows() + reminders@,
            decreases incoming@.len(),
        {
            let ghost rows_pre = self.rows@;
            let ghost inc_pre = incoming@;
            let head: Reminder = incoming.remove(0);
            self.rows.push(head);
            proof {
                assert(self.rows@ + incoming@ =~= rows_pre + inc_pre);
            }
        }
        proof {
            assert(self.rows@ + incoming@ =~= self.rows@);
        }
        Result::Ok(())
    }

    /// The retention sweep: removes and returns exactly the rows whose
    /// trigger instant is at or before `before_inc`, keeping exactly those
    /// strictly after it. The removed rows are the dispatch payload; callers
    /// dispatch before acknowledging the delete.
    pub fn delete_all_before(&mut self, before_inc: i64) -> (removed: Vec<Reminder>)
        ensures
            final(self).rows() == old(self).rows().filter(spec_after_pred(before_inc)),
            removed@ == old(self).rows().filter(spec_at_or_before_pred(before_inc)),
    {
        let mut kept: Vec<Reminder> = Vec::new();
        let mut removed: Vec<Reminder> = Vec::new();
        let ghost orig = self.rows@;
        let ghost mut done: int = 0;
        proof {
            assert(orig.take(0) =~= Seq::<Reminder>::empty());
            assert(orig.take(0).filter(spec_after_pred(before_inc)) =~= Seq::<Reminder>::empty());
            assert(orig.take(0).filter(spec_at_or_before_pred(before_inc)) =~= Seq::<
                Reminder,
            >::empty());
            assert(orig.take(0) + self.rows@ =~= orig);
        }
        while self.rows.len() > 0
            invariant
                0 <= done <= orig.len(),
                orig.take(done) + self.rows@ == orig,
                self.rows@.len() == orig.len() - done,
                kept@ == orig.take(done).filter(spec_after_pred(before_inc)),
                removed@ == orig.take(done).filter(spec_at_or_before_pred(before_inc)),
            decreases self.rows@.len(),
        {
            let row: Reminder = self.rows.remove(0);
            proof {
                assert(orig[done] == row);
                assert(orig.take(done + 1) =~= orig.take(done).push(orig[done]));
                assert(orig.take(done + 1) + self.rows@ =~= orig);
                orig.take(done).lemma_filter_push(orig[done], spec_after_pred(before_inc));
                orig.take(done).lemma_filter_push(
                    orig[done],
                    spec_at_or_before_pred(before_inc),
                );
            }
            if row.remind_at <= before_inc {
                removed.push(row);
            } else {
                kept.push(row);
            }
            proof {
                done = done + 1;
            }
        }
        proof {
            assert(orig.take(done) =~= orig);
        }
        self.rows = kept;
        removed
    }

    /// Cascade delete on event deletion: removes every row of the event,
    /// unconditionally; rows of other events stay untouched.
    pub fn delete_by_event(&mut self, event_id: &String) -> (r: DeleteResult)
        ensures
            final(self).rows() == old(self).rows().filter(spec_other_event_pred(event_id@)),
            r.deleted_count == old(self).rows().len() - final(self).rows().len(),
    {
        let mut kept: Vec<Reminder> = Vec::new();
        let ghost orig = self.rows@;
        let ghost mut done: int = 0;
        let n: usize = self.rows.len();
        proof {
            assert(orig.take(0) =~= Seq::<Reminder>::empty());
            assert(orig.take(0).filter(spec_other_event_pred(event_id@)) =~= Seq::<
                Reminder,
            >::empty());
            assert(orig.take(0) + self.rows@ =~= orig);
        }
        while self.rows.len() > 0
            invariant
                0 <= done <= orig.len(),
                orig.take(done) + self.rows@ == orig,
                self.rows@.len() == orig.len() - done,
                kept@ == orig.take(done).filter(spec_other_event_pred(event_id@)),
                kept@.len() <= done,
            decreases self.rows@.len(),
        {
            let row: Reminder = self.rows.remove(0);
            proof {
                assert(orig[done] == row);
                assert(orig.take(done + 1) =~= orig.take(done).push(orig[done]));
                assert(orig.take(done + 1) + self.rows@ =~= orig);
                orig.take(done).lemma_filter_push(
                    orig[done],
                    spec_other_event_pred(event_id@),
                );
            }
            if !(row.event_id == *event_id) {
                kept.push(row);
            }
            proof {
                done = done + 1;
            }
        }
        proof {
            assert(orig.take(done) =~= orig);
        }
        let count: usize = n - kept.len();
        self.rows = kept;
        DeleteResult { deleted_count: count as u64 }
    }
}

/// Law: the retention sweep is exact — no removed row triggers after `t`,
/// every row triggering at or before `t` is removed, and symmetrically for
/// the kept rows.
pub proof fn lemma_retention_sweep_exact(rows: Seq<Reminder>, t: i64)
    ensures
        forall|i: int|
            0 <= i < rows.filter(spec_at_or_before_pred(t)).len() ==> (#[trigger] rows.filter(
                spec_at_or_before_pred(t),
            )[i]).remind_at <= t,
        forall|i: int|
            0 <= i < rows.len() && (#[trigger] rows[i]).remind_at <= t ==> rows.filter(
                spec_at_or_before_pred(t),
            ).contains(rows[i]),
        forall|i: int|
            0 <= i < rows.filter(spec_after_pred(t)).len() ==> (#[trigger] rows.filter(
                spec_after_pred(t),
            )[i]).remind_at > t,
        forall|i: int|
            0 <= i < rows.len() && (#[trigger] rows[i]).remind_at > t ==> rows.filter(
                spec_after_pred(t),
            ).contains(rows[i]),
{
    assert forall|i: int|
        0 <= i < rows.filter(spec_at_or_before_pred(t)).len() implies (#[trigger] rows.filter(
        spec_at_or_before_pred(t),
    )[i]).remind_at <= t by {
        rows.lemma_filter_pred(spec_at_or_before_pred(t), i);
    }
    assert forall|i: int|
        0 <= i < rows.len() && (#[trigger] rows[i]).remind_at <= t implies rows.filter(
        spec_at_or_before_pred(t),
    ).contains(rows[i]) by {
        rows.lemma_filter_contains(spec_at_or_before_pred(t), i);
    }
    assert forall|i: int|
        0 <= i < rows.filter(spec_after_pred(t)).len() implies (#[trigger] rows.filter(
        spec_after_pred(t),
    )[i]).remind_at > t by {
        rows.lemma_filter_pred(spec_after_pred(t), i);
    }
    assert forall|i: int|
        0 <= i < rows.len() && (#[trigger] rows[i]).remind_at > t implies rows.filter(
        spec_after_pred(t),
    ).contains(rows[i]) by {
        rows.lemma_filter_contains(spec_after_pred(t), i);
    }
}

/// The persisted boundary up to which an event's reminders have been
/// materialized.
#[derive(Debug)]
pub struct ExpansionWatermark {
    pub event_id: String,
    pub expanded_until: i64,
}

/// First-match lookup by event id.
pub open spec fn spec_lookup(s: Seq<ExpansionWatermark>, eid: Seq<char>) -> Option<i64>
    decreases s.len(),
{
    if s.len() == 0 {
        Option::None
    } else if s[0].event_id@ == eid {
        Option::Some(s[0].expanded_until)
    } else {
        spec_lookup(s.drop_first(), eid)
    }
}

proof fn lemma_lookup_no_match(s: Seq<ExpansionWatermark>, eid: Seq<char>)
    requires
        forall|i: int| 0 <= i < s.len() ==> (#[trigger] s[i]).event_id@ != eid,
    ensures
        spec_lookup(s, eid) is None,
    decreases s.len(),
{
    if s.len() == 0 {
    } else {
        assert(forall|i: int|
            0 <= i < s.drop_first().len() ==> s.drop_first()[i] == s[i + 1]);
        lemma_lookup_no_match(s.drop_first(), eid);
    }
}

proof fn lemma_lookup_update_first(
    s: Seq<ExpansionWatermark>,
    k: int,
    entry: ExpansionWatermark,
)
    requires
        0 <= k < s.len(),
        forall|j: int| 0 <= j < k ==> (#[trigger] s[j]).event_id@ != entry.event_id@,
        s[k].event_id@ == entry.event_id@,
    ensures
        spec_lookup(s.update(k, entry), entry.event_id@) == Option::Some(entry.expanded_until),
        forall|other: Seq<char>|
            other != entry.event_id@ ==> #[trigger] spec_lookup(s.update(k, entry), other)
                == spec_lookup(s, other),
    decreases s.len(),
{
    if k == 0 {
        assert(s.update(0, entry)[0] == entry);
        assert forall|other: Seq<char>|
            other != entry.event_id@ implies #[trigger] spec_lookup(s.update(0, entry), other)
            == spec_lookup(s, other) by {
            assert(s.update(0, entry).drop_first() =~= s.drop_first());
        }
    } else {
        assert(s.update(k, entry).drop_first() =~= s.drop_first().update(k - 1, entry));
        assert(forall|j: int|
            0 <= j < k - 1 ==> s.drop_first()[j] == s[j + 1]);
        lemma_lookup_update_first(s.drop_first(), k - 1, entry);
        assert(s.update(k, entry)[0] == s[0]);
        assert(s[0].event_id@ != entry.event_id@);
        assert(spec_lookup(s.update(k, entry), entry.event_id@) == spec_lookup(
            s.drop_first().update(k - 1, entry),
            entry.event_id@,
        ));
        assert forall|other: Seq<char>|
            other != entry.event_id@ implies #[trigger] spec_lookup(s.update(k, entry), other)
            == spec_lookup(s, other) by {
            if s[0].event_id@ == other {
            } else {
                assert(spec_lookup(s.update(k, entry), other) == spec_lookup(
                    s.drop_first().update(k - 1, entry),
                    other,
                ));
                assert(spec_lookup(s, other) == spec_lookup(s.drop_first(), other));
            }
        }
    }
}

proof fn lemma_lookup_push(s: Seq<ExpansionWatermark>, entry: ExpansionWatermark)
    requires
        forall|i: int| 0 <= i < s.len() ==> (#[trigger] s[i]).event_id@ != entry.event_id@,
    ensures
        spec_lookup(s.push(entry), entry.event_id@) == Option::Some(entry.expanded_until),
        forall|other: Seq<char>|
            other != entry.event_id@ ==> #[trigger] spec_lookup(s.push(entry), other)
                == spec_lookup(s, other),
    decreases s.len(),
{
    if s.len() == 0 {
        assert(s.push(entry)[0] == entry);
        assert forall|other: Seq<char>|
            other != entry.event_id@ implies #[trigger] spec_lookup(s.push(entry), other)
            == spec_lookup(s, other) by {
            assert(s.push(entry).drop_first() =~= Seq::<ExpansionWatermark>::empty());
            assert(spec_lookup(s.push(entry), other) == spec_lookup(
                Seq::<ExpansionWatermark>::empty(),
                other,
            ));
            assert(spec_lookup(Seq::<ExpansionWatermark>::empty(), other) is None);
            assert(spec_lookup(s, other) is None);
        }
    } else {
        assert(s.push(entry).drop_first() =~= s.drop_first().push(entry));
        assert(forall|i: int|
            0 <= i < s.drop_first().len() ==> s.drop_first()[i] == s[i + 1]);
        lemma_lookup_push(s.drop_first(), entry);
        assert(s.push(entry)[0] == s[0]);
        assert(s[0].event_id@ != entry.event_id@);
        assert(spec_lookup(s.push(entry), entry.event_id@) == spec_lookup(
            s.drop_first().push(entry),
            entry.event_id@,
        ));
        assert forall|other: Seq<char>|
            other != entry.event_id@ implies #[trigger] spec_lookup(s.push(entry), other)
            == spec_lookup(s, other) by {
            if s[0].event_id@ == other {
            } else {
                assert(spec_lookup(s.push(entry), other) == spec_lookup(
                    s.drop_first().push(entry),
                    other,
                ));
                assert(spec_lookup(s, other) == spec_lookup(s.drop_first(), other));
            }
        }
    }
}

/// The watermark persistence: one entry per event, advanced only through
/// compare-and-advance, so that per event there is a single writer at a time.
pub struct WatermarkStore {
    entries: Vec<ExpansionWatermark>,
}

impl WatermarkStore {
    pub closed spec fn entries(&self) -> Seq<ExpansionWatermark> {
        self.entries@
    }

    pub open spec fn spec_read(&self, eid: Seq<char>) -> Option<i64> {
        spec_lookup(self.entries(), eid)
    }

    pub fn new() -> (r: WatermarkStore)
        ensures
            r.entries().len() == 0,
    {
        WatermarkStore { entries: Vec::new() }
    }

    /// Index of the first entry of the event, with everything a caller needs
    /// to reason about first-match lookup.
    fn find_idx(&self, event_id: &String) -> (r: Option<usize>)
        ensures
            match r {
                Option::Some(k) => {
                    &&& 0 <= k < self.entries().len()
                    &&& self.entries()[k as int].event_id@ == event_id@
                    &&& forall|j: int|
                        0 <= j < k ==> (#[trigger] self.entries()[j]).event_id@ != event_id@
                    &&& self.spec_read(event_id@) == Option::Some(
                        self.entries()[k as int].expanded_until,
                    )
                },
                Option::None => self.spec_read(event_id@) is None,
            },
    {
        proof {
            assert(self.entries@.skip(0) =~= self.entries@);
        }
        let mut i: usize = 0;
        while i < self.entries.len()
            invariant
                0 <= i <= self.entries@.len(),
                forall|j: int| 0 <= j < i ==> (#[trigger] self.entries@[j]).event_id@ != event_id@,
                spec_lookup(self.entries@.skip(i as int), event_id@) == spec_lookup(
                    self.entries@,
                    event_id@,
                ),
            decreases self.entries@.len() - i,
        {
            proof {
                assert(self.entries@.skip(i as int)[0] == self.entries@[i as int]);
                assert(self.entries@.skip(i as int).drop_first() =~= self.entries@.skip(
                    i as int + 1,
                ));
            }
            if self.entries[i].event_id == *event_id {
                return Option::Some(i);
            }
            i = i + 1;
        }
        proof {
            assert(self.entries@.skip(self.entries@.len() as int) =~= Seq::<
                ExpansionWatermark,
            >::empty());
        }
        Option::None
    }

    /// Reads the event's watermark, if one has been persisted.
    pub fn read(&self, event_id: &String) -> (r: Option<i64>)
        ensures
            r == self.spec_read(event_id@),
    {
        match self.find_idx(event_id) {
            Option::Some(k) => Option::Some(self.entries[k].expanded_until),
            Option::None => Option::None,
        }
    }

    /// Optimistic advance: succeeds only when the persisted watermark still
    /// equals `expected`; a concurrent advance that got there first surfaces
    /// as `ExpansionConflict` and the caller re-reads and retries. On success
    /// the event's watermark is `new_until` and no other event's entry moves.
    pub fn compare_and_advance(
        &mut self,
        event_id: &String,
        expected: Option<i64>,
        new_until: i64,
    ) -> (r: Result<(), CoreError>)
        ensures
            match r {
                Result::Ok(_) => {
                    &&& expected == old(self).spec_read(event_id@)
                    &&& final(self).spec_read(event_id@) == Option::Some(new_until)
                    &&& forall|other: Seq<char>|
                        other != event_id@ ==> #[trigger] final(self).spec_read(other) == old(
                            self,
                        ).spec_read(other)
                },
                Result::Err(e) => {
                    &&& e == CoreError::ExpansionConflict
                    &&& expected != old(self).spec_read(event_id@)
                    &&& *final(self) == *old(self)
                },
            },
    {
        let current: Option<i64> = self.read(event_id);
        let matches_expected: bool = match (&expected, &current) {
            (Option::Some(a), Option::Some(b)) => *a == *b,
            (Option::None, Option::None) => true,
            _ => false,
        };
        if !matches_expected {
            return Result::Err(CoreError::ExpansionConflict);
        }
        match self.find_idx(event_id) {
            Option::Some(k) => {
                let entry = ExpansionWatermark {
                    event_id: self.entries[k].event_id.clone(),
                    expanded_until: new_until,
                };
                proof {
                    lemma_lookup_update_first(self.entries@, k as int, entry);
                }
                self.entries.set(k, entry);
            },
            Option::None => {
                let entry = ExpansionWatermark {
                    event_id: event_id.clone(),
                    expanded_until: new_until,
                };
                proof {
                    assert forall|i: int|
                        0 <= i < self.entries@.len() implies (#[trigger] self.entries@[i]).event_id@
                        != entry.event_id@ by {
                        if self.entries@[i].event_id@ == entry.event_id@ {
                            lemma_lookup_some_when_match(self.entries@, i, event_id@);
                        }
                    }
                    lemma_lookup_push(self.entries@, entry);
                }
                self.entries.push(entry);
            },
        }
        Result::Ok(())
    }

    /// Forgets the event's watermark entirely (event deleted, or recurrence
    /// reset): the next expansion starts over from the event's own start.
    pub fn remove(&mut self, event_id: &String)
        ensures
            final(self).spec_read(event_id@) is None,
    {
        let mut kept: Vec<ExpansionWatermark> = Vec::new();
        while self.entries.len() > 0
            invariant
                forall|j: int| 0 <= j < kept@.len() ==> (#[trigger] kept@[j]).event_id@ != event_id@,
            decreases self.entries@.len(),
        {
            let row: ExpansionWatermark = self.entries.remove(0);
            if !(row.event_id == *event_id) {
                kept.push(row);
            }
        }
        proof {
            lemma_lookup_no_match(kept@, event_id@);
        }
        self.entries = kept;
    }
}

/// If some entry carries the key, first-match lookup cannot be `None`.
proof fn lemma_lookup_some_when_match(s: Seq<ExpansionWatermark>, i: int, eid: Seq<char>)
    requires
        0 <= i < s.len(),
        s[i].event_id@ == eid,
    ensures
        spec_lookup(s, eid) is Some,
    decreases s.len(),
{
    if s[0].event_id@ == eid {
    } else {
        assert(s.drop_first()[i - 1] == s[i]);
        lemma_lookup_some_when_match(s.drop_first(), i - 1, eid);
    }
}

/// The occurrence starts of an event inside `[lo, hi)`: the evaluated rule,
/// or the event's own start for a one-off event.
pub open spec fn spec_occ_starts(e: CalendarEvent, lo: int, hi: int) -> Seq<int> {
    match e.recurrence {
        Option::None => if lo <= e.start_ts < hi {
            seq![e.start_ts as int]
        } else {
            Seq::empty()
        },
        Option::Some(rule) => spec_evaluate(e.start_ts as int, rule, lo, hi),
    }
}

fn occ_starts(event: &CalendarEvent, lo: i64, hi: i64) -> (r: Vec<i64>)
    requires
        spec_event_wf(*event),
        0 <= lo,
        0 <= hi <= MAX_TS,
    ensures
        ints_of(r@) == spec_occ_starts(*event, lo as int, hi as int),
        forall|i: int| 0 <= i < r@.len() ==> 0 <= #[trigger] r@[i] <= MAX_TS,
{
    match &event.recurrence {
        Option::None => {
            let mut v: Vec<i64> = Vec::new();
            if lo <= event.start_ts && event.start_ts < hi {
                v.push(event.start_ts);
            }
            proof {
                assert(ints_of(v@) =~= spec_occ_starts(*event, lo as int, hi as int));
            }
            v
        },
        Option::Some(rule) => {
            let v: Vec<i64> = match evaluate(event.start_ts, rule, lo, hi) {
                Result::Ok(v) => v,
                Result::Err(_) => {
                    proof {
                        assert(false);
                    }
                    Vec::new()
                },
            };
            proof {
                lemma_evaluate_sorted(event.start_ts as int, *rule, lo as int, hi as int);
                assert forall|i: int| 0 <= i < v@.len() implies 0 <= #[trigger] v@[i]
                    <= MAX_TS by {
                    assert(ints_of(v@)[i] == v@[i] as int);
                }
            }
            v
        },
    }
}

/// One occurrence's trigger instants, one per reminder offset, in offset
/// order.
pub open spec fn spec_offsets_times(occ: int, offsets: Seq<i64>) -> Seq<int>
    decreases offsets.len(),
{
    if offsets.len() == 0 {
        Seq::empty()
    } else {
        seq![occ - offsets[0]] + spec_offsets_times(occ, offsets.drop_first())
    }
}

/// All trigger instants of the given occurrences: for every occurrence, for
/// every reminder offset, the instant `occurrence start - offset`.
pub open spec fn spec_remind_times(occs: Seq<int>, offsets: Seq<i64>) -> Seq<int>
    decreases occs.len(),
{
    if occs.len() == 0 {
        Seq::empty()
    } else {
        spec_offsets_times(occs[0], offsets) + spec_remind_times(occs.drop_first(), offsets)
    }
}

/// The trigger instants of a row list.
pub open spec fn spec_remind_ats(rows: Seq<Reminder>) -> Seq<int> {
    rows.map_values(|r: Reminder| r.remind_at as int)
}

/// What one materializer run produced: the rows to insert and the advanced
/// boundary.
pub struct ExpansionOutcome {
    pub rows: Vec<Reminder>,
    pub new_until: i64,
}

/// Whether a run starting from this watermark has anything left to do before
/// `target`.
pub open spec fn spec_needs_expansion(expanded_until: Option<i64>, target: int) -> bool {
    match expanded_until {
        Option::Some(wm) => wm < target,
        Option::None => true,
    }
}

/// Where a run resumes: at the watermark, but never before the event's own
/// first possible occurrence.
pub open spec fn spec_expansion_lo(e: CalendarEvent, expanded_until: Option<i64>) -> int {
    match expanded_until {
        Option::Some(wm) => if wm > e.start_ts {
            wm as int
        } else {
            e.start_ts as int
        },
        Option::None => e.start_ts as int,
    }
}

/// The `Expanding` transition of the materializer, as a pure function of the
/// event, its persisted watermark and the clock reading `now`: with the
/// watermark already at or past `target = now + horizon` it is a no-op (so
/// re-running with an unchanged `now` yields no duplicate rows and no
/// watermark movement); otherwise it yields one row per occurrence in
/// `[max(watermark, event start), target)` and reminder offset, and the
/// advanced boundary `target`. A failed insert later simply leaves the
/// watermark where it was; re-running recomputes the same rows.
pub fn run_expansion(
    event: &CalendarEvent,
    expanded_until: Option<i64>,
    now: i64,
    horizon: i64,
) -> (r: ExpansionOutcome)
    requires
        spec_event_wf(*event),
        0 <= now,
        0 < horizon,
        now + horizon <= MAX_TS,
    ensures
        ({
            let target = now + horizon;
            &&& (match expanded_until {
                Option::Some(wm) => wm >= target ==> (r.rows@.len() == 0 && r.new_until == wm),
                Option::None => true,
            })
            &&& (spec_needs_expansion(expanded_until, target as int) ==> {
                let times = spec_remind_times(
                    spec_occ_starts(
                        *event,
                        spec_expansion_lo(*event, expanded_until),
                        target as int,
                    ),
                    event.reminders@,
                );
                &&& r.new_until == target
                &&& spec_remind_ats(r.rows@) == times
                &&& forall|i: int|
                    0 <= i < r.rows@.len() ==> ((#[trigger] r.rows@[i]).event_id@ == event.id@
                        && r.rows@[i].account_id@ == event.account_id@ && r.rows@[i].id@
                        == Seq::<char>::empty())
            })
        }),
{
    let target: i64 = now + horizon;
    match expanded_until {
        Option::Some(wm) => {
            if wm >= target {
                return ExpansionOutcome { rows: Vec::new(), new_until: wm };
            }
        },
        Option::None => {},
    }
    let lo: i64 = match expanded_until {
        Option::Some(wm) => if wm > event.start_ts {
            wm
        } else {
            event.start_ts
        },
        Option::None => event.start_ts,
    };
    let occs: Vec<i64> = occ_starts(event, lo, target);
    let ghost whole = spec_remind_times(ints_of(occs@), event.reminders@);
    let mut rows: Vec<Reminder> = Vec::new();
    proof {
        assert(ints_of(occs@).skip(0) =~= ints_of(occs@));
        assert(spec_remind_ats(rows@) + whole =~= whole);
    }
    let mut k: usize = 0;
    while k < occs.len()
        invariant
            0 <= k <= occs@.len(),
            spec_event_wf(*event),
            forall|i: int| 0 <= i < occs@.len() ==> 0 <= #[trigger] occs@[i] <= MAX_TS,
            spec_remind_ats(rows@) + spec_remind_times(
                ints_of(occs@).skip(k as int),
                event.reminders@,
            ) == whole,
            forall|i: int|
                0 <= i < rows@.len() ==> ((#[trigger] rows@[i]).event_id@ == event.id@
                    && rows@[i].account_id@ == event.account_id@ && rows@[i].id@ == Seq::<
                    char,
                >::empty()),
        decreases occs@.len() - k,
    {
        let occ: i64 = occs[k];
        proof {
            assert(ints_of(occs@).skip(k as int)[0] == occ as int);
            assert(ints_of(occs@).skip(k as int).drop_first() =~= ints_of(occs@).skip(
                k as int + 1,
            ));
        }
        let ghost rest = spec_remind_times(ints_of(occs@).skip(k as int + 1), event.reminders@);
        let ghost rows_outer = rows@;
        proof {
            assert(event.reminders@.skip(0) =~= event.reminders@);
            assert(spec_remind_ats(rows@) + (spec_offsets_times(occ as int, event.reminders@)
                + rest) =~= whole);
        }
        let mut j: usize = 0;
        while j < event.reminders.len()
            invariant
                0 <= j <= event.reminders@.len(),
                spec_event_wf(*event),
                0 <= occ <= MAX_TS,
                spec_remind_ats(rows@) + (spec_offsets_times(
                    occ as int,
                    event.reminders@.skip(j as int),
                ) + rest) == whole,
                forall|i: int|
                    0 <= i < rows@.len() ==> ((#[trigger] rows@[i]).event_id@ == event.id@
                        && rows@[i].account_id@ == event.account_id@ && rows@[i].id@ == Seq::<
                        char,
                    >::empty()),
            decreases event.reminders@.len() - j,
        {
            let off: i64 = event.reminders[j];
            proof {
                assert(crate::event::spec_reminders_wf(event.reminders@));
                assert(0 <= event.reminders@[j as int] <= MAX_TS);
                assert(event.reminders@.skip(j as int)[0] == off);
                assert(event.reminders@.skip(j as int).drop_first() =~= event.reminders@.skip(
                    j as int + 1,
                ));
            }
            let ghost rows_pre = rows@;
            rows.push(
                Reminder {
                    id: String::new(),
                    remind_at: occ - off,
                    event_id: event.id.clone(),
                    account_id: event.account_id.clone(),
                },
            );
            proof {
                assert(spec_remind_ats(rows@) =~= spec_remind_ats(rows_pre).push(
                    (occ - off) as int,
                ));
                assert(spec_offsets_times(occ as int, event.reminders@.skip(j as int))
                    == seq![occ as int - off as int] + spec_offsets_times(
                    occ as int,
                    event.reminders@.skip(j as int + 1),
                ));
                assert(spec_remind_ats(rows@) + (spec_offsets_times(
                    occ as int,
                    event.reminders@.skip(j as int + 1),
                ) + rest) =~= spec_remind_ats(rows_pre) + (spec_offsets_times(
                    occ as int,
                    event.reminders@.skip(j as int),
                ) + rest));
            }
            j = j + 1;
        }
        proof {
            assert(event.reminders@.skip(event.reminders@.len() as int) =~= Seq::<i64>::empty());
            assert(spec_offsets_times(occ as int, Seq::<i64>::empty()) + rest =~= rest);
            assert(spec_remind_ats(rows@) + rest == whole);
        }
        k = k + 1;
    }
    proof {
        assert(ints_of(occs@).skip(occs@.len() as int) =~= Seq::<int>::empty());
        assert(spec_remind_times(Seq::<int>::empty(), event.reminders@) =~= Seq::<int>::empty());
        assert(spec_remind_ats(rows@) + Seq::<int>::empty() =~= spec_remind_ats(rows@));
    }
    ExpansionOutcome { rows, new_until: target }
}

/// One full `Expanding` step against the stores: read the watermark, run the
/// expansion, persist the batch, then advance the watermark with
/// compare-and-advance. Reading and advancing in one call cannot lose the
/// compare, so the step always succeeds and returns the new boundary; with
/// the watermark already at or past `now + horizon` it inserts nothing and
/// leaves the watermark untouched (the idempotent no-op re-run).
pub fn expanding_step(
    event: &CalendarEvent,
    watermarks: &mut WatermarkStore,
    reminders: &mut ReminderRepo,
    now: i64,
    horizon: i64,
) -> (r: Result<i64, CoreError>)
    requires
        spec_event_wf(*event),
        0 <= now,
        0 < horizon,
        now + horizon <= MAX_TS,
    ensures
        ({
            let target = now + horizon;
            let wm0 = old(watermarks).spec_read(event.id@);
            match r {
                Result::Ok(new_until) => {
                    &&& (!spec_needs_expansion(wm0, target as int) ==> (*final(reminders) == *old(
                        reminders,
                    ) && *final(watermarks) == *old(watermarks) && Option::Some(new_until)
                        == wm0))
                    &&& (spec_needs_expansion(wm0, target as int) ==> {
                        let times = spec_remind_times(
                            spec_occ_starts(*event, spec_expansion_lo(*event, wm0), target as int),
                            event.reminders@,
                        );
                        &&& new_until == target
                        &&& final(watermarks).spec_read(event.id@) == Option::Some(
                            (now + horizon) as i64,
                        )
                        &&& final(reminders).rows().len() == old(reminders).rows().len()
                            + times.len()
                        &&& spec_remind_ats(final(reminders).rows()) == spec_remind_ats(
                            old(reminders).rows(),
                        ) + times
                    })
                },
                Result::Err(_) => false,
            }
        }),
{
    let current: Option<i64> = watermarks.read(&event.id);
    let target: i64 = now + horizon;
    match current {
        Option::Some(wm) => {
            if wm >= target {
                return Result::Ok(wm);
            }
        },
        Option::None => {},
    }
    let outcome: ExpansionOutcome = run_expansion(event, current, now, horizon);
    let ghost rows_before = reminders.rows();
    let ghost batch = outcome.rows@;
    match reminders.bulk_insert(outcome.rows) {
        Result::Ok(_) => {},
        Result::Err(_) => {
            proof {
                assert(false);
            }
            return Result::Err(CoreError::ExpansionConflict);
        },
    }
    proof {
        assert(spec_remind_ats(reminders.rows()) =~= spec_remind_ats(rows_before)
            + spec_remind_ats(batch));
    }
    match watermarks.compare_and_advance(&event.id, current, target) {
        Result::Ok(_) => Result::Ok(outcome.new_until),
        Result::Err(_) => {
            proof {
                assert(false);
            }
            Result::Err(CoreError::ExpansionConflict)
        },
    }
}

/// What happened to an event.
#[derive(Clone, Copy, Debug, PartialEq, Eq, Structural)]
pub enum EventOperation {
    Created,
    Updated,
    Deleted,
}

/// The mutation hook the excluded write paths call: creation and every
/// recurrence-affecting update reset the event's watermark (the next
/// expansion job starts over from the event's own start), deletion purges
/// the event's reminder rows and its watermark, unconditionally.
pub fn on_event_changed(
    event: &CalendarEvent,
    op: EventOperation,
    watermarks: &mut WatermarkStore,
    reminders: &mut ReminderRepo,
)
    ensures
        final(watermarks).spec_read(event.id@) is None,
        match op {
            EventOperation::Deleted => final(reminders).rows() == old(reminders).rows().filter(
                spec_other_event_pred(event.id@),
            ),
            EventOperation::Created | EventOperation::Updated => *final(reminders) == *old(
                reminders,
            ),
        },
{
    watermarks.remove(&event.id);
    match op {
        EventOperation::Deleted => {
            let _ = reminders.delete_by_event(&event.id);
        },
        EventOperation::Created | EventOperation::Updated => {},
    }
}

} // verus!
