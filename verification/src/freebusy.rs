use vstd::prelude::*;

use crate::event::{spec_event_wf, spec_expand, CalendarEvent, CalendarView, EventInstance};
use crate::instant::MAX_TS;

verus! {

broadcast use vstd::seq_lib::group_to_multiset_ensures;

/// A busy span `[start, end)` of one calendar, free of event content.
#[derive(Clone, Copy, Debug, PartialEq, Eq, Structural)]
pub struct BusyInterval {
    pub start: i64,
    pub end: i64,
}

/// Every interval is non-empty.
pub open spec fn spec_intervals_wf(s: Seq<BusyInterval>) -> bool {
    forall|i: int| 0 <= i < s.len() ==> (#[trigger] s[i]).start < s[i].end
}

/// Ascending interval starts.
pub open spec fn spec_sorted_by_iv_start(s: Seq<BusyInterval>) -> bool {
    forall|i: int, j: int| 0 <= i < j < s.len() ==> s[i].start <= s[j].start
}

/// The shape of a merged result: non-empty intervals, and between two
/// neighbours a real gap — overlapping and touching spans have been fused.
pub open spec fn spec_disjoint_sorted(s: Seq<BusyInterval>) -> bool {
    &&& spec_intervals_wf(s)
    &&& forall|i: int, j: int|
        0 <= i && i + 1 == j && j < s.len() ==> (#[trigger] s[i]).end < (#[trigger] s[j]).start
}

/// An instant is busy under a set of intervals.
pub open spec fn spec_covers(s: Seq<BusyInterval>, t: int) -> bool {
    exists|iv: BusyInterval| s.contains(iv) && iv.start <= t < iv.end
}

/// An instant is busy under a set of event instances.
pub open spec fn spec_insts_cover(insts: Seq<EventInstance>, t: int) -> bool {
    exists|iv: EventInstance| insts.contains(iv) && iv.start_ts <= t < iv.end_ts
}

/// An instant is busy under some event of a calendar, inside a view.
pub open spec fn spec_events_cover(events: Seq<CalendarEvent>, view: CalendarView, t: int) -> bool {
    exists|i: int| 0 <= i < events.len() && spec_insts_cover(spec_expand(events[i], view), t)
}

/// Coverage only depends on which intervals are present, not on their order.
pub proof fn lemma_covers_multiset(a: Seq<BusyInterval>, b: Seq<BusyInterval>)
    requires
        a.to_multiset() == b.to_multiset(),
    ensures
        forall|t: int| #[trigger] spec_covers(a, t) == spec_covers(b, t),
{
    broadcast use vstd::seq_lib::group_to_multiset_ensures;

    assert forall|t: int| #[trigger] spec_covers(a, t) == spec_covers(b, t) by {
        if spec_covers(a, t) {
            let iv = choose|iv: BusyInterval| a.contains(iv) && iv.start <= t < iv.end;
            assert(a.to_multiset().contains(iv));
            assert(b.contains(iv));
        }
        if spec_covers(b, t) {
            let iv = choose|iv: BusyInterval| b.contains(iv) && iv.start <= t < iv.end;
            assert(b.to_multiset().contains(iv));
            assert(a.contains(iv));
        }
    }
}

/// Appending one interval adds exactly its span to the covered instants.
pub proof fn lemma_covers_push(s: Seq<BusyInterval>, iv: BusyInterval)
    ensures
        forall|t: int| #[trigger] spec_covers(s.push(iv), t) == (spec_covers(s, t) || (iv.start
            <= t < iv.end)),
{
    assert forall|t: int| #[trigger] spec_covers(s.push(iv), t) == (spec_covers(s, t) || (iv.start
        <= t < iv.end)) by {
        if spec_covers(s.push(iv), t) {
            let w = choose|w: BusyInterval| s.push(iv).contains(w) && w.start <= t < w.end;
            let k = choose|k: int| 0 <= k < s.push(iv).len() && s.push(iv)[k] == w;
            if k < s.len() {
                assert(s[k] == w);
                assert(s.contains(w));
            } else {
                assert(w == iv);
            }
        }
        if spec_covers(s, t) {
            let w = choose|w: BusyInterval| s.contains(w) && w.start <= t < w.end;
            let k = choose|k: int| 0 <= k < s.len() && s[k] == w;
            assert(s.push(iv)[k] == w);
            assert(s.push(iv).contains(w));
        }
        if iv.start <= t < iv.end {
            assert(s.push(iv)[s.len() as int] == iv);
            assert(s.push(iv).contains(iv));
        }
    }
}

/// Instance coverage only depends on which instances are present.
pub proof fn lemma_insts_cover_multiset(a: Seq<EventInstance>, b: Seq<EventInstance>)
    requires
        a.to_multiset() == b.to_multiset(),
    ensures
        forall|t: int| #[trigger] spec_insts_cover(a, t) == spec_insts_cover(b, t),
{
    broadcast use vstd::seq_lib::group_to_multiset_ensures;

    assert forall|t: int| #[trigger] spec_insts_cover(a, t) == spec_insts_cover(b, t) by {
        if spec_insts_cover(a, t) {
            let iv = choose|iv: EventInstance| a.contains(iv) && iv.start_ts <= t < iv.end_ts;
            assert(a.to_multiset().contains(iv));
            assert(b.contains(iv));
        }
        if spec_insts_cover(b, t) {
            let iv = choose|iv: EventInstance| b.contains(iv) && iv.start_ts <= t < iv.end_ts;
            assert(b.to_multiset().contains(iv));
            assert(a.contains(iv));
        }
    }
}

proof fn lemma_events_cover_take_step(events: Seq<CalendarEvent>, view: CalendarView, i: int)
    requires
        0 <= i < events.len(),
    ensures
        forall|t: int| #[trigger] spec_events_cover(events.take(i + 1), view, t) == (
        spec_events_cover(events.take(i), view, t) || spec_insts_cover(
            spec_expand(events[i], view),
            t,
        )),
{
    assert forall|t: int| #[trigger] spec_events_cover(events.take(i + 1), view, t) == (
    spec_events_cover(events.take(i), view, t) || spec_insts_cover(
        spec_expand(events[i], view),
        t,
    )) by {
        if spec_events_cover(events.take(i + 1), view, t) {
            let k = choose|k: int|
                0 <= k < events.take(i + 1).len() && #[trigger] spec_insts_cover(
                    spec_expand(events.take(i + 1)[k], view),
                    t,
                );
            if k < i {
                assert(events.take(i)[k] == events.take(i + 1)[k]);
            } else {
                assert(events.take(i + 1)[k] == events[i]);
            }
        }
        if spec_events_cover(events.take(i), view, t) {
            let k = choose|k: int|
                0 <= k < events.take(i).len() && #[trigger] spec_insts_cover(
                    spec_expand(events.take(i)[k], view),
                    t,
                );
            assert(events.take(i + 1)[k] == events.take(i)[k]);
        }
        if spec_insts_cover(spec_expand(events[i], view), t) {
            assert(events.take(i + 1)[i] == events[i]);
        }
    }
}

/// Law: the merged shape is canonical. Two gap-separated sorted interval
/// sets that cover the same instants are the same set, so the coverage
/// clause of [`merge_busy`] pins its result completely — it is the minimal
/// interval set busy exactly where the input is.
#[verifier::rlimit(80)]
pub proof fn lemma_disjoint_sorted_unique(a: Seq<BusyInterval>, b: Seq<BusyInterval>)
    requires
        spec_disjoint_sorted(a),
        spec_disjoint_sorted(b),
        forall|t: int| #[trigger] spec_covers(a, t) == spec_covers(b, t),
    ensures
        a == b,
    decreases a.len(),
{
    if a.len() == 0 {
        if b.len() > 0 {
            assert(b.contains(b[0]));
            assert(spec_covers(b, b[0].start as int));
            assert(spec_covers(a, b[0].start as int));
            let iv = choose|iv: BusyInterval| a.contains(iv) && iv.start <= (b[0].start as int) < iv.end;
            assert(false);
        }
        assert(a =~= b);
    } else if b.len() == 0 {
        assert(a.contains(a[0]));
        assert(spec_covers(a, a[0].start as int));
        assert(spec_covers(b, a[0].start as int));
        let iv = choose|iv: BusyInterval| b.contains(iv) && iv.start <= (a[0].start as int) < iv.end;
        assert(false);
    } else {
        // Heads agree: each head's start is its side's least covered
        // instant, and each head's end is the first uncovered instant after
        // that.
        lemma_head_low(a);
        lemma_head_low(b);
        assert(a.contains(a[0]));
        assert(spec_covers(a, a[0].start as int));
        assert(spec_covers(b, a[0].start as int));
        assert(b.contains(b[0]));
        assert(spec_covers(b, b[0].start as int));
        assert(spec_covers(a, b[0].start as int));
        assert(b[0].start <= a[0].start) by {
            let iv = choose|iv: BusyInterval| b.contains(iv) && iv.start <= (a[0].start as int) < iv.end;
            let k = choose|k: int| 0 <= k < b.len() && b[k] == iv;
            lemma_tail_start(b, k);
        }
        assert(a[0].start <= b[0].start) by {
            let iv = choose|iv: BusyInterval| a.contains(iv) && iv.start <= (b[0].start as int) < iv.end;
            let k = choose|k: int| 0 <= k < a.len() && a[k] == iv;
            lemma_tail_start(a, k);
        }
        assert(a[0].start == b[0].start);
        if a[0].end < b[0].end {
            assert(b[0].start <= a[0].end < b[0].end);
            assert(spec_covers(b, a[0].end as int));
            assert(!spec_covers(a, a[0].end as int)) by {
                lemma_gap_uncovered(a, a[0].end as int);
            }
            assert(false);
        }
        if b[0].end < a[0].end {
            assert(a[0].start <= b[0].end < a[0].end);
            assert(spec_covers(a, b[0].end as int));
            assert(!spec_covers(b, b[0].end as int)) by {
                lemma_gap_uncovered(b, b[0].end as int);
            }
            assert(false);
        }
        assert(a[0] == b[0]);
        // The rests cover the same instants: the heads cover instants below
        // their shared end, the rests only instants above it.
        assert(forall|i: int|
            0 <= i < a.drop_first().len() ==> a.drop_first()[i] == a[i + 1]);
        assert(forall|i: int|
            0 <= i < b.drop_first().len() ==> b.drop_first()[i] == b[i + 1]);
        assert forall|t: int| #[trigger] spec_covers(a.drop_first(), t) == spec_covers(
            b.drop_first(),
            t,
        ) by {
            lemma_rest_covers(a, t);
            lemma_rest_covers(b, t);
        }
        lemma_disjoint_sorted_unique(a.drop_first(), b.drop_first());
        assert forall|i: int| 1 <= i < a.len() implies a[i] == b[i] by {
            assert(a.drop_first()[i - 1] == a[i]);
            assert(b.drop_first()[i - 1] == b[i]);
        }
        assert(a =~= b);
    }
}

/// In a gap-separated sorted set, every interval past the head starts after
/// the head's start.
proof fn lemma_tail_start(s: Seq<BusyInterval>, k: int)
    requires
        spec_disjoint_sorted(s),
        0 <= k < s.len(),
    ensures
        s[0].start <= s[k].start,
    decreases k,
{
    if k > 0 {
        lemma_tail_start(s, k - 1);
        assert(s[k - 1].end < s[k].start);
    }
}

/// No interval of a gap-separated sorted set reaches below the head's start.
proof fn lemma_head_low(s: Seq<BusyInterval>)
    requires
        spec_disjoint_sorted(s),
        s.len() > 0,
    ensures
        forall|t: int| t < s[0].start ==> !spec_covers(s, t),
{
    assert forall|t: int| t < s[0].start implies !spec_covers(s, t) by {
        if spec_covers(s, t) {
            let iv = choose|iv: BusyInterval| s.contains(iv) && iv.start <= t < iv.end;
            let k = choose|k: int| 0 <= k < s.len() && s[k] == iv;
            lemma_tail_start(s, k);
        }
    }
}

/// The instant right at the head's end of a gap-separated sorted set is not
/// covered: the head stops there and everything later starts further on.
#[verifier::rlimit(80)]
proof fn lemma_gap_uncovered(s: Seq<BusyInterval>, t: int)
    requires
        spec_disjoint_sorted(s),
        s.len() > 0,
        t == s[0].end,
    ensures
        !spec_covers(s, t),
{
    if spec_covers(s, t) {
        let iv = choose|iv: BusyInterval| s.contains(iv) && iv.start <= t < iv.end;
        let k = choose|k: int| 0 <= k < s.len() && s[k] == iv;
        if k > 0 {
            lemma_end_chain(s, k - 1);
            assert(s[k - 1].end < s[k].start);
        }
    }
}

/// Starts grow along a gap-separated sorted set.
proof fn lemma_start_chain(s: Seq<BusyInterval>, j: int, k: int)
    requires
        spec_disjoint_sorted(s),
        0 <= j <= k < s.len(),
    ensures
        s[j].start <= s[k].start,
    decreases k - j,
{
    if k > j {
        lemma_start_chain(s, j, k - 1);
        assert(s[k - 1].end < s[k].start);
    }
}

/// Ends grow along a gap-separated sorted set.
proof fn lemma_end_chain(s: Seq<BusyInterval>, k: int)
    requires
        spec_disjoint_sorted(s),
        0 <= k < s.len(),
    ensures
        s[0].end <= s[k].end,
    decreases k,
{
    if k > 0 {
        lemma_end_chain(s, k - 1);
        assert(s[k - 1].end < s[k].start);
    }
}

/// Past the head's end, coverage of the whole set and of its rest agree; at
/// or below it, the rest covers nothing.
#[verifier::rlimit(80)]
proof fn lemma_rest_covers(s: Seq<BusyInterval>, t: int)
    requires
        spec_disjoint_sorted(s),
        s.len() > 0,
    ensures
        t > s[0].end ==> spec_covers(s.drop_first(), t) == spec_covers(s, t),
        t <= s[0].end ==> !spec_covers(s.drop_first(), t),
{
    assert(forall|i: int|
        0 <= i < s.drop_first().len() ==> s.drop_first()[i] == s[i + 1]);
    if t <= s[0].end {
        if spec_covers(s.drop_first(), t) {
            let iv = choose|iv: BusyInterval|
                s.drop_first().contains(iv) && iv.start <= t < iv.end;
            let k = choose|k: int| 0 <= k < s.drop_first().len() && s.drop_first()[k] == iv;
            lemma_start_chain(s, 1, k + 1);
            assert(s[0].end < s[1].start);
        }
    } else {
        if spec_covers(s.drop_first(), t) {
            let iv = choose|iv: BusyInterval|
                s.drop_first().contains(iv) && iv.start <= t < iv.end;
            let k = choose|k: int| 0 <= k < s.drop_first().len() && s.drop_first()[k] == iv;
            assert(s[k + 1] == iv);
            assert(s.contains(iv));
        }
        if spec_covers(s, t) {
            let iv = choose|iv: BusyInterval| s.contains(iv) && iv.start <= t < iv.end;
            let k = choose|k: int| 0 <= k < s.len() && s[k] == iv;
            if k == 0 {
                assert(false);
            } else {
                assert(s.drop_first()[k - 1] == iv);
                assert(s.drop_first().contains(iv));
            }
        }
    }
}

/// Inserts an interval into a start-sorted list, keeping it sorted.
fn insert_interval_sorted(out: &mut Vec<BusyInterval>, iv: BusyInterval)
    requires
        spec_sorted_by_iv_start(old(out)@),
    ensures
        spec_sorted_by_iv_start(final(out)@),
        final(out)@.to_multiset() == old(out)@.to_multiset().insert(iv),
        final(out)@.len() == old(out)@.len() + 1,
{
    let mut i: usize = out.len();
    while i > 0 && out[i - 1].start > iv.start
        invariant
            0 <= i <= out@.len(),
            out@ == old(out)@,
            spec_sorted_by_iv_start(out@),
            forall|k: int| i <= k < out@.len() ==> (#[trigger] out@[k]).start > iv.start,
        decreases i,
    {
        i = i - 1;
    }
    proof {
        vstd::seq_lib::to_multiset_insert(out@, i as int, iv);
    }
    out.insert(i, iv);
}

/// Orders intervals by start ascending (ties keep their arrival order).
fn sort_intervals(input: &Vec<BusyInterval>) -> (r: Vec<BusyInterval>)
    ensures
        spec_sorted_by_iv_start(r@),
        r@.to_multiset() == input@.to_multiset(),
        r@.len() == input@.len(),
{
    let mut r: Vec<BusyInterval> = Vec::new();
    proof {
        assert(input@.take(0) =~= Seq::<BusyInterval>::empty());
        assert(r@.to_multiset() =~= input@.take(0).to_multiset());
    }
    let mut i: usize = 0;
    while i < input.len()
        invariant
            0 <= i <= input@.len(),
            spec_sorted_by_iv_start(r@),
            r@.to_multiset() == input@.take(i as int).to_multiset(),
            r@.len() == i,
        decreases input@.len() - i,
    {
        insert_interval_sorted(&mut r, input[i]);
        proof {
            assert(input@.take(i as int + 1) =~= input@.take(i as int).push(input@[i as int]));
        }
        i = i + 1;
    }
    proof {
        assert(input@.take(input@.len() as int) =~= input@);
    }
    r
}

/// Collapses possibly-overlapping busy intervals into the minimal sorted
/// disjoint set covering exactly the same instants: sort by start, then sweep
/// left to right, fusing a candidate into the current span whenever it starts
/// at or before the span's end (so touching spans coalesce). Zero input
/// intervals yield an empty result, not an error.
pub fn merge_busy(input: &Vec<BusyInterval>) -> (r: Vec<BusyInterval>)
    requires
        spec_intervals_wf(input@),
    ensures
        spec_disjoint_sorted(r@),
        forall|t: int| #[trigger] spec_covers(r@, t) == spec_covers(input@, t),
        input@.len() == 0 ==> r@.len() == 0,
        r@.len() <= input@.len(),
{
    let sorted: Vec<BusyInterval> = sort_intervals(input);
    proof {
        lemma_covers_multiset(sorted@, input@);
        assert forall|k: int| 0 <= k < sorted@.len() implies (#[trigger] sorted@[k]).start
            < sorted@[k].end by {
            assert(sorted@.contains(sorted@[k]));
            assert(sorted@.to_multiset().contains(sorted@[k]));
            assert(input@.contains(sorted@[k]));
            let j = choose|j: int| 0 <= j < input@.len() && input@[j] == sorted@[k];
            assert(input@[j].start < input@[j].end);
        }
    }
    let mut out: Vec<BusyInterval> = Vec::new();
    if sorted.len() == 0 {
        proof {
            assert forall|t: int| #[trigger] spec_covers(out@, t) == spec_covers(
                sorted@,
                t,
            ) by {
                if spec_covers(out@, t) {
                    let iv = choose|iv: BusyInterval| out@.contains(iv) && iv.start <= t < iv.end;
                }
                if spec_covers(sorted@, t) {
                    let iv = choose|iv: BusyInterval|
                        sorted@.contains(iv) && iv.start <= t < iv.end;
                }
            }
        }
        return out;
    }
    let mut cur: BusyInterval = sorted[0];
    proof {
        assert(sorted@.take(1) =~= Seq::<BusyInterval>::empty().push(sorted@[0]));
        lemma_covers_push(Seq::<BusyInterval>::empty(), sorted@[0]);
        assert forall|t: int| #[trigger] spec_covers(sorted@.take(1), t) == (spec_covers(out@, t)
            || (cur.start <= t < cur.end)) by {
            if spec_covers(out@, t) {
                let iv = choose|iv: BusyInterval| out@.contains(iv) && iv.start <= t < iv.end;
            }
            if spec_covers(Seq::<BusyInterval>::empty(), t) {
                let iv = choose|iv: BusyInterval|
                    Seq::<BusyInterval>::empty().contains(iv) && iv.start <= t < iv.end;
            }
        }
    }
    let mut i: usize = 1;
    while i < sorted.len()
        invariant
            1 <= i <= sorted@.len(),
            spec_sorted_by_iv_start(sorted@),
            spec_intervals_wf(sorted@),
            cur.start < cur.end,
            spec_disjoint_sorted(out@),
            out@.len() < i,
            forall|k: int| 0 <= k < out@.len() ==> (#[trigger] out@[k]).end < cur.start,
            forall|k: int| i <= k < sorted@.len() ==> (#[trigger] sorted@[k]).start >= cur.start,
            forall|t: int| #[trigger] spec_covers(sorted@.take(i as int), t) == (spec_covers(
                out@,
                t,
            ) || (cur.start <= t < cur.end)),
        decreases sorted@.len() - i,
    {
        let nxt: BusyInterval = sorted[i];
        let ghost out_pre = out@;
        let ghost cur_pre = cur;
        proof {
            assert(sorted@.take(i as int + 1) =~= sorted@.take(i as int).push(
                sorted@[i as int],
            ));
            lemma_covers_push(sorted@.take(i as int), sorted@[i as int]);
        }
        if nxt.start <= cur.end {
            if nxt.end > cur.end {
                cur.end = nxt.end;
            }
            proof {
                assert forall|t: int| #[trigger] spec_covers(sorted@.take(i as int + 1), t) == (
                spec_covers(out@, t) || (cur.start <= t < cur.end)) by {}
            }
        } else {
            out.push(cur);
            cur = nxt;
            proof {
                lemma_covers_push(out_pre, cur_pre);
                assert forall|t: int| #[trigger] spec_covers(sorted@.take(i as int + 1), t) == (
                spec_covers(out@, t) || (cur.start <= t < cur.end)) by {}
            }
        }
        i = i + 1;
    }
    let ghost out_pre = out@;
    out.push(cur);
    proof {
        assert(sorted@.take(sorted@.len() as int) =~= sorted@);
        lemma_covers_push(out_pre, cur);
        assert forall|t: int| #[trigger] spec_covers(out@, t) == spec_covers(input@, t) by {
            assert(spec_covers(sorted@.take(sorted@.len() as int), t) == (spec_covers(
                out_pre,
                t,
            ) || (cur.start <= t < cur.end)));
            assert(spec_covers(out@, t) == (spec_covers(out_pre, t) || (cur.start <= t
                < cur.end)));
            assert(spec_covers(sorted@, t) == spec_covers(input@, t));
        }
    }
    out
}

/// The sources an availability query draws on, per calendar: local events the
/// engine expands itself, or the busy spans a synced external source reported
/// (`None` when the source was unavailable).
pub enum BusySource {
    Local(Vec<CalendarEvent>),
    Synced(Option<Vec<BusyInterval>>),
}

/// One calendar's part of an availability answer. A calendar whose external
/// source was unavailable is reported empty-but-unavailable (fail-closed),
/// never silently free.
pub struct CalendarBusy {
    pub calendar_id: String,
    pub available: bool,
    pub intervals: Vec<BusyInterval>,
}

/// All events of every local source are well-formed and every synced span is
/// a real interval.
pub open spec fn spec_sources_wf(cals: Seq<(String, BusySource)>) -> bool {
    forall|i: int|
        0 <= i < cals.len() ==> (match (#[trigger] cals[i]).1 {
            BusySource::Local(events) => forall|j: int|
                0 <= j < events@.len() ==> spec_event_wf(#[trigger] events@[j]),
            BusySource::Synced(Option::Some(ivs)) => spec_intervals_wf(ivs@),
            BusySource::Synced(Option::None) => true,
        })
}

/// The merged busy intervals of one local calendar's events inside a view:
/// a minimal disjoint sorted set busy exactly where some instance of some
/// event is. A calendar with zero events yields an empty sequence.
pub fn busy_for_events(events: &Vec<CalendarEvent>, view: &CalendarView) -> (r: Vec<BusyInterval>)
    requires
        forall|j: int| 0 <= j < events@.len() ==> spec_event_wf(#[trigger] events@[j]),
        0 <= view.spec_start() < view.spec_end() <= MAX_TS,
    ensures
        spec_disjoint_sorted(r@),
        forall|t: int| #[trigger] spec_covers(r@, t) == spec_events_cover(events@, *view, t),
        events@.len() == 0 ==> r@.len() == 0,
{
    let mut cands: Vec<BusyInterval> = Vec::new();
    proof {
        assert(events@.take(0) =~= Seq::<CalendarEvent>::empty());
        assert forall|t: int| #[trigger] spec_covers(cands@, t) == spec_events_cover(
            events@.take(0),
            *view,
            t,
        ) by {
            if spec_covers(cands@, t) {
                let iv = choose|iv: BusyInterval| cands@.contains(iv) && iv.start <= t < iv.end;
            }
        }
    }
    let mut i: usize = 0;
    while i < events.len()
        invariant
            0 <= i <= events@.len(),
            forall|j: int| 0 <= j < events@.len() ==> spec_event_wf(#[trigger] events@[j]),
            0 <= view.spec_start() < view.spec_end() <= MAX_TS,
            spec_intervals_wf(cands@),
            i == 0 ==> cands@.len() == 0,
            forall|t: int| #[trigger] spec_covers(cands@, t) == spec_events_cover(
                events@.take(i as int),
                *view,
                t,
            ),
        decreases events@.len() - i,
    {
        let insts: Vec<EventInstance> = match events[i].expand(view) {
            Result::Ok(v) => v,
            Result::Err(_) => {
                proof {
                    assert(spec_event_wf(events@[i as int]));
                    assert(false);
                }
                Vec::new()
            },
        };
        proof {
            lemma_insts_cover_multiset(insts@, spec_expand(events@[i as int], *view));
        }
        let mut j: usize = 0;
        while j < insts.len()
            invariant
                0 <= j <= insts@.len(),
                forall|k: int|
                    0 <= k < insts@.len() ==> (#[trigger] insts@[k]).start_ts < insts@[k].end_ts,
                spec_intervals_wf(cands@),
                forall|t: int| #[trigger] spec_covers(cands@, t) == (spec_events_cover(
                    events@.take(i as int),
                    *view,
                    t,
                ) || spec_insts_cover(insts@.take(j as int), t)),
            decreases insts@.len() - j,
        {
            let inst: EventInstance = insts[j];
            let ghost cands_pre = cands@;
            cands.push(BusyInterval { start: inst.start_ts, end: inst.end_ts });
            proof {
                lemma_covers_push(
                    cands_pre,
                    BusyInterval { start: inst.start_ts, end: inst.end_ts },
                );
                assert(insts@.take(j as int + 1) =~= insts@.take(j as int).push(
                    insts@[j as int],
                ));
                assert forall|t: int| #[trigger] spec_covers(cands@, t) == (spec_events_cover(
                    events@.take(i as int),
                    *view,
                    t,
                ) || spec_insts_cover(insts@.take(j as int + 1), t)) by {
                    assert(cands@ == cands_pre.push(
                        BusyInterval { start: inst.start_ts, end: inst.end_ts },
                    ));
                    assert(spec_covers(
                        cands_pre.push(BusyInterval { start: inst.start_ts, end: inst.end_ts }),
                        t,
                    ) == (spec_covers(cands_pre, t) || (inst.start_ts <= t < inst.end_ts)));
                    if inst.start_ts <= t && t < inst.end_ts {
                        assert(insts@.take(j as int + 1)[j as int] == inst);
                        assert(insts@.take(j as int + 1).contains(inst));
                    }
                    if spec_insts_cover(insts@.take(j as int + 1), t) {
                        let w = choose|w: EventInstance|
                            #[trigger] insts@.take(j as int + 1).contains(w) && w.start_ts <= t
                                < w.end_ts;
                        let k = choose|k: int|
                            0 <= k < insts@.take(j as int + 1).len() && #[trigger] insts@.take(
                                j as int + 1,
                            )[k] == w;
                        if k < j {
                            assert(insts@.take(j as int)[k] == w);
                            assert(insts@.take(j as int).contains(w));
                        }
                    }
                    if spec_insts_cover(insts@.take(j as int), t) {
                        let w = choose|w: EventInstance|
                            #[trigger] insts@.take(j as int).contains(w) && w.start_ts <= t
                                < w.end_ts;
                        let k = choose|k: int|
                            0 <= k < insts@.take(j as int).len() && #[trigger] insts@.take(
                                j as int,
                            )[k] == w;
                        assert(insts@.take(j as int + 1)[k] == w);
                        assert(insts@.take(j as int + 1).contains(w));
                    }
                }
            }
            j = j + 1;
        }
        proof {
            assert(insts@.take(insts@.len() as int) =~= insts@);
            lemma_events_cover_take_step(events@, *view, i as int);
        }
        i = i + 1;
    }
    proof {
        assert(events@.take(events@.len() as int) =~= events@);
    }
    let r = merge_busy(&cands);
    proof {
        if events@.len() == 0 {
            assert(cands@.len() == 0);
        }
    }
    r
}

/// Availability across calendars: per calendar the merged disjoint busy set,
/// from locally expanded events or from what a synced source reported; an
/// unavailable source is reported as empty-but-unavailable, never as free
/// time fabricated from silence.
pub fn compute_busy(calendars: &Vec<(String, BusySource)>, view: &CalendarView) -> (r: Vec<
    CalendarBusy,
>)
    requires
        spec_sources_wf(calendars@),
        0 <= view.spec_start() < view.spec_end() <= MAX_TS,
    ensures
        r@.len() == calendars@.len(),
        forall|i: int|
            0 <= i < r@.len() ==> {
                &&& (#[trigger] r@[i]).calendar_id == calendars@[i].0
                &&& (match calendars@[i].1 {
                    BusySource::Local(events) => {
                        &&& r@[i].available
                        &&& spec_disjoint_sorted(r@[i].intervals@)
                        &&& forall|t: int| #[trigger] spec_covers(r@[i].intervals@, t)
                            == spec_events_cover(events@, *view, t)
                    },
                    BusySource::Synced(Option::Some(ivs)) => {
                        &&& r@[i].available
                        &&& spec_disjoint_sorted(r@[i].intervals@)
                        &&& forall|t: int| #[trigger] spec_covers(r@[i].intervals@, t)
                            == spec_covers(ivs@, t)
                    },
                    BusySource::Synced(Option::None) => {
                        &&& !r@[i].available
                        &&& r@[i].intervals@.len() == 0
                    },
                })
            },
{
    let mut r: Vec<CalendarBusy> = Vec::new();
    let mut i: usize = 0;
    while i < calendars.len()
        invariant
            0 <= i <= calendars@.len(),
            spec_sources_wf(calendars@),
            0 <= view.spec_start() < view.spec_end() <= MAX_TS,
            r@.len() == i,
            forall|k: int|
                0 <= k < i ==> {
                    &&& (#[trigger] r@[k]).calendar_id == calendars@[k].0
                    &&& (match calendars@[k].1 {
                        BusySource::Local(events) => {
                            &&& r@[k].available
                            &&& spec_disjoint_sorted(r@[k].intervals@)
                            &&& forall|t: int| #[trigger] spec_covers(r@[k].intervals@, t)
                                == spec_events_cover(events@, *view, t)
                        },
                        BusySource::Synced(Option::Some(ivs)) => {
                            &&& r@[k].available
                            &&& spec_disjoint_sorted(r@[k].intervals@)
                            &&& forall|t: int| #[trigger] spec_covers(r@[k].intervals@, t)
                                == spec_covers(ivs@, t)
                        },
                        BusySource::Synced(Option::None) => {
                            &&& !r@[k].available
                            &&& r@[k].intervals@.len() == 0
                        },
                    })
                },
        decreases calendars@.len() - i,
    {
        let cid: String = calendars[i].0.clone();
        proof {
            assert(spec_sources_wf(calendars@));
        }
        let entry: CalendarBusy = match &calendars[i].1 {
            BusySource::Local(events) => {
                let merged = busy_for_events(events, view);
                CalendarBusy { calendar_id: cid, available: true, intervals: merged }
            },
            BusySource::Synced(Option::Some(ivs)) => {
                let merged = merge_busy(ivs);
                CalendarBusy { calendar_id: cid, available: true, intervals: merged }
            },
            BusySource::Synced(Option::None) => {
                CalendarBusy { calendar_id: cid, available: false, intervals: Vec::new() }
            },
        };
        r.push(entry);
        i = i + 1;
    }
    r
}

} // verus!
