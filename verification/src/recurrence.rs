use vstd::prelude::*;

use crate::calendar_math::{
    days_from_civil, days_in_month, civil_from_days, spec_civil_from_days, spec_civil_ok,
    spec_days_from_civil, spec_days_in_month, spec_week_start, spec_weekday, udiv, umod,
    week_start, weekday,
};
use crate::errors::CoreError;
use crate::instant::{day_of, time_of_day, spec_day_of, spec_time_of_day, DAY_MS, MAX_DAY, MAX_TS};

verus! {

/// How often a recurring event repeats.
#[derive(Clone, Copy, Debug, PartialEq, Eq, Structural)]
pub enum Frequency {
    Daily,
    Weekly,
    Monthly,
    Yearly,
}

/// A recurrence rule: frequency, a positive step, an optional global
/// occurrence bound (`count` and `until` are mutually exclusive), optional
/// selectors, and the weekday on which weeks start (0 = Monday .. 6 = Sunday).
///
/// `by_weekday` selectors apply to weekly rules only and `by_month_day`
/// selectors to monthly rules only; a rule pairing a selector with any other
/// frequency is unresolvable, as is an interval outside `1..=1_000_000`
/// (one million steps of a day already overrun the engine's supported span).
#[derive(Debug)]
pub struct RecurrenceRule {
    pub freq: Frequency,
    pub interval: i64,
    pub count: Option<u32>,
    pub until: Option<i64>,
    pub by_weekday: Vec<i64>,
    pub by_month_day: Vec<i64>,
    pub wkst: i64,
}

/// The rules this engine can evaluate.
pub open spec fn spec_rule_valid(r: RecurrenceRule) -> bool {
    &&& 1 <= r.interval <= 1_000_000
    &&& !(r.count is Some && r.until is Some)
    &&& 0 <= r.wkst < 7
    &&& forall|i: int| 0 <= i < r.by_weekday@.len() ==> 0 <= #[trigger] r.by_weekday@[i] < 7
    &&& forall|i: int| 0 <= i < r.by_month_day@.len() ==> 1 <= #[trigger] r.by_month_day@[i]
        <= 31
    &&& (r.by_weekday@.len() > 0 ==> r.freq is Weekly)
    &&& (r.by_month_day@.len() > 0 ==> r.freq is Monthly)
}

impl RecurrenceRule {
    /// Input validation for the whole rule.
    pub fn is_valid(&self) -> (r: bool)
        ensures
            r == spec_rule_valid(*self),
    {
        if !(1 <= self.interval && self.interval <= 1_000_000) {
            return false;
        }
        if self.count.is_some() && self.until.is_some() {
            return false;
        }
        if !(0 <= self.wkst && self.wkst < 7) {
            return false;
        }
        let mut i: usize = 0;
        while i < self.by_weekday.len()
            invariant
                0 <= i <= self.by_weekday@.len(),
                forall|k: int| 0 <= k < i ==> 0 <= #[trigger] self.by_weekday@[k] < 7,
            decreases self.by_weekday@.len() - i,
        {
            if !(0 <= self.by_weekday[i] && self.by_weekday[i] < 7) {
                return false;
            }
            i = i + 1;
        }
        let mut j: usize = 0;
        while j < self.by_month_day.len()
            invariant
                0 <= j <= self.by_month_day@.len(),
                forall|k: int| 0 <= k < j ==> 1 <= #[trigger] self.by_month_day@[k] <= 31,
            decreases self.by_month_day@.len() - j,
        {
            if !(1 <= self.by_month_day[j] && self.by_month_day[j] <= 31) {
                return false;
            }
            j = j + 1;
        }
        if self.by_weekday.len() > 0 && !matches!(self.freq, Frequency::Weekly) {
            return false;
        }
        if self.by_month_day.len() > 0 && !matches!(self.freq, Frequency::Monthly) {
            return false;
        }
        true
    }
}

/// Membership of a value in a selector list.
pub open spec fn spec_has(s: Seq<i64>, v: int) -> bool {
    exists|i: int| 0 <= i < s.len() && s[i] == v
}

/// The stepping state of an evaluation: either day-based (daily and weekly
/// rules, `pos` is a day number and `step` a day count) or month-based
/// (monthly and yearly rules, `pos` is a month index `year * 12 + month - 1`
/// and `step` a month count).
pub ghost struct EvalCursor {
    pub month_based: bool,
    pub pos: int,
    pub step: int,
    pub dom0: int,
    pub by_weekday: Seq<i64>,
    pub by_month_day: Seq<i64>,
    pub wkst: int,
    pub tod: int,
}

/// Cursor for the first step of a rule anchored at `base`.
pub open spec fn spec_cursor_init(base: int, rule: RecurrenceRule) -> EvalCursor {
    let day = spec_day_of(base);
    let tod = spec_time_of_day(base);
    let ymd = spec_civil_from_days(day);
    match rule.freq {
        Frequency::Daily => EvalCursor {
            month_based: false,
            pos: day,
            step: rule.interval as int,
            dom0: 0,
            by_weekday: Seq::empty(),
            by_month_day: Seq::empty(),
            wkst: rule.wkst as int,
            tod,
        },
        Frequency::Weekly => EvalCursor {
            month_based: false,
            pos: day,
            step: 7 * rule.interval,
            dom0: 0,
            by_weekday: rule.by_weekday@,
            by_month_day: Seq::empty(),
            wkst: rule.wkst as int,
            tod,
        },
        Frequency::Monthly => EvalCursor {
            month_based: true,
            pos: ymd.0 * 12 + ymd.1 - 1,
            step: rule.interval as int,
            dom0: ymd.2,
            by_weekday: Seq::empty(),
            by_month_day: rule.by_month_day@,
            wkst: rule.wkst as int,
            tod,
        },
        Frequency::Yearly => EvalCursor {
            month_based: true,
            pos: ymd.0 * 12 + ymd.1 - 1,
            step: 12 * rule.interval,
            dom0: ymd.2,
            by_weekday: Seq::empty(),
            by_month_day: rule.by_month_day@,
            wkst: rule.wkst as int,
            tod,
        },
    }
}

/// Candidate instants contributed by the week starting at `ws_day`, built
/// ascending over the offsets `0 .. n`.
pub open spec fn spec_week_cands(ws_day: int, byday: Seq<i64>, tod: int, n: nat) -> Seq<int>
    decreases n,
{
    if n == 0 {
        Seq::empty()
    } else {
        let j = n - 1;
        spec_week_cands(ws_day, byday, tod, (n - 1) as nat) + if spec_has(
            byday,
            spec_weekday(ws_day + j),
        ) {
            seq![(ws_day + j) * (DAY_MS as int) + tod]
        } else {
            Seq::<int>::empty()
        }
    }
}

/// Candidate instants contributed by selected days of month `m` of year `y`,
/// built ascending over the days of month `1 ..= n`; days the month does not
/// have are skipped.
pub open spec fn spec_month_dom_cands(y: int, m: int, bymd: Seq<i64>, tod: int, n: nat) -> Seq<
    int,
>
    decreases n,
{
    if n == 0 {
        Seq::empty()
    } else {
        let dom = n as int;
        spec_month_dom_cands(y, m, bymd, tod, (n - 1) as nat) + if spec_has(bymd, dom) && dom
            <= spec_days_in_month(y, m) {
            seq![spec_days_from_civil(y, m, dom) * (DAY_MS as int) + tod]
        } else {
            Seq::<int>::empty()
        }
    }
}

/// Candidate instants of one step of the cursor, before any bound is applied.
/// A monthly anchor day the month does not have yields no candidate at all:
/// short months are skipped, never clamped.
pub open spec fn spec_month_cands(y: int, m: int, bymd: Seq<i64>, dom0: int, tod: int) -> Seq<
    int,
> {
    if bymd.len() == 0 {
        if dom0 <= spec_days_in_month(y, m) {
            seq![spec_days_from_civil(y, m, dom0) * (DAY_MS as int) + tod]
        } else {
            Seq::empty()
        }
    } else {
        spec_month_dom_cands(y, m, bymd, tod, 31)
    }
}

pub open spec fn spec_cursor_cands(c: EvalCursor) -> Seq<int> {
    if c.month_based {
        spec_month_cands(c.pos / 12, c.pos % 12 + 1, c.by_month_day, c.dom0, c.tod)
    } else {
        if c.by_weekday.len() == 0 {
            seq![c.pos * (DAY_MS as int) + c.tod]
        } else {
            spec_week_cands(spec_week_start(c.pos, c.wkst), c.by_weekday, c.tod, 7)
        }
    }
}

/// A day number no candidate of this step precedes.
pub open spec fn spec_cursor_low_day(c: EvalCursor) -> int {
    if c.month_based {
        spec_days_from_civil(c.pos / 12, c.pos % 12 + 1, 1)
    } else if c.by_weekday.len() == 0 {
        c.pos
    } else {
        spec_week_start(c.pos, c.wkst)
    }
}

pub open spec fn spec_cursor_next(c: EvalCursor) -> EvalCursor {
    EvalCursor { pos: c.pos + c.step, ..c }
}

/// Folds one step's candidates into the occurrence stream: a candidate is an
/// occurrence when it does not precede the anchor, strictly follows the
/// occurrence yielded last, is not past `until`, and the global occurrence
/// index is still below `count`. Returns the kept occurrences together with
/// the updated index and last-yielded instant.
pub open spec fn spec_keep_fold(
    cands: Seq<int>,
    base: int,
    until: Option<i64>,
    count: Option<u32>,
    taken: int,
    last: int,
) -> (Seq<int>, int, int)
    decreases cands.len(),
{
    if cands.len() == 0 {
        (Seq::empty(), taken, last)
    } else {
        let t = cands[0];
        let keep = t >= base && t > last && (match until {
            Option::Some(u) => t <= u,
            Option::None => true,
        }) && (match count {
            Option::Some(n) => taken < n,
            Option::None => true,
        });
        if keep {
            let r = spec_keep_fold(cands.drop_first(), base, until, count, taken + 1, t);
            (seq![t] + r.0, r.1, r.2)
        } else {
            spec_keep_fold(cands.drop_first(), base, until, count, taken, last)
        }
    }
}

/// The occurrence stream from the cursor on: step by step, each step's
/// candidates folded in, stopping once the step can no longer reach below
/// `bound_day`, the occurrence index reaches `count`, or the fuel runs out
/// (the evaluator always passes fuel covering every step below the bound).
pub open spec fn spec_occs(
    c: EvalCursor,
    base: int,
    until: Option<i64>,
    count: Option<u32>,
    taken: int,
    last: int,
    bound_day: int,
    fuel: nat,
) -> Seq<int>
    decreases fuel,
{
    if fuel == 0 {
        Seq::empty()
    } else if (match count {
        Option::Some(n) => taken >= n,
        Option::None => false,
    }) {
        Seq::empty()
    } else if spec_cursor_low_day(c) >= bound_day {
        Seq::empty()
    } else {
        let r = spec_keep_fold(spec_cursor_cands(c), base, until, count, taken, last);
        r.0 + spec_occs(
            spec_cursor_next(c),
            base,
            until,
            count,
            r.1,
            r.2,
            bound_day,
            (fuel - 1) as nat,
        )
    }
}

/// Fuel covering every step whose candidates can start below `we`.
pub open spec fn spec_eval_fuel(base: int, we: int) -> nat {
    if we <= base {
        0
    } else {
        ((we - base) / (DAY_MS as int) + 40) as nat
    }
}

/// First day number at or past the window end.
pub open spec fn spec_bound_day(we: int) -> int {
    (we + DAY_MS - 1) / (DAY_MS as int)
}

/// The month-based cursor needs a well-formed anchor date; every anchor
/// instant in `[0, MAX_TS]` has one.
pub open spec fn spec_eval_anchor_ok(base: int, rule: RecurrenceRule) -> bool {
    (rule.freq is Monthly || rule.freq is Yearly) ==> {
        let ymd = spec_civil_from_days(spec_day_of(base));
        spec_civil_ok(ymd.0, ymd.1, ymd.2) && ymd.0 <= 10_000
    }
}

/// The window membership test `ws <= t < we`.
pub open spec fn spec_window_pred(ws: int, we: int) -> spec_fn(int) -> bool {
    |t: int| ws <= t < we
}

/// Ordered occurrence instants of a valid rule anchored at `base`, restricted
/// to the window `[ws, we)`.
pub open spec fn spec_evaluate(base: int, rule: RecurrenceRule, ws: int, we: int) -> Seq<int> {
    if !spec_eval_anchor_ok(base, rule) {
        Seq::empty()
    } else {
        spec_occs(
            spec_cursor_init(base, rule),
            base,
            rule.until,
            rule.count,
            0,
            base - 1,
            spec_bound_day(we),
            spec_eval_fuel(base, we),
        ).filter(spec_window_pred(ws, we))
    }
}

/// What one fold step guarantees: the kept occurrences ascend strictly, all
/// follow `last` and do not precede `base`, the occurrence index grows by
/// exactly the number kept and stays within `count`, and the new `last`
/// closes the kept run.
pub proof fn lemma_keep_fold(
    cands: Seq<int>,
    base: int,
    until: Option<i64>,
    count: Option<u32>,
    taken: int,
    last: int,
)
    ensures
        ({
            let r = spec_keep_fold(cands, base, until, count, taken, last);
            &&& forall|i: int, j: int| 0 <= i < j < r.0.len() ==> r.0[i] < r.0[j]
            &&& forall|i: int| 0 <= i < r.0.len() ==> last < #[trigger] r.0[i] && base <= r.0[i]
                && r.0[i] <= r.2
            &&& r.1 == taken + r.0.len()
            &&& last <= r.2
            &&& (match count {
                Option::Some(n) => (taken < n ==> r.1 <= n) && (taken >= n ==> r.0.len() == 0),
                Option::None => true,
            })
            &&& r.0.len() <= cands.len()
        }),
    decreases cands.len(),
{
    if cands.len() == 0 {
    } else {
        let t = cands[0];
        let keep = t >= base && t > last && (match until {
            Option::Some(u) => t <= u,
            Option::None => true,
        }) && (match count {
            Option::Some(n) => taken < n,
            Option::None => true,
        });
        if keep {
            lemma_keep_fold(cands.drop_first(), base, until, count, taken + 1, t);
            let r1 = spec_keep_fold(cands.drop_first(), base, until, count, taken + 1, t);
            let r = spec_keep_fold(cands, base, until, count, taken, last);
            assert(r.0 == seq![t] + r1.0);
            assert(r.0[0] == t);
            assert(forall|i: int| 1 <= i < r.0.len() ==> r.0[i] == r1.0[i - 1]);
        } else {
            lemma_keep_fold(cands.drop_first(), base, until, count, taken, last);
        }
    }
}

/// What the occurrence stream guarantees: strictly ascending instants, none
/// preceding `base` or `last`, and never more than `count` of them in all.
pub proof fn lemma_occs(
    c: EvalCursor,
    base: int,
    until: Option<i64>,
    count: Option<u32>,
    taken: int,
    last: int,
    bound_day: int,
    fuel: nat,
)
    ensures
        ({
            let s = spec_occs(c, base, until, count, taken, last, bound_day, fuel);
            &&& forall|i: int, j: int| 0 <= i < j < s.len() ==> s[i] < s[j]
            &&& forall|i: int| 0 <= i < s.len() ==> last < #[trigger] s[i] && base <= s[i]
            &&& (match count {
                Option::Some(n) => taken < n ==> s.len() <= n - taken,
                Option::None => true,
            })
        }),
    decreases fuel,
{
    if fuel == 0 {
    } else if (match count {
        Option::Some(n) => taken >= n,
        Option::None => false,
    }) {
    } else if spec_cursor_low_day(c) >= bound_day {
    } else {
        let r = spec_keep_fold(spec_cursor_cands(c), base, until, count, taken, last);
        lemma_keep_fold(spec_cursor_cands(c), base, until, count, taken, last);
        lemma_occs(
            spec_cursor_next(c),
            base,
            until,
            count,
            r.1,
            r.2,
            bound_day,
            (fuel - 1) as nat,
        );
        let rest = spec_occs(
            spec_cursor_next(c),
            base,
            until,
            count,
            r.1,
            r.2,
            bound_day,
            (fuel - 1) as nat,
        );
        let s = spec_occs(c, base, until, count, taken, last, bound_day, fuel);
        assert(s == r.0 + rest);
        assert(forall|i: int| 0 <= i < r.0.len() ==> s[i] == r.0[i]);
        assert(forall|i: int| r.0.len() <= i < s.len() ==> s[i] == rest[i - r.0.len()]);
    }
}

/// The mathematical values of a sequence of machine instants.
pub open spec fn ints_of(s: Seq<i64>) -> Seq<int> {
    s.map_values(|t: i64| t as int)
}

pub proof fn lemma_ints_of_push(s: Seq<i64>, x: i64)
    ensures
        ints_of(s.push(x)) == ints_of(s).push(x as int),
{
    assert(ints_of(s.push(x)) =~= ints_of(s).push(x as int));
}

/// Membership test for a selector list.
fn contains_val(v: &Vec<i64>, x: i64) -> (r: bool)
    ensures
        r == spec_has(v@, x as int),
{
    let mut i: usize = 0;
    while i < v.len()
        invariant
            0 <= i <= v@.len(),
            forall|k: int| 0 <= k < i ==> v@[k] != x,
        decreases v@.len() - i,
    {
        if v[i] == x {
            proof {
                assert(v@[i as int] == x);
            }
            return true;
        }
        i = i + 1;
    }
    false
}

/// The candidate instants of one week, mirroring [`spec_week_cands`].
fn gen_week_cands(ws_day: i64, by_weekday: &Vec<i64>, tod: i64) -> (r: Vec<i64>)
    requires
        -6 <= ws_day <= MAX_DAY + 1,
        0 <= tod < DAY_MS,
    ensures
        ints_of(r@) == spec_week_cands(ws_day as int, by_weekday@, tod as int, 7),
        r@.len() <= 7,
{
    let mut r: Vec<i64> = Vec::new();
    proof {
        assert(ints_of(r@) =~= spec_week_cands(ws_day as int, by_weekday@, tod as int, 0));
    }
    let mut j: i64 = 0;
    while j < 7
        invariant
            0 <= j <= 7,
            -6 <= ws_day <= MAX_DAY + 1,
            0 <= tod < DAY_MS,
            ints_of(r@) == spec_week_cands(ws_day as int, by_weekday@, tod as int, j as nat),
            r@.len() <= j,
        decreases 7 - j,
    {
        let wd: i64 = weekday(ws_day + j);
        let hit: bool = contains_val(by_weekday, wd);
        let ghost pre = r@;
        if hit {
            r.push((ws_day + j) * DAY_MS + tod);
        }
        proof {
            let s_j = spec_week_cands(ws_day as int, by_weekday@, tod as int, j as nat);
            let s_j1 = spec_week_cands(ws_day as int, by_weekday@, tod as int, (j + 1) as nat);
            if hit {
                lemma_ints_of_push(pre, ((ws_day + j) * DAY_MS + tod) as i64);
                assert(s_j1 =~= s_j.push(
                    (ws_day as int + j as int) * (DAY_MS as int) + tod as int,
                ));
            } else {
                assert(s_j1 =~= s_j);
            }
        }
        j = j + 1;
    }
    r
}

/// The candidate instants of one month, mirroring [`spec_month_cands`].
fn gen_month_cands(y: i64, m: i64, by_month_day: &Vec<i64>, dom0: i64, tod: i64) -> (r: Vec<
    i64,
>)
    requires
        1601 <= y <= 4_000_000_000_000,
        1 <= m <= 12,
        0 <= tod < DAY_MS,
        by_month_day@.len() == 0 ==> 1 <= dom0 <= 31,
        spec_days_from_civil(y as int, m as int, 1) <= MAX_DAY + 1,
    ensures
        ints_of(r@) == spec_month_cands(
            y as int,
            m as int,
            by_month_day@,
            dom0 as int,
            tod as int,
        ),
        r@.len() <= 31,
{
    let dim: i64 = days_in_month(y, m);
    if by_month_day.len() == 0 {
        let mut r: Vec<i64> = Vec::new();
        if dom0 <= dim {
            let day: i64 = days_from_civil(y, m, dom0);
            proof {
                assert(spec_days_from_civil(y as int, m as int, dom0 as int)
                    == spec_days_from_civil(y as int, m as int, 1) + dom0 - 1);
            }
            r.push(day * DAY_MS + tod);
            proof {
                assert(ints_of(r@) =~= spec_month_cands(
                    y as int,
                    m as int,
                    by_month_day@,
                    dom0 as int,
                    tod as int,
                ));
            }
        } else {
            proof {
                assert(ints_of(r@) =~= spec_month_cands(
                    y as int,
                    m as int,
                    by_month_day@,
                    dom0 as int,
                    tod as int,
                ));
            }
        }
        r
    } else {
        let mut r: Vec<i64> = Vec::new();
        proof {
            assert(ints_of(r@) =~= spec_month_dom_cands(
                y as int,
                m as int,
                by_month_day@,
                tod as int,
                0,
            ));
        }
        let mut dom: i64 = 1;
        while dom <= 31
            invariant
                1 <= dom <= 32,
                1601 <= y <= 4_000_000_000_000,
                1 <= m <= 12,
                0 <= tod < DAY_MS,
                dim == spec_days_in_month(y as int, m as int),
                28 <= dim <= 31,
                spec_days_from_civil(y as int, m as int, 1) <= MAX_DAY + 1,
                ints_of(r@) == spec_month_dom_cands(
                    y as int,
                    m as int,
                    by_month_day@,
                    tod as int,
                    (dom - 1) as nat,
                ),
                r@.len() <= dom - 1,
            decreases 32 - dom,
        {
            let hit: bool = contains_val(by_month_day, dom) && dom <= dim;
            let ghost pre = r@;
            if hit {
                let day: i64 = days_from_civil(y, m, dom);
                proof {
                    assert(spec_days_from_civil(y as int, m as int, dom as int)
                        == spec_days_from_civil(y as int, m as int, 1) + dom - 1);
                }
                r.push(day * DAY_MS + tod);
            }
            proof {
                let s_d = spec_month_dom_cands(
                    y as int,
                    m as int,
                    by_month_day@,
                    tod as int,
                    (dom - 1) as nat,
                );
                let s_d1 = spec_month_dom_cands(
                    y as int,
                    m as int,
                    by_month_day@,
                    tod as int,
                    dom as nat,
                );
                if hit {
                    lemma_ints_of_push(
                        pre,
                        (spec_days_from_civil(y as int, m as int, dom as int) * (DAY_MS as int)
                            + tod as int) as i64,
                    );
                    assert(s_d1 =~= s_d.push(
                        spec_days_from_civil(y as int, m as int, dom as int) * (DAY_MS as int)
                            + tod as int,
                    ));
                } else {
                    assert(s_d1 =~= s_d);
                }
            }
            dom = dom + 1;
        }
        r
    }
}

/// Folds one step's candidates into the occurrence list, mirroring
/// [`spec_keep_fold`].
fn push_kept(
    out: &mut Vec<i64>,
    cands: &Vec<i64>,
    base: i64,
    until: Option<i64>,
    count: Option<u32>,
    taken: &mut i64,
    last: &mut i64,
)
    requires
        0 <= *old(taken) <= 0x1000_0000,
        cands@.len() <= 31,
    ensures
        ({
            let r = spec_keep_fold(
                ints_of(cands@),
                base as int,
                until,
                count,
                *old(taken) as int,
                *old(last) as int,
            );
            &&& ints_of(final(out)@) == ints_of(old(out)@) + r.0
            &&& *final(taken) as int == r.1
            &&& *final(last) as int == r.2
            &&& *old(taken) <= *final(taken) <= *old(taken) + cands@.len()
        }),
{
    let ghost cands_s = ints_of(cands@);
    let ghost taken0 = *taken as int;
    let ghost last0 = *last as int;
    let ghost out0 = out@;
    proof {
        assert(cands_s.skip(0) =~= cands_s);
        assert(ints_of(out@) + spec_keep_fold(cands_s, base as int, until, count, taken0, last0).0
            =~= ints_of(out0) + spec_keep_fold(cands_s, base as int, until, count, taken0, last0).0);
    }
    let mut i: usize = 0;
    while i < cands.len()
        invariant
            0 <= i <= cands@.len(),
            cands@.len() <= 31,
            cands_s == ints_of(cands@),
            cands_s.len() == cands@.len(),
            0 <= taken0 <= 0x1000_0000,
            taken0 <= *taken <= taken0 + i,
            ({
                let full = spec_keep_fold(cands_s, base as int, until, count, taken0, last0);
                let rem = spec_keep_fold(
                    cands_s.skip(i as int),
                    base as int,
                    until,
                    count,
                    *taken as int,
                    *last as int,
                );
                &&& ints_of(out@) + rem.0 == ints_of(out0) + full.0
                &&& full.1 == rem.1
                &&& full.2 == rem.2
            }),
        decreases cands@.len() - i,
    {
        let t: i64 = cands[i];
        proof {
            assert(cands_s.skip(i as int)[0] == cands@[i as int] as int);
        }
        let keep_base: bool = t >= base && t > *last;
        let keep_until: bool = match until {
            Option::Some(u) => t <= u,
            Option::None => true,
        };
        let keep_count: bool = match count {
            Option::Some(n) => *taken < n as i64,
            Option::None => true,
        };
        let ghost rem_pre = spec_keep_fold(
            cands_s.skip(i as int),
            base as int,
            until,
            count,
            *taken as int,
            *last as int,
        );
        let ghost out_pre = out@;
        let ghost taken_pre = *taken as int;
        let ghost last_pre = *last as int;
        if keep_base && keep_until && keep_count {
            out.push(t);
            *taken = *taken + 1;
            *last = t;
            proof {
                lemma_ints_of_push(out_pre, t);
            }
        }
        proof {
            assert(cands_s.skip(i as int).drop_first() =~= cands_s.skip(i as int + 1));
            let rem_next = spec_keep_fold(
                cands_s.skip(i as int + 1),
                base as int,
                until,
                count,
                *taken as int,
                *last as int,
            );
            if keep_base && keep_until && keep_count {
                assert(rem_pre.0 == seq![t as int] + rem_next.0);
                assert(ints_of(out@) + rem_next.0 =~= ints_of(out_pre) + (seq![t as int]
                    + rem_next.0));
            } else {
                assert(rem_pre == rem_next);
            }
        }
        i = i + 1;
    }
    proof {
        assert(cands_s.skip(cands@.len() as int) =~= Seq::<int>::empty());
        let full = spec_keep_fold(cands_s, base as int, until, count, taken0, last0);
        let rem = spec_keep_fold(
            cands_s.skip(cands@.len() as int),
            base as int,
            until,
            count,
            *taken as int,
            *last as int,
        );
        assert(rem.0 =~= Seq::<int>::empty());
        assert(ints_of(out@) + rem.0 =~= ints_of(out@));
        assert(ints_of(out@) =~= ints_of(out0) + full.0);
    }
}

/// Evaluates a recurrence rule anchored at `base` over the window
/// `[window_start, window_end)`: the ordered occurrence instants of the rule
/// that fall inside the window, honouring `count` (a global occurrence index
/// counted from the anchor, not per window) and `until`. A malformed rule is
/// rejected with `UnresolvableRecurrence`; the window keeps the result finite
/// whatever the rule, so an unbounded rule is never materialized in full.
pub fn evaluate(base: i64, rule: &RecurrenceRule, window_start: i64, window_end: i64) -> (r:
    Result<Vec<i64>, CoreError>)
    requires
        0 <= base <= MAX_TS,
        0 <= window_start,
        0 <= window_end <= MAX_TS,
    ensures
        match r {
            Result::Ok(v) => spec_rule_valid(*rule) && ints_of(v@) == spec_evaluate(
                base as int,
                *rule,
                window_start as int,
                window_end as int,
            ),
            Result::Err(e) => e == CoreError::UnresolvableRecurrence && !spec_rule_valid(*rule),
        },
{
    if !rule.is_valid() {
        return Result::Err(CoreError::UnresolvableRecurrence);
    }
    let base_day: i64 = day_of(base);
    let tod: i64 = time_of_day(base);
    proof {
        crate::instant::lemma_day_split(base as int);
    }
    let ghost cur0 = spec_cursor_init(base as int, *rule);
    let month_based: bool;
    let mut pos: i64;
    let step: i64;
    let dom0: i64;
    match rule.freq {
        Frequency::Daily => {
            month_based = false;
            pos = base_day;
            step = rule.interval;
            dom0 = 0;
        },
        Frequency::Weekly => {
            month_based = false;
            pos = base_day;
            step = 7 * rule.interval;
            dom0 = 0;
        },
        Frequency::Monthly | Frequency::Yearly => {
            let ymd: (i64, i64, i64) = civil_from_days(base_day);
            let y: i64 = ymd.0;
            let m: i64 = ymd.1;
            let d: i64 = ymd.2;
            if !(1601 <= y && y <= 10_000 && 1 <= m && m <= 12 && 1 <= d && d <= 31) {
                proof {
                    assert(!spec_eval_anchor_ok(base as int, *rule));
                }
                let empty_out: Vec<i64> = Vec::new();
                proof {
                    assert(ints_of(empty_out@) =~= Seq::<int>::empty());
                }
                return Result::Ok(empty_out);
            }
            month_based = true;
            pos = y * 12 + m - 1;
            dom0 = d;
            step = if matches!(rule.freq, Frequency::Monthly) {
                rule.interval
            } else {
                12 * rule.interval
            };
        },
    }
    let bound_day: i64 = udiv(window_end + DAY_MS - 1, DAY_MS);
    let fuel_steps: i64 = if window_end <= base {
        0
    } else {
        proof {
            vstd::arithmetic::div_mod::lemma_div_is_ordered(
                window_end as int - base as int,
                MAX_TS as int,
                DAY_MS as int,
            );
        }
        udiv(window_end - base, DAY_MS) + 40
    };
    let mut fuel: i64 = fuel_steps;
    let ghost fuel0 = spec_eval_fuel(base as int, window_end as int);
    proof {
        vstd::arithmetic::div_mod::lemma_div_is_ordered(
            window_end as int + DAY_MS - 1,
            MAX_TS as int + DAY_MS - 1,
            DAY_MS as int,
        );
        vstd::arithmetic::div_mod::lemma_div_pos_is_pos(
            window_end as int + DAY_MS - 1,
            DAY_MS as int,
        );
        assert((MAX_TS as int + DAY_MS - 1) / (DAY_MS as int) == MAX_DAY + 1);
        assert(fuel as nat == fuel0);
        assert(fuel0 <= 2_932_936);
    }
    let mut taken: i64 = 0;
    let mut last: i64 = base - 1;
    let mut all: Vec<i64> = Vec::new();
    let ghost mut cur = cur0;
    let ghost mut k: int = 0;
    proof {
        assert(cur == (EvalCursor { pos: pos as int, ..cur0 }));
        assert(ints_of(all@) + spec_occs(
            cur0,
            base as int,
            rule.until,
            rule.count,
            0,
            base as int - 1,
            bound_day as int,
            fuel0,
        ) =~= spec_occs(
            cur0,
            base as int,
            rule.until,
            rule.count,
            0,
            base as int - 1,
            bound_day as int,
            fuel0,
        ));
    }
    loop
        invariant
            spec_rule_valid(*rule),
            0 <= base <= MAX_TS,
            0 <= window_start,
            0 <= window_end <= MAX_TS,
            tod as int == spec_time_of_day(base as int),
            0 <= tod < DAY_MS,
            base_day as int == spec_day_of(base as int),
            0 <= base_day <= MAX_DAY,
            bound_day as int == spec_bound_day(window_end as int),
            0 <= bound_day <= MAX_DAY + 1,
            fuel0 == spec_eval_fuel(base as int, window_end as int),
            fuel0 <= 2_932_936,
            0 <= fuel,
            fuel as nat <= fuel0,
            0 <= k,
            k + fuel as int == fuel0 as int,
            cur0 == spec_cursor_init(base as int, *rule),
            cur == (EvalCursor { pos: pos as int, ..cur0 }),
            cur0.step == step as int,
            cur0.month_based == month_based,
            cur0.tod == tod as int,
            cur0.by_weekday == rule.by_weekday@,
            cur0.by_month_day == rule.by_month_day@,
            cur0.wkst == rule.wkst as int,
            0 <= rule.wkst < 7,
            month_based ==> cur0.dom0 == dom0 as int && 1 <= dom0 <= 31,
            month_based ==> 19_212 <= cur0.pos <= 120_011,
            month_based ==> 1 <= step <= 12_000_000,
            !month_based ==> cur0.pos == base_day as int,
            !month_based ==> 1 <= step <= 7_000_000,
            pos as int == cur0.pos + step as int * k,
            month_based ==> pos <= 36_000_000_000_000,
            !month_based ==> pos <= 21_000_000_000_000,
            0 <= pos,
            0 <= taken,
            taken <= 31 * k,
            spec_occs(
                cur0,
                base as int,
                rule.until,
                rule.count,
                0,
                base as int - 1,
                bound_day as int,
                fuel0,
            ) == ints_of(all@) + spec_occs(
                cur,
                base as int,
                rule.until,
                rule.count,
                taken as int,
                last as int,
                bound_day as int,
                fuel as nat,
            ),
        ensures
            ints_of(all@) == spec_occs(
                cur0,
                base as int,
                rule.until,
                rule.count,
                0,
                base as int - 1,
                bound_day as int,
                fuel0,
            ),
        decreases fuel,
    {
        if fuel <= 0 {
            proof {
                assert(spec_occs(
                    cur,
                    base as int,
                    rule.until,
                    rule.count,
                    taken as int,
                    last as int,
                    bound_day as int,
                    fuel as nat,
                ) =~= Seq::<int>::empty());
            }
            break;
        }
        match rule.count {
            Option::Some(n) => {
                if taken >= n as i64 {
                    proof {
                        assert(spec_occs(
                            cur,
                            base as int,
                            rule.until,
                            rule.count,
                            taken as int,
                            last as int,
                            bound_day as int,
                            fuel as nat,
                        ) =~= Seq::<int>::empty());
                    }
                    break;
                }
            },
            Option::None => {},
        }
        let low_day: i64;
        if month_based {
            proof {
                vstd::arithmetic::div_mod::lemma_div_is_ordered(19_212, pos as int, 12);
                vstd::arithmetic::div_mod::lemma_div_is_ordered(
                    pos as int,
                    36_000_000_000_000,
                    12,
                );
            }
            let y: i64 = udiv(pos, 12);
            let mth: i64 = umod(pos, 12) + 1;
            low_day = days_from_civil(y, mth, 1);
        } else if rule.by_weekday.len() == 0 {
            low_day = pos;
        } else {
            low_day = week_start(pos, rule.wkst);
        }
        proof {
            assert(low_day as int == spec_cursor_low_day(cur));
        }
        if low_day >= bound_day {
            proof {
                assert(spec_occs(
                    cur,
                    base as int,
                    rule.until,
                    rule.count,
                    taken as int,
                    last as int,
                    bound_day as int,
                    fuel as nat,
                ) =~= Seq::<int>::empty());
            }
            break;
        }
        let cands: Vec<i64>;
        if month_based {
            let y: i64 = udiv(pos, 12);
            let mth: i64 = umod(pos, 12) + 1;
            cands = gen_month_cands(y, mth, &rule.by_month_day, dom0, tod);
        } else if rule.by_weekday.len() == 0 {
            let mut single: Vec<i64> = Vec::new();
            single.push(pos * DAY_MS + tod);
            proof {
                assert(ints_of(single@) =~= seq![pos as int * (DAY_MS as int) + tod as int]);
            }
            cands = single;
        } else {
            let ws: i64 = week_start(pos, rule.wkst);
            cands = gen_week_cands(ws, &rule.by_weekday, tod);
        }
        proof {
            assert(ints_of(cands@) == spec_cursor_cands(cur));
        }
        let ghost taken_pre = taken as int;
        let ghost last_pre = last as int;
        let ghost all_pre = all@;
        proof {
            vstd::arithmetic::mul::lemma_mul_inequality(k, 2_932_936, 31);
        }
        push_kept(&mut all, &cands, base, rule.until, rule.count, &mut taken, &mut last);
        proof {
            let r = spec_keep_fold(
                spec_cursor_cands(cur),
                base as int,
                rule.until,
                rule.count,
                taken_pre,
                last_pre,
            );
            let rest = spec_occs(
                spec_cursor_next(cur),
                base as int,
                rule.until,
                rule.count,
                r.1,
                r.2,
                bound_day as int,
                (fuel - 1) as nat,
            );
            assert(spec_occs(
                cur,
                base as int,
                rule.until,
                rule.count,
                taken_pre,
                last_pre,
                bound_day as int,
                fuel as nat,
            ) == r.0 + rest);
            assert(ints_of(all@) + rest =~= (ints_of(all_pre) + r.0) + rest);
            assert(ints_of(all_pre) + (r.0 + rest) =~= (ints_of(all_pre) + r.0) + rest);
            lemma_keep_fold(
                spec_cursor_cands(cur),
                base as int,
                rule.until,
                rule.count,
                taken_pre,
                last_pre,
            );
            assert((k + 1) * 31 == k * 31 + 31) by (nonlinear_arith);
            assert(31 * (k + 1) == (k + 1) * 31) by (nonlinear_arith);
            assert(31 * k == k * 31) by (nonlinear_arith);
            vstd::arithmetic::mul::lemma_mul_is_distributive_add(step as int, k, 1);
            vstd::arithmetic::mul::lemma_mul_inequality(k + 1, 2_932_936, step as int);
            if month_based {
                vstd::arithmetic::mul::lemma_mul_inequality(step as int, 12_000_000, 2_932_936);
                vstd::arithmetic::mul::lemma_mul_is_commutative(step as int, 2_932_936);
            } else {
                vstd::arithmetic::mul::lemma_mul_inequality(step as int, 7_000_000, 2_932_936);
                vstd::arithmetic::mul::lemma_mul_is_commutative(step as int, 2_932_936);
            }
            vstd::arithmetic::mul::lemma_mul_strictly_positive(step as int, k + 1);
            cur = spec_cursor_next(cur);
            k = k + 1;
        }
        pos = pos + step;
        fuel = fuel - 1;
    }
    let ghost raw = ints_of(all@);
    let ghost pred = spec_window_pred(window_start as int, window_end as int);
    let mut out: Vec<i64> = Vec::new();
    proof {
        assert(raw.take(0) =~= Seq::<int>::empty());
        assert(raw.take(0).filter(pred) =~= Seq::<int>::empty());
        assert(ints_of(out@) =~= Seq::<int>::empty());
    }
    let mut idx: usize = 0;
    while idx < all.len()
        invariant
            0 <= idx <= all@.len(),
            raw == ints_of(all@),
            raw.len() == all@.len(),
            pred == spec_window_pred(window_start as int, window_end as int),
            ints_of(out@) == raw.take(idx as int).filter(pred),
        decreases all@.len() - idx,
    {
        let t: i64 = all[idx];
        proof {
            assert(raw[idx as int] == t as int);
        }
        let ghost out_pre = out@;
        if window_start <= t && t < window_end {
            out.push(t);
            proof {
                lemma_ints_of_push(out_pre, t);
            }
        }
        proof {
            assert(raw.take(idx as int + 1) =~= raw.take(idx as int).push(raw[idx as int]));
            raw.take(idx as int).lemma_filter_push(raw[idx as int], pred);
        }
        idx = idx + 1;
    }
    proof {
        assert(raw.take(all@.len() as int) =~= raw);
        assert(spec_eval_anchor_ok(base as int, *rule));
        assert(ints_of(out@) == spec_evaluate(
            base as int,
            *rule,
            window_start as int,
            window_end as int,
        ));
    }
    Result::Ok(out)
}

/// Filtering keeps a strictly ascending, bounded-below sequence strictly
/// ascending and bounded below, and yields only elements of the original
/// that satisfy the predicate.
pub proof fn lemma_filter_sorted_bounds(s: Seq<int>, pred: spec_fn(int) -> bool, lo: int)
    requires
        forall|i: int, j: int| 0 <= i < j < s.len() ==> s[i] < s[j],
        forall|i: int| 0 <= i < s.len() ==> lo <= #[trigger] s[i],
    ensures
        ({
            let f = s.filter(pred);
            &&& forall|i: int, j: int| 0 <= i < j < f.len() ==> f[i] < f[j]
            &&& forall|i: int| 0 <= i < f.len() ==> lo <= #[trigger] f[i] && pred(f[i])
            &&& forall|i: int| 0 <= i < f.len() ==> s.contains(#[trigger] f[i])
        }),
    decreases s.len(),
{
    reveal(Seq::filter);
    if s.len() == 0 {
    } else {
        let d = s.drop_last();
        lemma_filter_sorted_bounds(d, pred, lo);
        let fd = d.filter(pred);
        let f = s.filter(pred);
        assert forall|i: int| 0 <= i < fd.len() implies fd[i] < s.last() && s.contains(fd[i]) by {
            assert(d.contains(fd[i]));
            let k = choose|k: int| 0 <= k < d.len() && d[k] == fd[i];
            assert(s[k] == fd[i]);
        }
        if pred(s.last()) {
            assert(f == fd.push(s.last()));
            assert(s.contains(s.last()));
        } else {
            assert(f == fd);
        }
    }
}

/// Law: for every window, the evaluator's output ascends strictly, lies
/// inside the window, and never precedes the anchor.
pub proof fn lemma_evaluate_sorted(base: int, rule: RecurrenceRule, ws: int, we: int)
    ensures
        ({
            let s = spec_evaluate(base, rule, ws, we);
            &&& forall|i: int, j: int| 0 <= i < j < s.len() ==> s[i] < s[j]
            &&& forall|i: int| 0 <= i < s.len() ==> ws <= #[trigger] s[i] < we && base <= s[i]
        }),
{
    let s = spec_evaluate(base, rule, ws, we);
    if spec_eval_anchor_ok(base, rule) {
        let c0 = spec_cursor_init(base, rule);
        let raw = spec_occs(
            c0,
            base,
            rule.until,
            rule.count,
            0,
            base - 1,
            spec_bound_day(we),
            spec_eval_fuel(base, we),
        );
        lemma_occs(
            c0,
            base,
            rule.until,
            rule.count,
            0,
            base - 1,
            spec_bound_day(we),
            spec_eval_fuel(base, we),
        );
        lemma_filter_sorted_bounds(raw, spec_window_pred(ws, we), base);
        assert forall|i: int| 0 <= i < s.len() implies ws <= #[trigger] s[i] < we && base
            <= s[i] by {
            assert(spec_window_pred(ws, we)(s[i]));
        }
    }
}

/// Law: a `count`-bounded rule never yields more than `count` occurrences in
/// any window; the occurrence index is global, counted from the anchor, so a
/// window never resets it.
pub proof fn lemma_evaluate_count(base: int, rule: RecurrenceRule, ws: int, we: int, n: u32)
    requires
        rule.count == Option::Some(n),
    ensures
        spec_evaluate(base, rule, ws, we).len() <= n,
{
    if spec_eval_anchor_ok(base, rule) {
        let c0 = spec_cursor_init(base, rule);
        let raw = spec_occs(
            c0,
            base,
            rule.until,
            rule.count,
            0,
            base - 1,
            spec_bound_day(we),
            spec_eval_fuel(base, we),
        );
        lemma_occs(
            c0,
            base,
            rule.until,
            rule.count,
            0,
            base - 1,
            spec_bound_day(we),
            spec_eval_fuel(base, we),
        );
        if n == 0 {
            assert(raw =~= Seq::<int>::empty());
        }
        raw.lemma_filter_len(spec_window_pred(ws, we));
    }
}

/// Law: narrowing a window from the left only drops occurrences — both
/// windows are filters of one occurrence stream with a single global
/// occurrence index, so a window slice can never surface an instant the
/// enclosing window does not have. Together with the count bound this keeps
/// any union of windows sharing an end below `count` occurrences.
pub proof fn lemma_evaluate_window_narrowing(
    base: int,
    rule: RecurrenceRule,
    ws1: int,
    ws2: int,
    we: int,
)
    requires
        ws1 <= ws2,
    ensures
        forall|i: int|
            0 <= i < spec_evaluate(base, rule, ws2, we).len() ==> spec_evaluate(
                base,
                rule,
                ws1,
                we,
            ).contains(#[trigger] spec_evaluate(base, rule, ws2, we)[i]),
{
    if spec_eval_anchor_ok(base, rule) {
        let c0 = spec_cursor_init(base, rule);
        let raw = spec_occs(
            c0,
            base,
            rule.until,
            rule.count,
            0,
            base - 1,
            spec_bound_day(we),
            spec_eval_fuel(base, we),
        );
        let narrow = spec_evaluate(base, rule, ws2, we);
        let wide = spec_evaluate(base, rule, ws1, we);
        lemma_occs(
            c0,
            base,
            rule.until,
            rule.count,
            0,
            base - 1,
            spec_bound_day(we),
            spec_eval_fuel(base, we),
        );
        lemma_filter_sorted_bounds(raw, spec_window_pred(ws2, we), base);
        assert forall|i: int| 0 <= i < narrow.len() implies wide.contains(
            #[trigger] narrow[i],
        ) by {
            assert(spec_window_pred(ws2, we)(narrow[i]));
            assert(raw.contains(narrow[i]));
            let k = choose|k: int| 0 <= k < raw.len() && raw[k] == narrow[i];
            assert(spec_window_pred(ws1, we)(raw[k]));
            raw.lemma_filter_contains(spec_window_pred(ws1, we), k);
        }
    }
}

} // verus!
