use vstd::prelude::*;

verus! {

/// Milliseconds in one day.
pub const DAY_MS: i64 = 86_400_000;

/// Largest instant the engine works with: 9999-12-31T23:59:59.999 UTC in
/// milliseconds since the Unix epoch. Keeping instants inside
/// `[0, MAX_TS]` keeps every intermediate date computation inside `i64`.
pub const MAX_TS: i64 = 253_402_300_799_999;

/// Day number (days since 1970-01-01) of the largest supported instant.
pub const MAX_DAY: i64 = 2_932_896;

/// Day number (days since 1970-01-01) of a non-negative instant.
pub open spec fn spec_day_of(t: int) -> int {
    t / (DAY_MS as int)
}

/// Millisecond offset of a non-negative instant inside its day.
pub open spec fn spec_time_of_day(t: int) -> int {
    t % (DAY_MS as int)
}

/// Day number of an instant.
pub fn day_of(t: i64) -> (r: i64)
    requires
        0 <= t,
    ensures
        r == spec_day_of(t as int),
        0 <= r <= t,
        t <= MAX_TS ==> r <= MAX_DAY,
{
    let d = ((t as u64) / (DAY_MS as u64)) as i64;
    proof {
        assert(d == spec_day_of(t as int));
    }
    d
}

/// Millisecond offset of an instant inside its day.
pub fn time_of_day(t: i64) -> (r: i64)
    requires
        0 <= t,
    ensures
        r == spec_time_of_day(t as int),
        0 <= r < DAY_MS,
{
    let r = ((t as u64) % (DAY_MS as u64)) as i64;
    proof {
        assert(r == spec_time_of_day(t as int));
    }
    r
}

/// An instant splits into its day number and its offset inside the day.
pub broadcast proof fn lemma_day_split(t: int)
    requires
        0 <= t,
    ensures
        #[trigger] spec_day_of(t) * (DAY_MS as int) + spec_time_of_day(t) == t,
        0 <= spec_time_of_day(t) < DAY_MS,
        0 <= spec_day_of(t),
{
    vstd::arithmetic::div_mod::lemma_fundamental_div_mod(t, DAY_MS as int);
    vstd::arithmetic::div_mod::lemma_mod_division_less_than_divisor(t, DAY_MS as int);
    vstd::arithmetic::div_mod::lemma_div_pos_is_pos(t, DAY_MS as int);
}

} // verus!
