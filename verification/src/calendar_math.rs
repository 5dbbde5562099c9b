use vstd::prelude::*;

verus! {

/// Divisor-positive Euclidean division on machine integers, used by all of
/// the civil-calendar arithmetic so that executable division agrees with the
/// mathematical `/` used in specifications.
pub fn udiv(a: i64, b: i64) -> (r: i64)
    requires
        0 <= a,
        0 < b,
    ensures
        r == a as int / b as int,
        0 <= r <= a,
{
    proof {
        vstd::arithmetic::div_mod::lemma_div_pos_is_pos(a as int, b as int);
        vstd::arithmetic::div_mod::lemma_div_nonincreasing(a as int, b as int);
    }
    ((a as u64) / (b as u64)) as i64
}

/// Euclidean remainder, companion of [`udiv`].
pub fn umod(a: i64, b: i64) -> (r: i64)
    requires
        0 <= a,
        0 < b,
    ensures
        r == a as int % b as int,
        0 <= r < b,
{
    ((a as u64) % (b as u64)) as i64
}

/// Proleptic Gregorian leap year.
pub open spec fn spec_is_leap_year(y: int) -> bool {
    y % 4 == 0 && (y % 100 != 0 || y % 400 == 0)
}

pub fn is_leap_year(y: i64) -> (r: bool)
    requires
        0 <= y,
    ensures
        r == spec_is_leap_year(y as int),
{
    umod(y, 4) == 0 && (umod(y, 100) != 0 || umod(y, 400) == 0)
}

/// Number of days in month `m` (1..=12) of year `y`.
pub open spec fn spec_days_in_month(y: int, m: int) -> int {
    if m == 2 {
        if spec_is_leap_year(y) {
            29
        } else {
            28
        }
    } else if m == 4 || m == 6 || m == 9 || m == 11 {
        30
    } else {
        31
    }
}

pub fn days_in_month(y: i64, m: i64) -> (r: i64)
    requires
        0 <= y,
    ensures
        r == spec_days_in_month(y as int, m as int),
        28 <= r <= 31,
{
    if m == 2 {
        if is_leap_year(y) {
            29
        } else {
            28
        }
    } else if m == 4 || m == 6 || m == 9 || m == 11 {
        30
    } else {
        31
    }
}

/// Day number (days since 1970-01-01) of the civil date `y-m-d` in the
/// proleptic Gregorian calendar, for years past 1600.
pub open spec fn spec_days_from_civil(y: int, m: int, d: int) -> int {
    let yy = if m <= 2 { y - 1 } else { y };
    let era = yy / 400;
    let yoe = yy - era * 400;
    let mp = if m > 2 { m - 3 } else { m + 9 };
    let doy = (153 * mp + 2) / 5 + d - 1;
    let doe = yoe * 365 + yoe / 4 - yoe / 100 + doy;
    era * 146097 + doe - 719468
}

/// A civil date the engine accepts: month and day in range, year within the
/// span whose day numbers stay comfortably inside `i64` arithmetic.
pub open spec fn spec_civil_ok(y: int, m: int, d: int) -> bool {
    1601 <= y <= 4_000_000_000_000 && 1 <= m <= 12 && 1 <= d <= 31
}

pub fn days_from_civil(y: i64, m: i64, d: i64) -> (r: i64)
    requires
        spec_civil_ok(y as int, m as int, d as int),
    ensures
        r == spec_days_from_civil(y as int, m as int, d as int),
        -719468 <= r <= 0x8_0000_0000_0000,
{
    let yy: i64 = if m <= 2 { y - 1 } else { y };
    let era: i64 = udiv(yy, 400);
    let yoe: i64 = yy - era * 400;
    proof {
        vstd::arithmetic::div_mod::lemma_fundamental_div_mod(yy as int, 400);
        vstd::arithmetic::div_mod::lemma_mod_division_less_than_divisor(yy as int, 400);
        assert(yoe == yy as int % 400);
    }
    let mp: i64 = if m > 2 { m - 3 } else { m + 9 };
    let doy: i64 = udiv(153 * mp + 2, 5) + d - 1;
    let doe: i64 = yoe * 365 + udiv(yoe, 4) - udiv(yoe, 100) + doy;
    era * 146097 + doe - 719468
}

/// Civil date of a day number, computed by the era-decomposition formula.
/// For every day number the engine accepts the result is a well-formed date;
/// callers test [`spec_civil_ok`] on it before building on that.
pub open spec fn spec_civil_from_days(z: int) -> (int, int, int) {
    let za = z + 719468;
    let era = za / 146097;
    let doe = za - era * 146097;
    let yoe = (doe - doe / 1460 + doe / 36524 - doe / 146096) / 365;
    let y = yoe + era * 400;
    let doy0 = doe - (365 * yoe + yoe / 4 - yoe / 100);
    // On every real day number the day-of-era decomposition is exact and the
    // clamp below is the identity; it only keeps the definition total.
    let doy = if doy0 >= 0 {
        doy0
    } else {
        0
    };
    let mp = (5 * doy + 2) / 153;
    let d = doy - (153 * mp + 2) / 5 + 1;
    let m = if mp < 10 { mp + 3 } else { mp - 9 };
    (if m <= 2 { y + 1 } else { y }, m, d)
}

pub fn civil_from_days(z: i64) -> (r: (i64, i64, i64))
    requires
        0 <= z <= 0x2_0000_0000_0000,
    ensures
        (r.0 as int, r.1 as int, r.2 as int) == spec_civil_from_days(z as int),
{
    let za: i64 = z + 719468;
    let era: i64 = udiv(za, 146097);
    let doe: i64 = za - era * 146097;
    proof {
        vstd::arithmetic::div_mod::lemma_fundamental_div_mod(za as int, 146097);
        vstd::arithmetic::div_mod::lemma_mod_division_less_than_divisor(za as int, 146097);
        assert(doe == za as int % 146097);
        assert(0 <= doe < 146097);
    }
    proof {
        vstd::arithmetic::div_mod::lemma_div_is_ordered_by_denominator(doe as int, 2, 1460);
        vstd::arithmetic::div_mod::lemma_div_is_ordered_by_denominator(doe as int, 2, 146096);
        vstd::arithmetic::div_mod::lemma_fundamental_div_mod(doe as int, 2);
        vstd::arithmetic::div_mod::lemma_mod_division_less_than_divisor(doe as int, 2);
        vstd::arithmetic::div_mod::lemma_div_pos_is_pos(doe as int, 36524);
        assert(doe as int - doe as int / 1460 + doe as int / 36524 - doe as int / 146096 >= 0);
    }
    let yoe: i64 = udiv(doe - udiv(doe, 1460) + udiv(doe, 36524) - udiv(doe, 146096), 365);
    let y: i64 = yoe + era * 400;
    let doy0: i64 = doe - (365 * yoe + udiv(yoe, 4) - udiv(yoe, 100));
    let doy: i64 = if doy0 >= 0 {
        doy0
    } else {
        0
    };
    let mp: i64 = udiv(5 * doy + 2, 153);
    let d: i64 = doy - udiv(153 * mp + 2, 5) + 1;
    let m: i64 = if mp < 10 { mp + 3 } else { mp - 9 };
    (if m <= 2 { y + 1 } else { y }, m, d)
}

/// Weekday of a day number, with 0 = Monday (1970-01-01 was a Thursday).
/// The added constant is a multiple of seven that keeps the operand of `%`
/// non-negative over the whole supported range.
pub open spec fn spec_weekday(day: int) -> int {
    (day + 719_467 + 3) % 7
}

pub fn weekday(day: i64) -> (r: i64)
    requires
        -719_467 <= day <= 0x2_0000_0000_0000,
    ensures
        r == spec_weekday(day as int),
        0 <= r < 7,
{
    umod(day + 719_467 + 3, 7)
}

/// First day of the week containing `day`, for weeks starting on weekday
/// `wkst` (0 = Monday .. 6 = Sunday).
pub open spec fn spec_week_start(day: int, wkst: int) -> int {
    day - ((spec_weekday(day) - wkst + 7) % 7)
}

pub fn week_start(day: i64, wkst: i64) -> (r: i64)
    requires
        0 <= day <= 0x2_0000_0000_0000,
        0 <= wkst < 7,
    ensures
        r == spec_week_start(day as int, wkst as int),
        day - 6 <= r <= day,
{
    let wd = weekday(day);
    day - umod(wd - wkst + 7, 7)
}

} // verus!
