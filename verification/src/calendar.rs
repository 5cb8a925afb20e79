//! The proleptic Gregorian calendar: which field combinations are dates and times, and how many
//! days and nanoseconds separate them from 1970-01-01T00:00:00Z.

use vstd::prelude::*;

verus! {

pub const NANOS_PER_SEC: i64 = 1_000_000_000;

pub const NANOS_PER_DAY: i64 = 86_400_000_000_000;

/// Years divisible by four are leap years, except centuries not divisible by four hundred.
pub open spec fn is_leap(y: int) -> bool {
    y % 4 == 0 && (y % 100 != 0 || y % 400 == 0)
}

pub open spec fn days_in_year(y: int) -> int {
    if is_leap(y) {
        366
    } else {
        365
    }
}

pub open spec fn days_in_month(y: int, m: int) -> int {
    if m == 2 {
        if is_leap(y) {
            29
        } else {
            28
        }
    } else if m == 4 || m == 6 || m == 9 || m == 11 {
        30
    } else {
        31
    }
}

/// Days in the years `0..y`.
pub open spec fn days_before_year(y: int) -> int
    decreases y,
{
    if y <= 0 {
        0
    } else {
        days_before_year(y - 1) + days_in_year(y - 1)
    }
}

/// Days in the months `1..m` of year `y`.
pub open spec fn days_before_month(y: int, m: int) -> int
    decreases m,
{
    if m <= 1 {
        0
    } else {
        days_before_month(y, m - 1) + days_in_month(y, m - 1)
    }
}

/// Days from 1970-01-01 to day `d` of month `m` of year `y`.
pub open spec fn civil_day(y: int, m: int, d: int) -> int {
    days_before_year(y) + days_before_month(y, m) + (d - 1) - days_before_year(1970)
}

/// A real date and time of day, in a year whose nanosecond timestamps all fit in 64 bits.
pub open spec fn valid_fields(y: int, m: int, d: int, hh: int, mi: int, ss: int) -> bool {
    &&& 1678 <= y <= 2261
    &&& 1 <= m <= 12
    &&& 1 <= d <= days_in_month(y, m)
    &&& 0 <= hh <= 23
    &&& 0 <= mi <= 59
    &&& 0 <= ss <= 59
}

/// Nanoseconds from 1970-01-01T00:00:00Z to the given date and time, `frac` nanoseconds into
/// the second.
pub open spec fn civil_nanos(y: int, m: int, d: int, hh: int, mi: int, ss: int, frac: int) -> int {
    civil_day(y, m, d) * NANOS_PER_DAY + (hh * 3600 + mi * 60 + ss) * NANOS_PER_SEC + frac
}

/// The closed form of the days before a year.
pub proof fn lemma_days_before_year(y: int)
    requires
        y >= 0,
    ensures
        days_before_year(y) == 365 * y + (y + 3) / 4 - (y + 99) / 100 + (y + 399) / 400,
    decreases y,
{
    if y > 0 {
        lemma_days_before_year(y - 1);
    }
}

/// The closed form of the days before a month.
pub proof fn lemma_days_before_month(y: int, m: int)
    requires
        1 <= m <= 12,
    ensures
        m <= 2 ==> days_before_month(y, m) == 31 * (m - 1),
        m > 2 ==> days_before_month(y, m) == (153 * (m - 3) + 2) / 5 + 59 + (if is_leap(y) {
            1int
        } else {
            0int
        }),
{
    reveal_with_fuel(days_before_month, 12);
}

/// Days from 0000-03-01 to the first of March of year `y`.
pub open spec fn days_before_march(y: int) -> int {
    365 * y + y / 4 - y / 100 + y / 400
}

/// Whole four-hundred-year eras have a constant number of days.
proof fn lemma_era(era: int, yoe: int)
    requires
        0 <= yoe < 400,
    ensures
        days_before_march(400 * era + yoe) == era * 146_097 + yoe * 365 + yoe / 4 - yoe / 100,
        0 <= yoe * 365 + yoe / 4 - yoe / 100 <= 145_731,
{
    assert((400 * era + yoe) / 4 == 100 * era + yoe / 4);
    assert((400 * era + yoe) / 100 == 4 * era + yoe / 100);
    assert((400 * era + yoe) / 400 == era);
}

/// Days from 0000-03-01 to day `d` of month `m` of year `y`, counted in years that begin in March.
pub open spec fn march_day(y: int, m: int, d: int) -> int {
    if m > 2 {
        days_before_march(y) + (153 * (m - 3) + 2) / 5 + (d - 1)
    } else {
        days_before_march(y - 1) + (153 * (m + 9) + 2) / 5 + (d - 1)
    }
}

/// January and February come between the start of a year and its March.
proof fn lemma_year_from_march(y: int)
    requires
        y >= 0,
    ensures
        days_before_march(y) == days_before_march(y - 1) + days_in_year(y),
        days_before_year(y) == days_before_march(y - 1) + 366,
{
    lemma_days_before_year(y);
    assert((y + 3) / 4 == (y - 1) / 4 + 1);
    assert((y + 99) / 100 == (y - 1) / 100 + 1);
    assert((y + 399) / 400 == (y - 1) / 400 + 1);
    assert(y / 4 == (y - 1) / 4 + (if y % 4 == 0 {
        1int
    } else {
        0int
    }));
    assert(y / 100 == (y - 1) / 100 + (if y % 100 == 0 {
        1int
    } else {
        0int
    }));
    assert(y / 400 == (y - 1) / 400 + (if y % 400 == 0 {
        1int
    } else {
        0int
    }));
}

/// The first of March of year 0 is 719468 days before 1970-01-01.
pub proof fn lemma_civil_from_march(y: int, m: int, d: int)
    requires
        y >= 0,
        1 <= m <= 12,
    ensures
        civil_day(y, m, d) == march_day(y, m, d) - 719_468,
{
    lemma_year_from_march(y);
    lemma_days_before_year(1970);
    lemma_days_before_month(y, m);
}

/// Days from 1970-01-01 to a civil date.
///
/// The year is counted from March, so that the leap day is the last of its year; whole
/// four-hundred-year eras have a constant number of days.
#[inline(always)]
pub fn days_from_civil(y: i32, m: i32, d: i32) -> (days: i32)
    requires
        0 <= y,
        1 <= m <= 12,
        i32::MIN < d,
        march_day(y as int, m as int, 1) <= i32::MAX,
        i32::MIN + 719_468 <= march_day(y as int, m as int, d as int) <= i32::MAX,
        y == 0 && m <= 2 ==> d <= i32::MAX - 337,
    ensures
        days == civil_day(y as int, m as int, d as int),
{
    let ghost day: int = march_day(y as int, m as int, d as int);
    proof {
        lemma_civil_from_march(y as int, m as int, d as int);
    }
    let y: i32 = if m <= 2 {
        y - 1
    } else {
        y
    };
    let era: i32 = if y >= 0 {
        y / 400
    } else {
        -1
    };
    let yoe: i32 = y - era * 400;
    proof {
        lemma_era(era as int, yoe as int);
        assert(400 * era + yoe == y);
    }
    let mp: i32 = if m > 2 {
        m - 3
    } else {
        m + 9
    };
    let doy: i32 = (153 * mp + 2) / 5 + (d - 1);
    let march: i32 = era * 146_097 + (yoe * 365 + yoe / 4 - yoe / 100);
    assert(day == march + doy);
    march + doy - 719_468
}

/// Strict calendar validity: month, day of month (leap years included), time of day, and a
/// conservative year range that keeps nanoseconds within 64 bits.
#[inline(always)]
pub fn valid(y: u32, m: u32, d: u32, hh: u32, mi: u32, ss: u32) -> (ok: bool)
    ensures
        ok == valid_fields(y as int, m as int, d as int, hh as int, mi as int, ss as int),
{
    if !(1 <= m && m <= 12) || d < 1 || hh > 23 || mi > 59 || ss > 59 || !(1678 <= y && y <= 2261) {
        return false;
    }
    let leap: bool = y % 4 == 0 && (y % 100 != 0 || y % 400 == 0);
    let dim: u32 = if m == 2 {
        if leap {
            29
        } else {
            28
        }
    } else if m == 4 || m == 6 || m == 9 || m == 11 {
        30
    } else {
        31
    };
    d <= dim
}

/// Nanoseconds since the epoch of a valid date and time whose fraction is `frac` units of
/// `scale` nanoseconds.
#[inline(always)]
pub fn nanos_from_fields(
    y: u32,
    m: u32,
    d: u32,
    hh: u32,
    mi: u32,
    ss: u32,
    frac: u32,
    scale: i64,
) -> (nanos: i64)
    requires
        valid_fields(y as int, m as int, d as int, hh as int, mi as int, ss as int),
        0 <= frac * scale < 1_000_000_000,
    ensures
        nanos == civil_nanos(
            y as int,
            m as int,
            d as int,
            hh as int,
            mi as int,
            ss as int,
            frac * scale,
        ),
{
    proof {
        lemma_valid_day_range(y as int, m as int, d as int, hh as int, mi as int, ss as int);
        lemma_civil_from_march(y as int, m as int, d as int);
        lemma_civil_from_march(y as int, m as int, 1);
    }
    let days: i64 = days_from_civil(y as i32, m as i32, d as i32) as i64;
    days * NANOS_PER_DAY + (hh as i64 * 3600 + mi as i64 * 60 + ss as i64) * NANOS_PER_SEC
        + frac as i64 * scale
}

/// The days that valid dates fall on.
proof fn lemma_valid_day_range(y: int, m: int, d: int, hh: int, mi: int, ss: int)
    requires
        valid_fields(y, m, d, hh, mi, ss),
    ensures
        -106_700 <= civil_day(y, m, d) <= 106_700,
{
    lemma_days_before_year(y);
    lemma_days_before_year(1970);
    lemma_days_before_month(y, m);
}

/// Every valid date and time has a nanosecond timestamp that a signed 64-bit integer holds.
pub proof fn law_valid_fields_fit(y: int, m: int, d: int, hh: int, mi: int, ss: int, frac: int)
    requires
        valid_fields(y, m, d, hh, mi, ss),
        0 <= frac < NANOS_PER_SEC,
    ensures
        i64::MIN <= civil_nanos(y, m, d, hh, mi, ss, frac) <= i64::MAX,
{
    lemma_valid_day_range(y, m, d, hh, mi, ss);
}

/// The day after a date is the next day of its month, the first of the next month, or the first
/// of the next year.
pub proof fn law_next_day(y: int, m: int, d: int)
    requires
        y >= 0,
        1 <= m <= 12,
        1 <= d <= days_in_month(y, m),
    ensures
        d < days_in_month(y, m) ==> civil_day(y, m, d + 1) == civil_day(y, m, d) + 1,
        d == days_in_month(y, m) && m < 12 ==> civil_day(y, m + 1, 1) == civil_day(y, m, d) + 1,
        d == days_in_month(y, m) && m == 12 ==> civil_day(y + 1, 1, 1) == civil_day(y, m, d) + 1,
{
    lemma_days_before_month(y, 12);
}

/// The calendar counts days one by one from 1970-01-01: each day of a month is one more than the
/// day before, and the first of a month follows the last of the month before, which has 31, 30, 29
/// or 28 days.
pub proof fn law_days_counted(y: int, m: int, d: int)
    requires
        y >= 0,
        1 <= m <= 12,
    ensures
        civil_day(1970, 1, 1) == 0,
        civil_day(y, m, d + 1) == civil_day(y, m, d) + 1,
        m == 1 || m == 3 || m == 5 || m == 7 || m == 8 || m == 10 ==> civil_day(y, m + 1, 1)
            == civil_day(y, m, 31) + 1,
        m == 4 || m == 6 || m == 9 || m == 11 ==> civil_day(y, m + 1, 1) == civil_day(y, m, 30) + 1,
        m == 2 && y % 4 == 0 && (y % 100 != 0 || y % 400 == 0) ==> civil_day(y, m + 1, 1)
            == civil_day(y, m, 29) + 1,
        m == 2 && (y % 4 != 0 || y % 100 == 0 && y % 400 != 0) ==> civil_day(y, m + 1, 1)
            == civil_day(y, m, 28) + 1,
        m == 12 ==> civil_day(y + 1, 1, 1) == civil_day(y, m, 31) + 1,
{
    lemma_days_before_month(y, 12);
}

/// Exactly the real dates and times of the years 1678 to 2261 are valid.
pub proof fn law_real_dates_valid(y: int, m: int, d: int, hh: int, mi: int, ss: int)
    ensures
        valid_fields(y, m, d, hh, mi, ss) <==> {
            &&& 1678 <= y <= 2261
            &&& 1 <= m <= 12
            &&& 1 <= d <= 31
            &&& d == 31 ==> m == 1 || m == 3 || m == 5 || m == 7 || m == 8 || m == 10 || m == 12
            &&& d == 30 ==> m != 2
            &&& d == 29 && m == 2 ==> y % 4 == 0 && (y % 100 != 0 || y % 400 == 0)
            &&& 0 <= hh <= 23
            &&& 0 <= mi <= 59
            &&& 0 <= ss <= 59
        },
{
}

/// The day after a valid day is valid, up to the end of 2261: the next day of the month if that
/// comes before the first of the next month, and otherwise the first of the next month.
pub proof fn law_valid_days_follow(y: int, m: int, d: int, hh: int, mi: int, ss: int)
    requires
        valid_fields(y, m, d, hh, mi, ss),
    ensures
        m < 12 && civil_day(y, m, d) + 1 < civil_day(y, m + 1, 1) ==> valid_fields(
            y,
            m,
            d + 1,
            hh,
            mi,
            ss,
        ),
        m < 12 && civil_day(y, m, d) + 1 >= civil_day(y, m + 1, 1) ==> valid_fields(
            y,
            m + 1,
            1,
            hh,
            mi,
            ss,
        ) && civil_day(y, m + 1, 1) == civil_day(y, m, d) + 1,
        m == 12 && civil_day(y, m, d) + 1 < civil_day(y + 1, 1, 1) ==> valid_fields(
            y,
            m,
            d + 1,
            hh,
            mi,
            ss,
        ),
        m == 12 && civil_day(y, m, d) + 1 >= civil_day(y + 1, 1, 1) ==> civil_day(y + 1, 1, 1)
            == civil_day(y, m, d) + 1 && (y < 2261 ==> valid_fields(y + 1, 1, 1, hh, mi, ss)),
{
    lemma_days_before_month(y, 12);
}

/// Time passes evenly from 1970-01-01T00:00:00: a nanosecond, second, minute, hour or day later is
/// that many nanoseconds more, across the ends of months and years too.
pub proof fn law_nanos_counted(y: int, m: int, d: int, hh: int, mi: int, ss: int, frac: int)
    requires
        y >= 0,
        1 <= m <= 12,
    ensures
        civil_nanos(1970, 1, 1, 0, 0, 0, 0) == 0,
        civil_nanos(y, m, d, hh, mi, ss, frac + 1) == civil_nanos(y, m, d, hh, mi, ss, frac) + 1,
        civil_nanos(y, m, d, hh, mi, ss + 1, frac) == civil_nanos(y, m, d, hh, mi, ss, frac)
            + 1_000_000_000,
        civil_nanos(y, m, d, hh, mi + 1, ss, frac) == civil_nanos(y, m, d, hh, mi, ss, frac)
            + 60_000_000_000,
        civil_nanos(y, m, d, hh + 1, mi, ss, frac) == civil_nanos(y, m, d, hh, mi, ss, frac)
            + 3_600_000_000_000,
        civil_nanos(y, m, d + 1, hh, mi, ss, frac) == civil_nanos(y, m, d, hh, mi, ss, frac)
            + 86_400_000_000_000,
        m == 1 || m == 3 || m == 5 || m == 7 || m == 8 || m == 10 ==> civil_nanos(
            y,
            m + 1,
            1,
            hh,
            mi,
            ss,
            frac,
        ) == civil_nanos(y, m, 31, hh, mi, ss, frac) + 86_400_000_000_000,
        m == 4 || m == 6 || m == 9 || m == 11 ==> civil_nanos(y, m + 1, 1, hh, mi, ss, frac)
            == civil_nanos(y, m, 30, hh, mi, ss, frac) + 86_400_000_000_000,
        m == 2 && y % 4 == 0 && (y % 100 != 0 || y % 400 == 0) ==> civil_nanos(
            y,
            m + 1,
            1,
            hh,
            mi,
            ss,
            frac,
        ) == civil_nanos(y, m, 29, hh, mi, ss, frac) + 86_400_000_000_000,
        m == 2 && (y % 4 != 0 || y % 100 == 0 && y % 400 != 0) ==> civil_nanos(
            y,
            m + 1,
            1,
            hh,
            mi,
            ss,
            frac,
        ) == civil_nanos(y, m, 28, hh, mi, ss, frac) + 86_400_000_000_000,
        m == 12 ==> civil_nanos(y + 1, 1, 1, hh, mi, ss, frac) == civil_nanos(
            y,
            m,
            31,
            hh,
            mi,
            ss,
            frac,
        ) + 86_400_000_000_000,
{
    law_days_counted(y, m, d);
}

/// The units of time: seconds have a thousand million nanoseconds, days 86400 seconds.
pub proof fn law_units_of_time()
    ensures
        NANOS_PER_SEC == 1_000_000_000,
        NANOS_PER_DAY == 86_400_000_000_000,
{
}

proof fn lemma_months_ordered(y: int, m1: int, m2: int)
    requires
        1 <= m1 < m2,
    ensures
        days_before_month(y, m1) + days_in_month(y, m1) <= days_before_month(y, m2),
    decreases m2 - m1,
{
    if m1 + 1 < m2 {
        lemma_months_ordered(y, m1, m2 - 1);
    }
}

proof fn lemma_years_ordered(y1: int, y2: int)
    requires
        0 <= y1 < y2,
    ensures
        days_before_year(y1) + days_in_year(y1) <= days_before_year(y2),
    decreases y2 - y1,
{
    if y1 + 1 < y2 {
        lemma_years_ordered(y1, y2 - 1);
    }
}

/// An instant by its fields; `frac` is the number of nanoseconds into the second.
pub struct Instant {
    pub year: int,
    pub month: int,
    pub day: int,
    pub hour: int,
    pub minute: int,
    pub second: int,
    pub frac: int,
}

impl Instant {
    pub open spec fn valid(self) -> bool {
        &&& valid_fields(
            self.year,
            self.month,
            self.day,
            self.hour,
            self.minute,
            self.second,
        )
        &&& 0 <= self.frac < NANOS_PER_SEC
    }

    /// Nanoseconds from 1970-01-01T00:00:00Z.
    pub open spec fn nanos(self) -> int {
        civil_nanos(
            self.year,
            self.month,
            self.day,
            self.hour,
            self.minute,
            self.second,
            self.frac,
        )
    }

    /// Comes before `other` by year, then month, day, hour, minute, second and fraction.
    pub open spec fn before(self, other: Instant) -> bool {
        ||| self.year < other.year
        ||| self.year == other.year && {
            ||| self.month < other.month
            ||| self.month == other.month && {
                ||| self.day < other.day
                ||| self.day == other.day && {
                    ||| self.hour < other.hour
                    ||| self.hour == other.hour && {
                        ||| self.minute < other.minute
                        ||| self.minute == other.minute && {
                            ||| self.second < other.second
                            ||| self.second == other.second && self.frac < other.frac
                        }
                    }
                }
            }
        }
    }
}

/// An instant is valid when its fields are a real date and time and its fraction is less than a
/// second, and its timestamp is that of its fields.
pub proof fn law_instant_fields(t: Instant)
    ensures
        t.valid() <==> 0 <= t.frac < 1_000_000_000 && valid_fields(
            t.year,
            t.month,
            t.day,
            t.hour,
            t.minute,
            t.second,
        ),
        t.nanos() == civil_nanos(t.year, t.month, t.day, t.hour, t.minute, t.second, t.frac),
{
}

/// Timestamps keep the order of the instants they stand for.
pub proof fn law_nanos_ordered(a: Instant, b: Instant)
    requires
        a.valid(),
        b.valid(),
    ensures
        a.before(b) <==> a.nanos() < b.nanos(),
{
    if a.before(b) {
        lemma_before_less(a, b);
    } else if b.before(a) {
        lemma_before_less(b, a);
    } else {
        assert(a == b);
    }
}

proof fn lemma_before_less(a: Instant, b: Instant)
    requires
        a.valid(),
        b.valid(),
        a.before(b),
    ensures
        a.nanos() < b.nanos(),
{
    let day_a: int = civil_day(a.year, a.month, a.day);
    let day_b: int = civil_day(b.year, b.month, b.day);
    lemma_days_before_month(a.year, a.month);
    lemma_days_before_month(b.year, b.month);
    if a.year < b.year {
        lemma_years_ordered(a.year, b.year);
        assert(day_a < day_b);
    } else if a.month < b.month {
        lemma_months_ordered(a.year, a.month, b.month);
        assert(day_a < day_b);
    } else if a.day < b.day {
        assert(day_a < day_b);
    } else {
        assert(day_a == day_b);
    }
}

} // verus!
