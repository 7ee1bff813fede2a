//! Time values: spans of time, and instants seen in the machine's local
//! time zone. The calendar and the time zone are chrono's; the library holds
//! plain snapshots of what chrono reports.

use vstd::prelude::*;
use chrono::{DateTime, Datelike, FixedOffset, Local, TimeDelta, TimeZone, Timelike};

verus! {

/// A span of time: whole seconds and the nanoseconds beyond them.
#[derive(Debug, Clone, Copy, PartialEq, Eq)]
pub struct Duration {
    secs: u64,
    nanos: u32,
}

impl Duration {
    /// The whole seconds of the span.
    pub closed spec fn secs_spec(&self) -> u64 {
        self.secs
    }

    /// The nanoseconds beyond the whole seconds.
    pub closed spec fn nanos_spec(&self) -> u32 {
        self.nanos
    }

    /// A span of `secs` seconds.
    pub fn from_secs(secs: u64) -> (d: Duration)
        ensures
            d.secs_spec() == secs,
            d.nanos_spec() == 0,
    {
        Duration { secs, nanos: 0 }
    }

    /// The whole seconds of the span.
    pub fn as_secs(&self) -> (r: u64)
        ensures
            r == self.secs_spec(),
    {
        self.secs
    }

    /// The nanoseconds beyond the whole seconds.
    pub fn subsec_nanos(&self) -> (r: u32)
        ensures
            r == self.nanos_spec(),
    {
        self.nanos
    }
}

/// The earliest second chrono can represent, as a UNIX timestamp
/// (-262143-01-01 00:00:00 UTC).
pub const MIN_TIMESTAMP: i64 = -8334601228800;

/// The latest second chrono can represent, as a UNIX timestamp
/// (262142-12-31 23:59:59 UTC).
pub const MAX_TIMESTAMP: i64 = 8210266876799;

/// The largest number of seconds chrono's `TimeDelta::try_seconds` takes.
pub const MAX_DELTA_SECS: i64 = 9223372036854775;

/// A bound on the timestamp of any local time chrono produces: the
/// representable UTC range widened by a day for the local offset.
pub const TIMESTAMP_BOUND: i64 = 8400000000000;

/// `year` is a leap year of the proleptic Gregorian calendar.
pub open spec fn is_leap(year: int) -> bool {
    year % 4 == 0 && (year % 100 != 0 || year % 400 == 0)
}

/// The number of days of a month.
pub open spec fn days_in_month(year: int, month: int) -> int {
    if month == 2 {
        if is_leap(year) {
            29
        } else {
            28
        }
    } else if month == 4 || month == 6 || month == 9 || month == 11 {
        30
    } else {
        31
    }
}

/// The calendar has this day: a month in 1..=12 and a day of that month.
pub open spec fn date_exists(year: int, month: int, day: int) -> bool {
    1 <= month <= 12 && 1 <= day <= days_in_month(year, month)
}

/// The days from 1970-01-01 to the given day of the proleptic Gregorian
/// calendar (negative before it).
#[verifier::opaque]
pub open spec fn days_from_civil(year: int, month: int, day: int) -> int {
    let y = if month <= 2 { year - 1 } else { year };
    let era = y / 400;
    let yoe = y - era * 400;
    let mp = (month + 9) % 12;
    let doy = (153 * mp + 2) / 5 + day - 1;
    let doe = yoe * 365 + yoe / 4 - yoe / 100 + doy;
    era * 146097 + doe - 719468
}

/// What a local date-time holds: its instant (UNIX seconds and
/// nanoseconds) and its calendar fields in the local time zone.
pub struct CivilTime {
    pub timestamp: int,
    pub nanos: int,
    pub year: int,
    pub month: int,
    pub day: int,
    pub hour: int,
    pub minute: int,
    pub second: int,
    /// Days since the last Sunday (0 is Sunday).
    pub weekday: int,
    /// Seconds that the local time is ahead of UTC at this instant.
    pub offset: int,
}

impl CivilTime {
    /// The fields lie in the ranges chrono gives them, and they are the
    /// local calendar date and time of the instant under the offset.
    pub open spec fn wf(self) -> bool {
        &&& -TIMESTAMP_BOUND <= self.timestamp <= TIMESTAMP_BOUND
        &&& 0 <= self.nanos < 1_000_000_000
        &&& -300000 <= self.year <= 300000
        &&& 1 <= self.month <= 12
        &&& 1 <= self.day <= 31
        &&& date_exists(self.year, self.month, self.day)
        &&& 0 <= self.hour < 24
        &&& 0 <= self.minute < 60
        &&& 0 <= self.second < 60
        &&& 0 <= self.weekday < 7
        &&& -86400 < self.offset < 86400
        &&& self.timestamp + self.offset == self.local_secs()
        &&& self.weekday == (days_from_civil(self.year, self.month, self.day) + 4) % 7
    }

    /// The local date and time as seconds from 1970-01-01 00:00 of the same
    /// calendar: the instant moved by the offset.
    pub open spec fn local_secs(self) -> int {
        days_from_civil(self.year, self.month, self.day) * 86400 + self.clock_secs()
    }

    /// The local time of day in seconds since midnight.
    pub open spec fn clock_secs(self) -> int {
        self.hour * 3600 + self.minute * 60 + self.second
    }

    /// `self` is an earlier instant than `other`.
    pub open spec fn before(self, other: CivilTime) -> bool {
        ||| self.timestamp < other.timestamp
        ||| (self.timestamp == other.timestamp && self.nanos < other.nanos)
    }

    /// The same local date.
    pub open spec fn same_date(self, other: CivilTime) -> bool {
        self.year == other.year && self.month == other.month && self.day == other.day
    }

    /// The same local time of day, nanoseconds included.
    pub open spec fn same_clock(self, other: CivilTime) -> bool {
        &&& self.hour == other.hour
        &&& self.minute == other.minute
        &&& self.second == other.second
        &&& self.nanos == other.nanos
    }

    /// The timestamp lies in chrono's representable range.
    pub open spec fn representable(self) -> bool {
        MIN_TIMESTAMP <= self.timestamp <= MAX_TIMESTAMP
    }
}

/// An instant with its calendar fields in the local time zone, as chrono
/// reports them. Only chrono's results build one.
#[derive(Debug, Clone, Copy, PartialEq, Eq, PartialOrd, Ord, Hash)]
pub struct LocalDateTime {
    timestamp: i64,
    nanos: u32,
    year: i32,
    month: u32,
    day: u32,
    hour: u32,
    minute: u32,
    second: u32,
    weekday: u32,
    offset: i32,
}

impl View for LocalDateTime {
    type V = CivilTime;

    closed spec fn view(&self) -> CivilTime {
        CivilTime {
            timestamp: self.timestamp as int,
            nanos: self.nanos as int,
            year: self.year as int,
            month: self.month as int,
            day: self.day as int,
            hour: self.hour as int,
            minute: self.minute as int,
            second: self.second as int,
            weekday: self.weekday as int,
            offset: self.offset as int,
        }
    }
}

/// Within a month, each day is one day after the one before.
pub proof fn lemma_days_in_month_start(year: int, month: int, day: int)
    requires
        1 <= month <= 12,
    ensures
        days_from_civil(year, month, day) == days_from_civil(year, month, 1) + day - 1,
{
    reveal(days_from_civil);
}

/// A March-based year (March of `y` to February of `y + 1`) has 366 days
/// when `y + 1` is a leap year, else 365.
proof fn lemma_shifted_year(y: int)
    ensures
        ({
            let e1 = (y + 1) / 400;
            let r1 = (y + 1) - e1 * 400;
            let e0 = y / 400;
            let r0 = y - e0 * 400;
            (e1 * 146097 + r1 * 365 + r1 / 4 - r1 / 100) - (e0 * 146097 + r0 * 365 + r0 / 4
                - r0 / 100) == 365 + (if is_leap(y + 1) { 1int } else { 0 })
        }),
{
    let e0 = y / 400;
    let r0 = y - e0 * 400;
    assert(0 <= r0 < 400);
    if r0 == 399 {
        assert((y + 1) / 400 == e0 + 1);
        assert((y + 1) % 400 == 0);
        assert((y + 1) % 4 == 0) by {
            assert(y + 1 == (e0 + 1) * 400);
            assert(((e0 + 1) * 400) % 4 == 0) by (nonlinear_arith);
        }
    } else {
        assert((y + 1) / 400 == e0);
        let r1 = r0 + 1;
        assert((y + 1) % 4 == r1 % 4) by {
            assert(y + 1 == e0 * 400 + r1);
            assert((e0 * 400 + r1) % 4 == r1 % 4) by (nonlinear_arith)
                requires
                    0 <= r1 < 400,
            {
                assert(e0 * 400 + r1 == 4 * (e0 * 100) + r1);
            }
        }
        assert((y + 1) % 100 == r1 % 100) by {
            assert(y + 1 == e0 * 400 + r1);
            assert((e0 * 400 + r1) % 100 == r1 % 100) by (nonlinear_arith)
                requires
                    0 <= r1 < 400,
            {
                assert(e0 * 400 + r1 == 100 * (e0 * 4) + r1);
            }
        }
        assert((y + 1) % 400 == r1);
    }
}

/// The first of the next month is the month's length after the first of this
/// one.
pub proof fn lemma_next_month_start(year: int, month: int)
    requires
        1 <= month <= 12,
    ensures
        days_from_civil(
            if month == 12 { year + 1 } else { year },
            if month == 12 { 1 } else { month + 1 },
            1,
        ) == days_from_civil(year, month, 1) + days_in_month(year, month),
{
    reveal(days_from_civil);
    if month == 2 {
        lemma_shifted_year(year - 1);
    }
}

/// Spans with the same seconds and nanoseconds are equal.
pub proof fn lemma_duration_eq(a: Duration, b: Duration)
    requires
        a.secs_spec() == b.secs_spec(),
        a.nanos_spec() == b.nanos_spec(),
    ensures
        a == b,
{
}
/// The day `(y1, m1, d1)` comes before `(y2, m2, d2)` in the calendar.
pub open spec fn date_before(y1: int, m1: int, d1: int, y2: int, m2: int, d2: int) -> bool {
    y1 < y2 || (y1 == y2 && (m1 < m2 || (m1 == m2 && d1 < d2)))
}

/// A day of a month comes before the first of the next month.
pub proof fn lemma_month_end(y: int, m: int, d: int)
    requires
        date_exists(y, m, d),
    ensures
        days_from_civil(y, m, d) < days_from_civil(y, m, 1) + days_in_month(y, m),
        days_from_civil(y, m, 1) <= days_from_civil(y, m, d),
{
    lemma_days_in_month_start(y, m, d);
}

/// Within a year, a month starts after the months before it end.
proof fn lemma_month_order(y: int, m1: int, m2: int)
    requires
        1 <= m1 < m2 <= 12,
    ensures
        days_from_civil(y, m1, 1) + days_in_month(y, m1) <= days_from_civil(y, m2, 1),
    decreases m2 - m1,
{
    lemma_next_month_start(y, m1);
    if m1 + 1 < m2 {
        lemma_month_order(y, m1 + 1, m2);
    }
}

/// A year starts after the years before it end.
proof fn lemma_year_order(y1: int, y2: int)
    requires
        y1 < y2,
    ensures
        days_from_civil(y1, 12, 1) + 31 <= days_from_civil(y2, 1, 1),
    decreases y2 - y1,
{
    lemma_next_month_start(y1, 12);
    if y1 + 1 < y2 {
        lemma_year_order(y1 + 1, y2);
        lemma_month_order(y1 + 1, 1, 12);
    }
}

/// Later days of the calendar have larger day numbers.
pub proof fn lemma_days_monotone(y1: int, m1: int, d1: int, y2: int, m2: int, d2: int)
    requires
        date_exists(y1, m1, d1),
        date_exists(y2, m2, d2),
        date_before(y1, m1, d1, y2, m2, d2),
    ensures
        days_from_civil(y1, m1, d1) < days_from_civil(y2, m2, d2),
{
    lemma_month_end(y1, m1, d1);
    lemma_month_end(y2, m2, d2);
    if y1 == y2 {
        if m1 == m2 {
            lemma_days_in_month_start(y1, m1, d1);
            lemma_days_in_month_start(y2, m2, d2);
        } else {
            lemma_month_order(y1, m1, m2);
        }
    } else {
        if m1 < 12 {
            lemma_month_order(y1, m1, 12);
        }
        lemma_year_order(y1, y2);
        if m2 > 1 {
            lemma_month_order(y2, 1, m2);
        }
    }
}

/// Days with the same day number are the same day.
pub proof fn lemma_days_injective(y1: int, m1: int, d1: int, y2: int, m2: int, d2: int)
    requires
        date_exists(y1, m1, d1),
        date_exists(y2, m2, d2),
        days_from_civil(y1, m1, d1) == days_from_civil(y2, m2, d2),
    ensures
        y1 == y2 && m1 == m2 && d1 == d2,
{
    if date_before(y1, m1, d1, y2, m2, d2) {
        lemma_days_monotone(y1, m1, d1, y2, m2, d2);
    } else if date_before(y2, m2, d2, y1, m1, d1) {
        lemma_days_monotone(y2, m2, d2, y1, m1, d1);
    }
}

/// The local seconds of a well-formed time split into its day number and its
/// time of day; times with the same local seconds have the same fields.
pub proof fn lemma_local_split(c: CivilTime, e: CivilTime)
    requires
        c.wf(),
        e.wf(),
        c.local_secs() == e.local_secs(),
    ensures
        c.same_date(e) && c.hour == e.hour && c.minute == e.minute && c.second == e.second
            && c.weekday == e.weekday,
{
    let dc = days_from_civil(c.year, c.month, c.day);
    let de = days_from_civil(e.year, e.month, e.day);
    vstd::arithmetic::div_mod::lemma_fundamental_div_mod_converse(c.local_secs(), 86400, dc, c.clock_secs());
    vstd::arithmetic::div_mod::lemma_fundamental_div_mod_converse(e.local_secs(), 86400, de, e.clock_secs());
    lemma_days_injective(c.year, c.month, c.day, e.year, e.month, e.day);
}

// ---------------------------------------------------------------- chrono
//
// A value goes to chrono as the `DateTime<Local>` it was read from: its
// instant with the offset it carries, so chrono sees the same local fields.
// A changed value is resolved in the machine's time zone at the call, as
// chrono's `map_local` does; the offset it gets is read back with it.

/// `SystemTime::now()`, measured from `UNIX_EPOCH` with `duration_since`,
/// as whole seconds and nanoseconds. Trusted: the nanoseconds are below one
/// second; there is no reading when the clock stands before 1970. Which
/// instant it reads is the machine's clock and is not stated.
#[verifier::external_body]
fn system_clock() -> (r: Option<(u64, u32)>)
    ensures
        r matches Some(p) ==> p.1 < 1_000_000_000,
{
    let d = std::time::SystemTime::now().duration_since(std::time::UNIX_EPOCH).ok()?;
    Some((d.as_secs(), d.subsec_nanos()))
}

/// `Local.with_ymd_and_hms(..).single()`. Trusted: when chrono finds exactly
/// one instant with these local fields, the result carries them, with no
/// nanoseconds; there is none for a day that the calendar does not have
/// (such as April 31 or February 29 of a common year), an hour from 24, a
/// minute or second from 60. Whether a valid local time exists in the
/// machine's time zone is not stated.
#[verifier::external_body]
fn chrono_from_ymd_hms(year: i32, month: u32, day: u32, hour: u32, minute: u32, second: u32) -> (r:
    Option<LocalDateTime>)
    ensures
        r matches Some(v) ==> v@.wf() && v@.year == year && v@.month == month && v@.day == day
            && v@.hour == hour && v@.minute == minute && v@.second == second && v@.nanos == 0,
        (!date_exists(year as int, month as int, day as int) || hour >= 24 || minute >= 60
            || second >= 60) ==> r is None,
{
    let d = Local.with_ymd_and_hms(year, month, day, hour, minute, second).single()?;
    Some(LocalDateTime { timestamp: d.timestamp(), nanos: d.timestamp_subsec_nanos(), year: d.year(),
        month: d.month(), day: d.day(), hour: d.hour(), minute: d.minute(), second: d.second(),
        weekday: d.weekday().num_days_from_sunday(),
        offset: d.offset().local_minus_utc() })
}

/// `Local.timestamp_opt(secs, nanos).single()`. Trusted: the result is the
/// instant given, with its local fields; chrono gives one exactly when the
/// timestamp is in its range.
#[verifier::external_body]
fn chrono_from_timestamp(secs: i64, nanos: u32) -> (r: Option<LocalDateTime>)
    requires
        nanos < 1_000_000_000,
    ensures
        r matches Some(v) ==> v@.wf() && v@.timestamp == secs && v@.nanos == nanos,
        r is Some <==> MIN_TIMESTAMP <= secs <= MAX_TIMESTAMP,
{
    let d = Local.timestamp_opt(secs, nanos).single()?;
    Some(LocalDateTime { timestamp: d.timestamp(), nanos: d.timestamp_subsec_nanos(), year: d.year(),
        month: d.month(), day: d.day(), hour: d.hour(), minute: d.minute(), second: d.second(),
        weekday: d.weekday().num_days_from_sunday(),
        offset: d.offset().local_minus_utc() })
}

/// `DateTime::checked_add_signed` with `TimeDelta::try_seconds(secs)`.
/// Trusted: the result is the instant `secs` seconds later (earlier when
/// negative), nanoseconds kept; for an instant and a delta in chrono's range,
/// chrono gives one exactly when the new instant is in range too. Its local
/// fields are not stated.
#[verifier::external_body]
fn chrono_add_seconds(t: &LocalDateTime, secs: i64) -> (r: Option<LocalDateTime>)
    ensures
        r matches Some(v) ==> v@.wf() && v@.timestamp == t@.timestamp + secs && v@.nanos
            == t@.nanos,
        (t@.representable() && -MAX_DELTA_SECS <= secs <= MAX_DELTA_SECS) ==> (r is Some <==> (
        MIN_TIMESTAMP <= t@.timestamp + secs <= MAX_TIMESTAMP)),
{
    let d = DateTime::<Local>::from_naive_utc_and_offset(
        DateTime::from_timestamp(t.timestamp, t.nanos)?.naive_utc(), FixedOffset::east_opt(t.offset)?);
    let d = d.checked_add_signed(TimeDelta::try_seconds(secs)?)?;
    Some(LocalDateTime { timestamp: d.timestamp(), nanos: d.timestamp_subsec_nanos(), year: d.year(),
        month: d.month(), day: d.day(), hour: d.hour(), minute: d.minute(), second: d.second(),
        weekday: d.weekday().num_days_from_sunday(),
        offset: d.offset().local_minus_utc() })
}

/// `Datelike::with_year`. Trusted: a result has that year and the same
/// month, day and time of day; there is none where that day does not exist
/// (February 29 of a common year). Whether the local time exists in the
/// machine's time zone is not stated.
#[verifier::external_body]
fn chrono_with_year(t: &LocalDateTime, year: i32) -> (r: Option<LocalDateTime>)
    ensures
        r matches Some(v) ==> v@.wf() && v@.year == year && v@.month == t@.month && v@.day
            == t@.day && v@.same_clock(t@),
        !date_exists(year as int, t@.month, t@.day) ==> r is None,
{
    let d = DateTime::<Local>::from_naive_utc_and_offset(
        DateTime::from_timestamp(t.timestamp, t.nanos)?.naive_utc(), FixedOffset::east_opt(t.offset)?).with_year(year)?;
    Some(LocalDateTime { timestamp: d.timestamp(), nanos: d.timestamp_subsec_nanos(), year: d.year(),
        month: d.month(), day: d.day(), hour: d.hour(), minute: d.minute(), second: d.second(),
        weekday: d.weekday().num_days_from_sunday(),
        offset: d.offset().local_minus_utc() })
}

/// `Datelike::with_month`. Trusted: a result has that month and the same
/// year, day and time of day; there is none for a month outside 1..=12 or
/// one that lacks the day (April 31). Whether the local time exists in the
/// machine's time zone is not stated.
#[verifier::external_body]
fn chrono_with_month(t: &LocalDateTime, month: u32) -> (r: Option<LocalDateTime>)
    ensures
        r matches Some(v) ==> v@.wf() && v@.month == month && v@.year == t@.year && v@.day
            == t@.day && v@.same_clock(t@),
        !date_exists(t@.year, month as int, t@.day) ==> r is None,
{
    let d = DateTime::<Local>::from_naive_utc_and_offset(
        DateTime::from_timestamp(t.timestamp, t.nanos)?.naive_utc(), FixedOffset::east_opt(t.offset)?).with_month(month)?;
    Some(LocalDateTime { timestamp: d.timestamp(), nanos: d.timestamp_subsec_nanos(), year: d.year(),
        month: d.month(), day: d.day(), hour: d.hour(), minute: d.minute(), second: d.second(),
        weekday: d.weekday().num_days_from_sunday(),
        offset: d.offset().local_minus_utc() })
}

/// `Datelike::with_day`. Trusted: a result has that day and the same year,
/// month and time of day; there is none for a day the month lacks. Whether
/// the local time exists in the machine's time zone is not stated.
#[verifier::external_body]
fn chrono_with_day(t: &LocalDateTime, day: u32) -> (r: Option<LocalDateTime>)
    ensures
        r matches Some(v) ==> v@.wf() && v@.day == day && v@.year == t@.year && v@.month
            == t@.month && v@.same_clock(t@),
        !date_exists(t@.year, t@.month, day as int) ==> r is None,
{
    let d = DateTime::<Local>::from_naive_utc_and_offset(
        DateTime::from_timestamp(t.timestamp, t.nanos)?.naive_utc(), FixedOffset::east_opt(t.offset)?).with_day(day)?;
    Some(LocalDateTime { timestamp: d.timestamp(), nanos: d.timestamp_subsec_nanos(), year: d.year(),
        month: d.month(), day: d.day(), hour: d.hour(), minute: d.minute(), second: d.second(),
        weekday: d.weekday().num_days_from_sunday(),
        offset: d.offset().local_minus_utc() })
}

/// `Timelike::with_hour`. Trusted: a result has that hour and the same
/// date (hence weekday), minute, second and nanoseconds, so its local time
/// moved by the change of hour; none from hour 24.
#[verifier::external_body]
fn chrono_with_hour(t: &LocalDateTime, hour: u32) -> (r: Option<LocalDateTime>)
    ensures
        r matches Some(v) ==> v@.wf() && v@.hour == hour && v@.same_date(t@) && v@.weekday
            == t@.weekday && v@.minute == t@.minute && v@.second == t@.second && v@.nanos
            == t@.nanos,
        hour >= 24 ==> r is None,
        r matches Some(v) ==> v@.timestamp + v@.offset == t@.timestamp + t@.offset + v@.clock_secs()
            - t@.clock_secs(),
{
    let d = DateTime::<Local>::from_naive_utc_and_offset(
        DateTime::from_timestamp(t.timestamp, t.nanos)?.naive_utc(), FixedOffset::east_opt(t.offset)?).with_hour(hour)?;
    Some(LocalDateTime { timestamp: d.timestamp(), nanos: d.timestamp_subsec_nanos(), year: d.year(),
        month: d.month(), day: d.day(), hour: d.hour(), minute: d.minute(), second: d.second(),
        weekday: d.weekday().num_days_from_sunday(),
        offset: d.offset().local_minus_utc() })
}

/// `Timelike::with_minute`. Trusted: a result has that minute and the same
/// date, hour, second and nanoseconds, so its local time moved by the change
/// of minute; none from minute 60.
#[verifier::external_body]
fn chrono_with_minute(t: &LocalDateTime, minute: u32) -> (r: Option<LocalDateTime>)
    ensures
        r matches Some(v) ==> v@.wf() && v@.minute == minute && v@.same_date(t@) && v@.weekday
            == t@.weekday && v@.hour == t@.hour && v@.second == t@.second && v@.nanos == t@.nanos,
        minute >= 60 ==> r is None,
        r matches Some(v) ==> v@.timestamp + v@.offset == t@.timestamp + t@.offset + v@.clock_secs()
            - t@.clock_secs(),
{
    let d = DateTime::<Local>::from_naive_utc_and_offset(
        DateTime::from_timestamp(t.timestamp, t.nanos)?.naive_utc(), FixedOffset::east_opt(t.offset)?).with_minute(minute)?;
    Some(LocalDateTime { timestamp: d.timestamp(), nanos: d.timestamp_subsec_nanos(), year: d.year(),
        month: d.month(), day: d.day(), hour: d.hour(), minute: d.minute(), second: d.second(),
        weekday: d.weekday().num_days_from_sunday(),
        offset: d.offset().local_minus_utc() })
}

/// `Timelike::with_second`. Trusted: a result has that second and the same
/// date, hour, minute and nanoseconds, so its local time moved by the change
/// of second; none from second 60.
#[verifier::external_body]
fn chrono_with_second(t: &LocalDateTime, second: u32) -> (r: Option<LocalDateTime>)
    ensures
        r matches Some(v) ==> v@.wf() && v@.second == second && v@.same_date(t@) && v@.weekday
            == t@.weekday && v@.hour == t@.hour && v@.minute == t@.minute && v@.nanos == t@.nanos,
        second >= 60 ==> r is None,
        r matches Some(v) ==> v@.timestamp + v@.offset == t@.timestamp + t@.offset + v@.clock_secs()
            - t@.clock_secs(),
{
    let d = DateTime::<Local>::from_naive_utc_and_offset(
        DateTime::from_timestamp(t.timestamp, t.nanos)?.naive_utc(), FixedOffset::east_opt(t.offset)?).with_second(second)?;
    Some(LocalDateTime { timestamp: d.timestamp(), nanos: d.timestamp_subsec_nanos(), year: d.year(),
        month: d.month(), day: d.day(), hour: d.hour(), minute: d.minute(), second: d.second(),
        weekday: d.weekday().num_days_from_sunday(),
        offset: d.offset().local_minus_utc() })
}

/// `Timelike::with_nanosecond`. Trusted: a result has those nanoseconds and
/// the same date, hour, minute and second, so the same local second.
#[verifier::external_body]
fn chrono_with_nanosecond(t: &LocalDateTime, nano: u32) -> (r: Option<LocalDateTime>)
    requires
        nano < 1_000_000_000,
    ensures
        r matches Some(v) ==> v@.wf() && v@.nanos == nano && v@.same_date(t@) && v@.weekday
            == t@.weekday && v@.hour == t@.hour && v@.minute == t@.minute && v@.second == t@.second,
        r matches Some(v) ==> v@.timestamp + v@.offset == t@.timestamp + t@.offset,
{
    let d = DateTime::<Local>::from_naive_utc_and_offset(
        DateTime::from_timestamp(t.timestamp, t.nanos)?.naive_utc(), FixedOffset::east_opt(t.offset)?).with_nanosecond(nano)?;
    Some(LocalDateTime { timestamp: d.timestamp(), nanos: d.timestamp_subsec_nanos(), year: d.year(),
        month: d.month(), day: d.day(), hour: d.hour(), minute: d.minute(), second: d.second(),
        weekday: d.weekday().num_days_from_sunday(),
        offset: d.offset().local_minus_utc() })
}

// ---------------------------------------------------------------- api

impl LocalDateTime {
    #[verifier::type_invariant]
    spec fn inv(self) -> bool {
        self@.wf()
    }

    /// The current local date and time; none when the machine's clock stands
    /// before 1970 or past the range chrono represents.
    pub fn now() -> (r: Option<LocalDateTime>)
        ensures
            r matches Some(v) ==> v@.representable(),
    {
        let (secs, nanos) = system_clock()?;
        if secs > MAX_TIMESTAMP as u64 {
            return None;
        }
        LocalDateTime::from_timestamp(secs as i64, nanos)
    }

    /// The local date and time with these fields and no nanoseconds, when the
    /// machine's time zone has exactly one such instant.
    pub fn from_ymd_hms(year: i32, month: u32, day: u32, hour: u32, minute: u32, second: u32) -> (r:
        Option<LocalDateTime>)
        ensures
            r matches Some(v) ==> v@.wf(),
            r matches Some(v) ==> v@.year == year && v@.month == month && v@.day == day && v@.hour
                == hour && v@.minute == minute && v@.second == second && v@.nanos == 0,
            (!date_exists(year as int, month as int, day as int) || hour >= 24 || minute >= 60
                || second >= 60) ==> r is None,
    {
        chrono_from_ymd_hms(year, month, day, hour, minute, second)
    }

    /// The instant `secs` seconds and `nanos` nanoseconds after the UNIX
    /// epoch, seen in the local time zone.
    pub fn from_timestamp(secs: i64, nanos: u32) -> (r: Option<LocalDateTime>)
        requires
            nanos < 1_000_000_000,
        ensures
            r matches Some(v) ==> v@.wf(),
            r matches Some(v) ==> v@.timestamp == secs && v@.nanos == nanos,
            r is Some <==> MIN_TIMESTAMP <= secs <= MAX_TIMESTAMP,
    {
        chrono_from_timestamp(secs, nanos)
    }

    /// The instant `secs` seconds later (earlier when negative).
    pub fn checked_add_seconds(&self, secs: i64) -> (r: Option<LocalDateTime>)
        ensures
            r matches Some(v) ==> v@.wf(),
            r matches Some(v) ==> v@.timestamp == self@.timestamp + secs && v@.nanos
                == self@.nanos,
            (self@.representable() && -MAX_DELTA_SECS <= secs <= MAX_DELTA_SECS) ==> (r is Some
                <==> (MIN_TIMESTAMP <= self@.timestamp + secs <= MAX_TIMESTAMP)),
    {
        chrono_add_seconds(self, secs)
    }

    /// The same local date and time with another year.
    pub fn with_year(&self, year: i32) -> (r: Option<LocalDateTime>)
        ensures
            r matches Some(v) ==> v@.wf(),
            r matches Some(v) ==> v@.year == year && v@.month == self@.month && v@.day
                == self@.day && v@.same_clock(self@),
            !date_exists(year as int, self@.month, self@.day) ==> r is None,
    {
        chrono_with_year(self, year)
    }

    /// The same local date and time in another month.
    pub fn with_month(&self, month: u32) -> (r: Option<LocalDateTime>)
        ensures
            r matches Some(v) ==> v@.wf(),
            r matches Some(v) ==> v@.month == month && v@.year == self@.year && v@.day
                == self@.day && v@.same_clock(self@),
            !date_exists(self@.year, month as int, self@.day) ==> r is None,
    {
        chrono_with_month(self, month)
    }

    /// The same local time on another day of the month.
    pub fn with_day(&self, day: u32) -> (r: Option<LocalDateTime>)
        ensures
            r matches Some(v) ==> v@.wf(),
            r matches Some(v) ==> v@.day == day && v@.year == self@.year && v@.month
                == self@.month && v@.same_clock(self@),
            !date_exists(self@.year, self@.month, day as int) ==> r is None,
    {
        chrono_with_day(self, day)
    }

    /// The same local date and time with another hour.
    pub fn with_hour(&self, hour: u32) -> (r: Option<LocalDateTime>)
        ensures
            r matches Some(v) ==> v@.wf(),
            r matches Some(v) ==> v@.hour == hour && v@.same_date(self@) && v@.weekday
                == self@.weekday && v@.minute == self@.minute && v@.second == self@.second
                && v@.nanos == self@.nanos,
            hour >= 24 ==> r is None,
            r matches Some(v) ==> v@.timestamp + v@.offset == self@.timestamp + self@.offset
                + v@.clock_secs() - self@.clock_secs(),
    {
        chrono_with_hour(self, hour)
    }

    /// The same local date and time with another minute.
    pub fn with_minute(&self, minute: u32) -> (r: Option<LocalDateTime>)
        ensures
            r matches Some(v) ==> v@.wf(),
            r matches Some(v) ==> v@.minute == minute && v@.same_date(self@) && v@.weekday
                == self@.weekday && v@.hour == self@.hour && v@.second == self@.second
                && v@.nanos == self@.nanos,
            minute >= 60 ==> r is None,
            r matches Some(v) ==> v@.timestamp + v@.offset == self@.timestamp + self@.offset
                + v@.clock_secs() - self@.clock_secs(),
    {
        chrono_with_minute(self, minute)
    }

    /// The same local date and time with another second.
    pub fn with_second(&self, second: u32) -> (r: Option<LocalDateTime>)
        ensures
            r matches Some(v) ==> v@.wf(),
            r matches Some(v) ==> v@.second == second && v@.same_date(self@) && v@.weekday
                == self@.weekday && v@.hour == self@.hour && v@.minute == self@.minute
                && v@.nanos == self@.nanos,
            second >= 60 ==> r is None,
            r matches Some(v) ==> v@.timestamp + v@.offset == self@.timestamp + self@.offset
                + v@.clock_secs() - self@.clock_secs(),
    {
        chrono_with_second(self, second)
    }

    /// The same local date and time with other nanoseconds.
    pub fn with_nanosecond(&self, nano: u32) -> (r: Option<LocalDateTime>)
        requires
            nano < 1_000_000_000,
        ensures
            r matches Some(v) ==> v@.wf(),
            r matches Some(v) ==> v@.nanos == nano && v@.same_date(self@) && v@.weekday
                == self@.weekday && v@.hour == self@.hour && v@.minute == self@.minute
                && v@.second == self@.second,
            r matches Some(v) ==> v@.timestamp + v@.offset == self@.timestamp + self@.offset,
    {
        chrono_with_nanosecond(self, nano)
    }

    /// Seconds since the UNIX epoch.
    pub fn timestamp(&self) -> (r: i64)
        ensures
            r == self@.timestamp,
            self@.wf(),
    {
        proof {
            use_type_invariant(self);
        }
        self.timestamp
    }

    /// Nanoseconds beyond the whole second.
    pub fn nanosecond(&self) -> (r: u32)
        ensures
            r == self@.nanos,
            self@.wf(),
    {
        proof {
            use_type_invariant(self);
        }
        self.nanos
    }

    /// The local year.
    pub fn year(&self) -> (r: i32)
        ensures
            r == self@.year,
            self@.wf(),
    {
        proof {
            use_type_invariant(self);
        }
        self.year
    }

    /// The local month, from 1.
    pub fn month(&self) -> (r: u32)
        ensures
            r == self@.month,
            self@.wf(),
    {
        proof {
            use_type_invariant(self);
        }
        self.month
    }

    /// The local day of the month, from 1.
    pub fn day(&self) -> (r: u32)
        ensures
            r == self@.day,
            self@.wf(),
    {
        proof {
            use_type_invariant(self);
        }
        self.day
    }

    /// The local hour.
    pub fn hour(&self) -> (r: u32)
        ensures
            r == self@.hour,
            self@.wf(),
    {
        proof {
            use_type_invariant(self);
        }
        self.hour
    }

    /// The local minute.
    pub fn minute(&self) -> (r: u32)
        ensures
            r == self@.minute,
            self@.wf(),
    {
        proof {
            use_type_invariant(self);
        }
        self.minute
    }

    /// The local second.
    pub fn second(&self) -> (r: u32)
        ensures
            r == self@.second,
            self@.wf(),
    {
        proof {
            use_type_invariant(self);
        }
        self.second
    }

    /// Days since the last Sunday (0 is Sunday).
    pub fn weekday_from_sunday(&self) -> (r: u32)
        ensures
            r == self@.weekday,
            self@.wf(),
    {
        proof {
            use_type_invariant(self);
        }
        self.weekday
    }

    /// `self` is an earlier instant than `other`.
    pub fn is_before(&self, other: &LocalDateTime) -> (r: bool)
        ensures
            r == self@.before(other@),
    {
        self.timestamp < other.timestamp || (self.timestamp == other.timestamp && self.nanos
            < other.nanos)
    }
}

} // verus!
