//! The time periods that the viewer shows (an hour, a day, a week starting on
//! Sunday, or a calendar month), how they move back and forth, how they map to
//! instants, and how they split into the bars of the chart.
//!
//! Calendar dates are numbered as chrono numbers them: days from the common era,
//! with January 1 of year 1 as day 1. Instants are Unix timestamps in seconds.
//! Date arithmetic is chrono's; the local time zone is the machine's, so what is
//! computed from it is stated only as far as it holds in every time zone.
use vstd::prelude::*;
use chrono::{Datelike, Days, Months, NaiveDate, TimeZone, Timelike, Weekday};

verus! {

/// Earliest date that chrono represents (January 1, 262144 BCE, year -262143), as a day number.
pub const DAY_MIN: i32 = -95746129;

/// Latest date that chrono represents (December 31, 262142), as a day number.
pub const DAY_MAX: i32 = 95745399;

/// Day number of January 1, 1970.
pub const UNIX_EPOCH_DAY: i64 = 719163;

/// Earliest instant that chrono represents, as a Unix timestamp.
pub const TS_MIN: i64 = -8334601228800;

/// Latest whole-second instant that chrono represents, as a Unix timestamp.
pub const TS_MAX: i64 = 8210266876799;

pub open spec fn day_valid(d: int) -> bool {
    DAY_MIN <= d <= DAY_MAX
}

pub open spec fn ts_valid(t: int) -> bool {
    TS_MIN <= t <= TS_MAX
}

/// An instant far enough from chrono's limits that its local date and time exist
/// in every time zone.
pub open spec fn ts_inner(t: int) -> bool {
    TS_MIN + 86400 <= t <= TS_MAX - 86400
}

/// The Unix timestamp of `secs` seconds after midnight of day `day`, read as UTC.
pub open spec fn naive_ts(day: int, secs: int) -> int {
    (day - UNIX_EPOCH_DAY) * 86400 + secs
}

/// A possible local reading of instant `t`: a date that chrono represents and a
/// time of day in seconds, which, taken as UTC, lie within a day of `t`.
pub open spec fn reading_near(t: int, r: (i32, u32)) -> bool {
    &&& day_valid(r.0 as int)
    &&& r.1 < 86400
    &&& t - 86400 < naive_ts(r.0 as int, r.1 as int) < t + 86400
}

/// What chrono's `checked_add_months` gives for day `d` plus `n` months (the day of
/// month is clamped to the length of the target month).
pub uninterp spec fn add_months_result(d: i32, n: u32) -> Option<i32>;

/// What chrono's `checked_sub_months` gives for day `d` minus `n` months.
pub uninterp spec fn sub_months_result(d: i32, n: u32) -> Option<i32>;

/// What chrono's `with_day(1)` gives for day `d`: the first day of its month.
pub uninterp spec fn first_of_month(d: i32) -> i32;

/// `NaiveDate::checked_add_days`: `d + n` when that date exists.
#[verifier::external_body]
pub(crate) fn date_add_days(d: i32, n: u32) -> (r: Option<i32>)
    requires
        day_valid(d as int),
    ensures
        r == (if day_valid(d + n) { Some((d + n) as i32) } else { None::<i32> }),
{
    let date = NaiveDate::from_num_days_from_ce_opt(d).unwrap();
    match date.checked_add_days(Days::new(n as u64)) {
        Some(x) => Some(x.num_days_from_ce()),
        None => None,
    }
}

/// `NaiveDate::checked_sub_days`: `d - n` when that date exists.
#[verifier::external_body]
fn date_sub_days(d: i32, n: u32) -> (r: Option<i32>)
    requires
        day_valid(d as int),
    ensures
        r == (if day_valid(d - n) { Some((d - n) as i32) } else { None::<i32> }),
{
    let date = NaiveDate::from_num_days_from_ce_opt(d).unwrap();
    match date.checked_sub_days(Days::new(n as u64)) {
        Some(x) => Some(x.num_days_from_ce()),
        None => None,
    }
}

/// `NaiveDate::checked_add_months`; what it gives is a date that chrono represents.
/// The day of the month is kept where the target month has it (else the month's
/// last day is taken), so one month or more on is at least 28 days later, and from
/// the first of a month it gives the first of a month, from which
/// `checked_sub_months` by the same count leads back.
#[verifier::external_body]
fn date_add_months(d: i32, n: u32) -> (r: Option<i32>)
    requires
        day_valid(d as int),
    ensures
        r == add_months_result(d, n),
        r matches Some(x) ==> day_valid(x as int),
        r matches Some(x) ==> (first_of_month(d) == d ==> first_of_month(x) == x && sub_months_result(x, n) == Some(d)),
        r matches Some(x) ==> (n >= 1 ==> d + 28 <= x),
{
    let date = NaiveDate::from_num_days_from_ce_opt(d).unwrap();
    match date.checked_add_months(Months::new(n)) {
        Some(x) => Some(x.num_days_from_ce()),
        None => None,
    }
}

/// `NaiveDate::checked_sub_months`; what it gives is a date that chrono represents.
/// One month or more back is at least 28 days earlier. From the first of a month it
/// gives the first of a month, from which `checked_add_months` by the same count
/// leads back.
#[verifier::external_body]
fn date_sub_months(d: i32, n: u32) -> (r: Option<i32>)
    requires
        day_valid(d as int),
    ensures
        r == sub_months_result(d, n),
        r matches Some(x) ==> day_valid(x as int),
        r matches Some(x) ==> (first_of_month(d) == d ==> first_of_month(x) == x && add_months_result(x, n) == Some(d)),
        r matches Some(x) ==> (n >= 1 ==> x + 28 <= d),
{
    let date = NaiveDate::from_num_days_from_ce_opt(d).unwrap();
    match date.checked_sub_months(Months::new(n)) {
        Some(x) => Some(x.num_days_from_ce()),
        None => None,
    }
}

/// `NaiveDate::with_day(1)`: the first day of the same month, which always exists,
/// lies at most 30 days before `d`, is a date that chrono represents, and is its
/// own first day of the month.
#[verifier::external_body]
fn date_month_start(d: i32) -> (r: i32)
    requires
        day_valid(d as int),
    ensures
        r == first_of_month(d),
        first_of_month(r) == r,
        r <= d,
        d - r <= 30,
        day_valid(r as int),
{
    let date = NaiveDate::from_num_days_from_ce_opt(d).unwrap();
    date.with_day(1).unwrap().num_days_from_ce()
}

/// `NaiveDate::week(Weekday::Sun).checked_first_day()`: the Sunday on or before
/// `d`. Day 1 is a Monday, so that Sunday is `d - d % 7` (remainder taken
/// non-negative); chrono gives it when it exists.
#[verifier::external_body]
fn date_week_start(d: i32) -> (r: Option<i32>)
    requires
        day_valid(d as int),
    ensures
        r == (if day_valid(d - d % 7) { Some((d - d % 7) as i32) } else { None::<i32> }),
{
    let date = NaiveDate::from_num_days_from_ce_opt(d).unwrap();
    match date.week(Weekday::Sun).checked_first_day() {
        Some(x) => Some(x.num_days_from_ce()),
        None => None,
    }
}

/// `DateTime::checked_add_signed` with a whole number of seconds: `t + secs` when
/// that instant exists.
#[verifier::external_body]
fn instant_add_secs(t: i64, secs: i64) -> (r: Option<i64>)
    requires
        ts_valid(t as int),
        -86400 <= secs <= 86400,
    ensures
        r == (if ts_valid(t + secs) { Some((t + secs) as i64) } else { None::<i64> }),
{
    let dt = chrono::DateTime::from_timestamp(t, 0).unwrap();
    match dt.checked_add_signed(chrono::TimeDelta::seconds(secs)) {
        Some(x) => Some(x.timestamp()),
        None => None,
    }
}

/// `Local.from_local_datetime(..).single()`: the instant at which the local clock
/// reads `secs` seconds after midnight of day `day`, when there is exactly one.
/// Which instant that is depends on the machine's time zone; what holds in every
/// zone is that it differs from the same reading taken as UTC by less than a day.
#[verifier::external_body]
fn local_instant(day: i32, secs: u32) -> (r: Option<i64>)
    requires
        day_valid(day as int),
        secs < 86400,
    ensures
        r matches Some(t) ==> ts_valid(t as int) && naive_ts(day as int, secs as int) - 86400 < t
            < naive_ts(day as int, secs as int) + 86400,
{
    let date = NaiveDate::from_num_days_from_ce_opt(day).unwrap();
    let time = chrono::NaiveTime::from_num_seconds_from_midnight_opt(secs, 0).unwrap();
    match chrono::Local.from_local_datetime(&date.and_time(time)).single() {
        Some(x) => Some(x.timestamp()),
        None => None,
    }
}

/// `DateTime::with_timezone(&Local)` followed by `date_naive()` and
/// `num_seconds_from_midnight()`: the local date, and the local time of day in
/// seconds, at instant `t`. They depend on the machine's time zone. Every offset
/// that chrono represents (a `FixedOffset`) is less than a day in either direction,
/// so the reading, taken as UTC, lies within a day of `t`.
#[verifier::external_body]
pub(crate) fn local_reading(t: i64) -> (r: (i32, u32))
    requires
        ts_inner(t as int),
    ensures
        reading_near(t as int, r),
{
    let local = chrono::DateTime::from_timestamp(t, 0).unwrap().with_timezone(&chrono::Local);
    (local.date_naive().num_days_from_ce(), local.num_seconds_from_midnight())
}

/// `SystemTime::now()` as whole seconds since 1970 (`duration_since(UNIX_EPOCH)`,
/// then `as_secs`): the clock that chrono's `Utc::now` reads. `None` where the clock
/// reads before 1970 (the error of `duration_since`). What it gives rests on the
/// clock, so nothing is stated of it.
#[verifier::external_body]
fn clock_secs() -> (r: Option<u64>) {
    match std::time::SystemTime::now().duration_since(std::time::UNIX_EPOCH) {
        Ok(d) => Some(d.as_secs()),
        Err(_) => None,
    }
}

/// A reading of the clock as a Unix timestamp: since 1970, and one that chrono represents.
pub open spec fn clock_ok(now: Option<i64>) -> bool {
    now matches Some(n) ==> 0 <= n && ts_valid(n as int)
}

/// The instant chrono's `Utc::now` makes of `secs` seconds since 1970 (`None` for no
/// reading): the same seconds where chrono represents them, `None` beyond.
pub fn timestamp_of_secs(secs: Option<u64>) -> (r: Option<i64>)
    ensures
        r == (match secs {
            Some(x) => if x <= TS_MAX { Some(x as i64) } else { None::<i64> },
            None => None::<i64>,
        }),
        clock_ok(r),
{
    match secs {
        Some(x) => if x <= TS_MAX as u64 {
            Some(x as i64)
        } else {
            None
        },
        None => None,
    }
}

/// The present moment as a Unix timestamp, where the clock reads a time since 1970
/// that chrono represents (where chrono's `Local::now` would stop with a panic, `None`).
pub(crate) fn now_timestamp() -> (r: Option<i64>)
    ensures
        clock_ok(r),
{
    timestamp_of_secs(clock_secs())
}

/// `r` is what `Period::bounds` can give for `p`: nothing where the span does not
/// exist, the exact two instants of an hour, and for the other kinds, where the
/// local midnights can be determined, two instants each within a day of the
/// corresponding midnight read as UTC.
pub open spec fn bounds_near(p: Period, r: Option<TimeBounds>) -> bool {
    match p.span_spec() {
        None => r is None,
        Some(LocalSpan::Instants(s, e)) => r == Some(TimeBounds(s, e)),
        Some(LocalSpan::Midnights(s, e)) => r matches Some(b) ==> (
            naive_ts(s as int, 0) - 86400 < b.0 < naive_ts(s as int, 0) + 86400
            && naive_ts(e as int, 0) - 86400 < b.1 < naive_ts(e as int, 0) + 86400
            && ts_valid(b.0 as int) && ts_valid(b.1 as int)),
    }
}

/// Whether a period with bounds `bnd` is still current at instant `now`: `now` is
/// before its end, or its end cannot be determined.
pub open spec fn current_given(now: int, bnd: Option<TimeBounds>) -> bool {
    match bnd {
        Some(b) => now < b.1,
        None => true,
    }
}

/// `p` is the period of kind `t` that contains instant `at` for some local reading
/// of `at` (a date and time of day within a day of `at` read as UTC): the one that
/// `of_local_time` gives for that date and, for an hour, an instant within a day of
/// the start of the reading's hour read as UTC.
pub open spec fn contained_by(t: PeriodType, at: int, p: Period) -> bool {
    exists|date: i32, secs: u32, hour_start: i64|
        #![trigger Period::of_local_time_spec(t, date, hour_start), reading_near(at, (date, secs))]
        reading_near(at, (date, secs)) && ts_valid(hour_start as int)
        && (t == PeriodType::Hour ==> naive_ts(date as int, secs / 3600 * 3600) - 86400 < hour_start
            < naive_ts(date as int, secs / 3600 * 3600) + 86400)
        && Some(p) == Period::of_local_time_spec(t, date, hour_start)
}

/// Where `Period::containing` owes a period: an instant a day or more from chrono's
/// limits, for a day or a month, and for a week also nine days or more from the
/// lower limit (so that the Sunday before it exists). For an hour the answer rests on
/// the time zone (the hour's start may not exist exactly once).
pub open spec fn containing_owed(t: PeriodType, at: int) -> bool {
    &&& ts_inner(at)
    &&& match t {
        PeriodType::Hour => false,
        PeriodType::Day | PeriodType::Month => true,
        PeriodType::Week => TS_MIN + 9 * 86400 <= at,
    }
}

/// Whether a period with bounds `bnd` is still current at instant `now`.
pub fn current_at(now: i64, bnd: Option<TimeBounds>) -> (b: bool)
    ensures
        b == current_given(now as int, bnd),
{
    match bnd {
        Some(x) => now < x.1,
        None => true,
    }
}

/// The kinds of period.
#[derive(Clone, Copy, Debug, PartialEq, Eq, Structural)]
pub enum PeriodType {
    Hour,
    Day,
    Week,
    Month,
}

/// A period: the hour that starts at an instant, or the day, the week (starting
/// on Sunday) or the calendar month that starts on a local date.
#[derive(Clone, Copy, Debug, PartialEq, Eq, Structural)]
pub enum Period {
    Hour(i64),
    Day(i32),
    Week(i32),
    Month(i32),
}

/// A half-open span of instants `[.0, .1)`.
#[derive(Clone, Copy, Debug, PartialEq, Eq, Structural)]
pub struct TimeBounds(pub i64, pub i64);

impl TimeBounds {
    /// The two ends as Unix timestamps.
    pub fn timestamp(&self) -> (r: (i64, i64))
        ensures
            r == (self.0, self.1),
    {
        (self.0, self.1)
    }
}

/// Where a period starts and ends before the local time zone is applied: two
/// instants for an hour, two local midnights (as day numbers) otherwise.
#[derive(Clone, Copy, Debug, PartialEq, Eq, Structural)]
pub enum LocalSpan {
    Instants(i64, i64),
    Midnights(i32, i32),
}

impl PeriodType {
    /// The length in seconds of one bar of the chart for this kind of period.
    pub open spec fn intvl_spec(self) -> i64 {
        match self {
            PeriodType::Hour => 120,
            PeriodType::Day => 3600,
            PeriodType::Week => 86400,
            PeriodType::Month => 86400,
        }
    }
}

impl Period {
    /// The period holds a date or an instant that chrono represents.
    pub open spec fn wf(self) -> bool {
        match self {
            Period::Hour(h) => ts_valid(h as int),
            Period::Day(d) => day_valid(d as int),
            Period::Week(d) => day_valid(d as int),
            Period::Month(d) => day_valid(d as int),
        }
    }

    /// A week starts on a Sunday and a month on the first day of its month, as every
    /// period that `of_local_time` makes does. (Day 1 is a Monday, so Sundays are the
    /// day numbers divisible by 7.)
    pub open spec fn aligned(self) -> bool {
        match self {
            Period::Week(d) => d % 7 == 0,
            Period::Month(d) => first_of_month(d) == d,
            _ => true,
        }
    }

    pub open spec fn kind(self) -> PeriodType {
        match self {
            Period::Hour(_) => PeriodType::Hour,
            Period::Day(_) => PeriodType::Day,
            Period::Week(_) => PeriodType::Week,
            Period::Month(_) => PeriodType::Month,
        }
    }

    /// The span of the period, before local time is applied; `None` where its end
    /// is beyond what chrono represents.
    pub open spec fn span_spec(self) -> Option<LocalSpan> {
        match self {
            Period::Hour(h) => if ts_valid(h + 3600) {
                Some(LocalSpan::Instants(h, (h + 3600) as i64))
            } else {
                None
            },
            Period::Day(d) => if day_valid(d + 1) {
                Some(LocalSpan::Midnights(d, (d + 1) as i32))
            } else {
                None
            },
            Period::Week(d) => if day_valid(d + 7) {
                Some(LocalSpan::Midnights(d, (d + 7) as i32))
            } else {
                None
            },
            Period::Month(d) => match add_months_result(d, 1) {
                Some(e) => Some(LocalSpan::Midnights(d, e)),
                None => None,
            },
        }
    }

    /// The neighbouring period after (`forward`) or before this one; `None` where it
    /// is beyond what chrono represents.
    pub open spec fn shifted(self, forward: bool) -> Option<Period> {
        match self {
            Period::Hour(h) => {
                let t = if forward { h + 3600 } else { h - 3600 };
                if ts_valid(t) { Some(Period::Hour(t as i64)) } else { None }
            },
            Period::Day(d) => {
                let e = if forward { d + 1 } else { d - 1 };
                if day_valid(e) { Some(Period::Day(e as i32)) } else { None }
            },
            Period::Week(d) => {
                let e = if forward { d + 7 } else { d - 7 };
                if day_valid(e) { Some(Period::Week(e as i32)) } else { None }
            },
            Period::Month(d) => {
                let r = if forward { add_months_result(d, 1) } else { sub_months_result(d, 1) };
                match r {
                    Some(e) => Some(Period::Month(e)),
                    None => None,
                }
            },
        }
    }

    /// The period of kind `t` that contains local date `date`, given the instant
    /// `hour_start` at which the local hour in question begins.
    pub open spec fn of_local_time_spec(t: PeriodType, date: i32, hour_start: i64) -> Option<Period> {
        match t {
            PeriodType::Hour => Some(Period::Hour(hour_start)),
            PeriodType::Day => Some(Period::Day(date)),
            PeriodType::Week => if day_valid(date - date % 7) {
                Some(Period::Week((date - date % 7) as i32))
            } else {
                None
            },
            PeriodType::Month => Some(Period::Month(first_of_month(date))),
        }
    }

    pub fn period_type(&self) -> (t: PeriodType)
        ensures
            t == self.kind(),
    {
        match self {
            Period::Hour(_) => PeriodType::Hour,
            Period::Day(_) => PeriodType::Day,
            Period::Week(_) => PeriodType::Week,
            Period::Month(_) => PeriodType::Month,
        }
    }

    /// The length in seconds of one bar of the chart for this period.
    pub fn intvl_secs(&self) -> (s: i64)
        ensures
            s == self.kind().intvl_spec(),
    {
        match self {
            Period::Hour(_) => 120,
            Period::Day(_) => 3600,
            Period::Week(_) | Period::Month(_) => 86400,
        }
    }

    /// Where the period starts and ends before the local time zone is applied.
    pub fn span(&self) -> (r: Option<LocalSpan>)
        requires
            self.wf(),
        ensures
            r == self.span_spec(),
            r matches Some(LocalSpan::Midnights(s, e)) ==> day_valid(s as int) && day_valid(e as int),
            r matches Some(LocalSpan::Instants(s, e)) ==> ts_valid(s as int) && ts_valid(e as int),
            self is Month ==> (r matches Some(LocalSpan::Midnights(s, e)) ==> s + 28 <= e),
    {
        match *self {
            Period::Hour(h) => match instant_add_secs(h, 3600) {
                Some(e) => Some(LocalSpan::Instants(h, e)),
                None => None,
            },
            Period::Day(d) => match date_add_days(d, 1) {
                Some(e) => Some(LocalSpan::Midnights(d, e)),
                None => None,
            },
            Period::Week(d) => match date_add_days(d, 7) {
                Some(e) => Some(LocalSpan::Midnights(d, e)),
                None => None,
            },
            Period::Month(d) => match date_add_months(d, 1) {
                Some(e) => Some(LocalSpan::Midnights(d, e)),
                None => None,
            },
        }
    }

    /// The instants at which the period starts and ends. An hour is exactly 3600
    /// seconds long; the other periods run from local midnight to local midnight, and
    /// each end lies within a day of that midnight read as UTC, so that a week or a
    /// month ends after it starts. `None` where an end
    /// is beyond what chrono represents or its local midnight does not exist exactly once.
    pub fn bounds(&self) -> (r: Option<TimeBounds>)
        requires
            self.wf(),
        ensures
            self.span_spec() is None ==> r is None,
            self.span_spec() matches Some(LocalSpan::Instants(s, e)) ==> r == Some(TimeBounds(s, e)),
            self.span_spec() matches Some(LocalSpan::Midnights(s, e)) ==> (r matches Some(b) ==> (
                naive_ts(s as int, 0) - 86400 < b.0 < naive_ts(s as int, 0) + 86400
                && naive_ts(e as int, 0) - 86400 < b.1 < naive_ts(e as int, 0) + 86400
                && ts_valid(b.0 as int) && ts_valid(b.1 as int))),
            bounds_near(*self, r),
            !(self is Day) ==> (r matches Some(b) ==> b.0 < b.1),
    {
        match self.span() {
            None => None,
            Some(LocalSpan::Instants(s, e)) => Some(TimeBounds(s, e)),
            Some(LocalSpan::Midnights(s, e)) => {
                let start = local_instant(s, 0);
                let end = local_instant(e, 0);
                match (start, end) {
                    (Some(a), Some(b)) => Some(TimeBounds(a, b)),
                    _ => None,
                }
            },
        }
    }

    /// The two ends of `bounds` as Unix timestamps.
    pub fn bounds_timestamp(&self) -> (r: Option<(i64, i64)>)
        requires
            self.wf(),
        ensures
            self.span_spec() is None ==> r is None,
            self.span_spec() matches Some(LocalSpan::Instants(s, e)) ==> r == Some((s, e)),
    {
        match self.bounds() {
            Some(b) => Some(b.timestamp()),
            None => None,
        }
    }

    /// The period of kind `t` that contains local date `date`, where `hour_start` is
    /// the instant at which the local hour in question begins: that hour itself, that
    /// day, the week from the Sunday on or before it, or its month.
    pub fn of_local_time(t: PeriodType, date: i32, hour_start: i64) -> (r: Option<Period>)
        requires
            day_valid(date as int),
            ts_valid(hour_start as int),
        ensures
            r == Self::of_local_time_spec(t, date, hour_start),
            r matches Some(p) ==> p.wf() && p.kind() == t && p.aligned(),
    {
        match t {
            PeriodType::Hour => Some(Period::Hour(hour_start)),
            PeriodType::Day => Some(Period::Day(date)),
            PeriodType::Week => match date_week_start(date) {
                Some(w) => Some(Period::Week(w)),
                None => None,
            },
            PeriodType::Month => Some(Period::Month(date_month_start(date))),
        }
    }

    /// The period of kind `t` that contains instant `at`, in local time: the one of
    /// `of_local_time` for the local date at `at` and, for an hour, the instant at
    /// which the local hour at `at` begins. `None` where `at` lies within a day of
    /// chrono's limits, where that hour does not begin at exactly one instant, or
    /// where the period is beyond what chrono represents.
    pub fn containing(t: PeriodType, at: i64) -> (r: Option<Period>)
        ensures
            !ts_inner(at as int) ==> r is None,
            containing_owed(t, at as int) ==> r is Some,
            r matches Some(p) ==> p.wf() && p.kind() == t && p.aligned(),
            r matches Some(p) ==> contained_by(t, at as int, p),
    {
        if !(TS_MIN + 86400 <= at && at <= TS_MAX - 86400) {
            return None;
        }
        let (date, secs) = local_reading(at);
        let hour_start = match t {
            PeriodType::Hour => match local_instant(date, secs / 3600 * 3600) {
                Some(h) => h,
                None => {
                    return None;
                },
            },
            _ => at,
        };
        proof {
            if t == PeriodType::Week && TS_MIN + 9 * 86400 <= at {
                assert(date - DAY_MIN > 7) by (nonlinear_arith)
                    requires
                        naive_ts(date as int, secs as int) > at - 86400,
                        secs < 86400,
                        TS_MIN + 9 * 86400 <= at,
                        TS_MIN == (DAY_MIN - UNIX_EPOCH_DAY) * 86400,
                ;
                assert(day_valid(date - date % 7));
            }
        }
        let r = Self::of_local_time(t, date, hour_start);
        proof {
            if let Some(p) = r {
                assert(reading_near(at as int, (date, secs)));
                assert(Some(p) == Self::of_local_time_spec(t, date, hour_start));
                assert(contained_by(t, at as int, p));
            }
        }
        r
    }

    /// The period of kind `t` that contains the present moment. Which one that is,
    /// and whether there is one, rests on the clock and the time zone: it is the one
    /// that `containing` gives for the clock's reading, and `None` where the clock
    /// gives no reading since 1970 that chrono represents.
    pub fn current(t: &PeriodType) -> (r: Option<Period>)
        ensures
            r matches Some(p) ==> p.wf() && p.kind() == *t && p.aligned(),
            exists|now: Option<i64>| #![trigger clock_ok(now)]
                clock_ok(now) && match now {
                    None => r is None,
                    Some(n) => (r matches Some(p) ==> contained_by(*t, n as int, p))
                        && (containing_owed(*t, n as int) ==> r is Some),
                },
    {
        let now = now_timestamp();
        assert(clock_ok(now));
        match now {
            Some(n) => Self::containing(*t, n),
            None => None,
        }
    }

    /// The day that contains the present moment.
    pub fn default() -> (r: Option<Period>)
        ensures
            r matches Some(p) ==> p.wf() && p.kind() == PeriodType::Day && p.aligned(),
            exists|now: Option<i64>| #![trigger clock_ok(now)]
                clock_ok(now) && match now {
                    None => r is None,
                    Some(n) => (r matches Some(p) ==> contained_by(PeriodType::Day, n as int, p))
                        && (ts_inner(n as int) ==> r is Some),
                },
    {
        Self::current(&PeriodType::Day)
    }

    /// Whether the present moment is before the end of the period (also when the
    /// end cannot be determined): what `current_at` answers for the clock's reading
    /// and the bounds that `bounds` gives. Where the clock gives no reading since 1970
    /// that chrono represents, the period counts as current.
    pub fn is_current(&self) -> (b: bool)
        requires
            self.wf(),
        ensures
            self.span_spec() is None ==> b,
            exists|now: Option<i64>| #![trigger clock_ok(now)]
                clock_ok(now) && match now {
                    None => b,
                    Some(n) => exists|bnd: Option<TimeBounds>| #![trigger bounds_near(*self, bnd)]
                        bounds_near(*self, bnd) && b == current_given(n as int, bnd),
                },
    {
        let now = now_timestamp();
        assert(clock_ok(now));
        match now {
            Some(n) => {
                let bnd = self.bounds();
                assert(bounds_near(*self, bnd));
                current_at(n, bnd)
            },
            None => true,
        }
    }

    /// Moves to the neighbouring period after (`forward`) or before this one. Returns
    /// false, leaving the period as it was, where that period is beyond what chrono represents.
    #[verifier::spinoff_prover]
    pub fn shift(&mut self, forward: bool) -> (moved: bool)
        requires
            old(self).wf(),
        ensures
            moved == (old(self).shifted(forward) is Some),
            moved ==> Some(*final(self)) == old(self).shifted(forward),
            !moved ==> *final(self) == *old(self),
            final(self).wf(),
            old(self).aligned() ==> final(self).aligned(),
            moved && old(self).aligned() ==> final(self).shifted(!forward) == Some(*old(self)),
    {
        let next = match *self {
            Period::Hour(h) => match instant_add_secs(h, if forward { 3600 } else { -3600 }) {
                Some(t) => Some(Period::Hour(t)),
                None => None,
            },
            Period::Day(d) => {
                let e = if forward { date_add_days(d, 1) } else { date_sub_days(d, 1) };
                match e {
                    Some(x) => Some(Period::Day(x)),
                    None => None,
                }
            },
            Period::Week(d) => {
                let e = if forward { date_add_days(d, 7) } else { date_sub_days(d, 7) };
                match e {
                    Some(x) => Some(Period::Week(x)),
                    None => None,
                }
            },
            Period::Month(d) => {
                let e = if forward { date_add_months(d, 1) } else { date_sub_months(d, 1) };
                match e {
                    Some(x) => Some(Period::Month(x)),
                    None => None,
                }
            },
        };
        match next {
            Some(p) => {
                *self = p;
                true
            },
            None => false,
        }
    }

    /// Moves to the previous period; false, with the period unchanged, where that
    /// period is beyond what chrono represents.
    pub fn prev(&mut self) -> (moved: bool)
        requires
            old(self).wf(),
        ensures
            moved == (old(self).shifted(false) is Some),
            moved ==> Some(*final(self)) == old(self).shifted(false),
            !moved ==> *final(self) == *old(self),
            final(self).wf(),
            old(self).aligned() ==> final(self).aligned(),
            moved && old(self).aligned() ==> final(self).shifted(true) == Some(*old(self)),
    {
        self.shift(false)
    }

    /// Moves to the next period unless `current` says that this one is still
    /// current: with `current`, nothing moves; otherwise it moves as `shift(true)` does.
    pub fn next_given(&mut self, current: bool) -> (moved: bool)
        requires
            old(self).wf(),
        ensures
            current ==> !moved && *final(self) == *old(self),
            !current ==> moved == (old(self).shifted(true) is Some),
            moved ==> Some(*final(self)) == old(self).shifted(true),
            !moved ==> *final(self) == *old(self),
            final(self).wf(),
            old(self).aligned() ==> final(self).aligned(),
            moved && old(self).aligned() ==> final(self).shifted(false) == Some(*old(self)),
    {
        if current {
            return false;
        }
        self.shift(true)
    }

    /// Moves to the next period unless this one is still current (`is_current`, then
    /// `next_given`); false, with the period unchanged, where it is current or the next
    /// one is beyond what chrono represents.
    pub fn next(&mut self) -> (moved: bool)
        requires
            old(self).wf(),
        ensures
            moved ==> Some(*final(self)) == old(self).shifted(true),
            !moved ==> *final(self) == *old(self),
            old(self).span_spec() is None ==> !moved,
            final(self).wf(),
            old(self).aligned() ==> final(self).aligned(),
            moved && old(self).aligned() ==> final(self).shifted(false) == Some(*old(self)),
            exists|now: Option<i64>| #![trigger clock_ok(now)]
                clock_ok(now) && match now {
                    None => !moved,
                    Some(n) => exists|bnd: Option<TimeBounds>| #![trigger bounds_near(*old(self), bnd)]
                        bounds_near(*old(self), bnd)
                        && moved == (!current_given(n as int, bnd) && old(self).shifted(true) is Some),
                },
    {
        let ghost before = *self;
        let current = self.is_current();
        let ghost w = choose|now: Option<i64>| #![trigger clock_ok(now)]
            clock_ok(now) && match now {
                None => current,
                Some(n) => exists|bnd: Option<TimeBounds>| #![trigger bounds_near(before, bnd)]
                    bounds_near(before, bnd) && current == current_given(n as int, bnd),
            };
        let moved = self.next_given(current);
        proof {
            if let Some(n) = w {
                let bnd = choose|bnd: Option<TimeBounds>| #![trigger bounds_near(before, bnd)]
                    bounds_near(before, bnd) && current == current_given(n as int, bnd);
                assert(bounds_near(before, bnd));
            }
            assert(clock_ok(w));
        }
        moved
    }

    /// Turns the period into one of kind `to_type`, at instant `now`: the one that
    /// contains `now` when this period is still current at `now`, otherwise the one that
    /// contains this period's start. Returns false, with the period unchanged, where
    /// that period cannot be determined.
    pub fn switch_at(&mut self, to_type: &PeriodType, now: i64) -> (switched: bool)
        requires
            old(self).wf(),
            ts_valid(now as int),
        ensures
            switched ==> final(self).kind() == *to_type && final(self).aligned(),
            !switched ==> *final(self) == *old(self),
            final(self).wf(),
            exists|bnd: Option<TimeBounds>| #![trigger bounds_near(*old(self), bnd)]
                bounds_near(*old(self), bnd) && ({
                    let at: int = if current_given(now as int, bnd) { now as int } else { bnd.unwrap().0 as int };
                    &&& switched ==> contained_by(*to_type, at, *final(self))
                    &&& containing_owed(*to_type, at) ==> switched
                }),
    {
        let bnd = self.bounds();
        let at = if current_at(now, bnd) {
            now
        } else {
            bnd.unwrap().0
        };
        let target = Self::containing(*to_type, at);
        assert(bounds_near(*old(self), bnd));
        match target {
            Some(p) => {
                *self = p;
                true
            },
            None => false,
        }
    }

    /// Turns the period into one of kind `to_type` at the present moment: what
    /// `switch_at` does for the clock's reading. Where the clock gives no reading since
    /// 1970 that chrono represents, nothing changes and the answer is false.
    pub fn switch(&mut self, to_type: &PeriodType) -> (switched: bool)
        requires
            old(self).wf(),
        ensures
            switched ==> final(self).kind() == *to_type && final(self).aligned(),
            !switched ==> *final(self) == *old(self),
            final(self).wf(),
            exists|now: Option<i64>| #![trigger clock_ok(now)]
                clock_ok(now) && match now {
                    None => !switched,
                    Some(n) => exists|bnd: Option<TimeBounds>| #![trigger bounds_near(*old(self), bnd)]
                        bounds_near(*old(self), bnd) && ({
                            let at: int = if current_given(n as int, bnd) { n as int } else { bnd.unwrap().0 as int };
                            &&& switched ==> contained_by(*to_type, at, *final(self))
                            &&& containing_owed(*to_type, at) ==> switched
                        }),
                },
    {
        let now = now_timestamp();
        assert(clock_ok(now));
        match now {
            Some(n) => self.switch_at(to_type, n),
            None => false,
        }
    }

    /// The chart bars of this period, from its start to its end.
    pub fn segments(&self) -> (r: Option<Segments>)
        requires
            self.wf(),
        ensures
            r matches Some(s) ==> s.period_type == self.kind() && ts_valid(s.seg_start as int)
                && ts_valid(s.period_end as int),
            self.span_spec() is None ==> r is None,
            self.span_spec() matches Some(LocalSpan::Instants(a, b)) ==> r == Some(
                Segments { period_type: self.kind(), seg_start: a, period_end: b },
            ),
    {
        match self.bounds() {
            Some(TimeBounds(start, end)) => Some(
                Segments { period_type: self.period_type(), seg_start: start, period_end: end },
            ),
            None => None,
        }
    }
}

/// `m` is a possible instant of the local midnight that ends local date `date`:
/// within a day of that midnight read as UTC.
pub open spec fn next_midnight_near(date: i32, m: i64) -> bool {
    naive_ts(date + 1, 0) - 86400 < m < naive_ts(date + 1, 0) + 86400
}

/// The length in seconds of the bars of an hour (two minutes) and of a day (an hour).
pub open spec fn bar_secs(t: PeriodType) -> int {
    if t == PeriodType::Hour {
        120
    } else {
        3600
    }
}

/// The chart bars of a period still to come: `[seg_start, period_end)` cut into
/// two-minute bars for an hour, hourly bars for a day, and bars from local midnight
/// to local midnight for a week or a month.
#[derive(Clone, Copy, Debug)]
pub struct Segments {
    pub period_type: PeriodType,
    pub seg_start: i64,
    pub period_end: i64,
}

impl Segments {
    /// Hands out the next bar. Hours and days step by a fixed number of seconds;
    /// weeks and months step to the next local midnight (an instant within a day of
    /// the midnight after the local date of the bar's start, read as UTC). A bar never reaches past
    /// the end of the period and never is empty or backwards: `None` once the end is
    /// reached, or where the next step cannot be taken.
    pub fn next_segment(&mut self) -> (r: Option<TimeBounds>)
        requires
            ts_valid(old(self).seg_start as int),
            ts_valid(old(self).period_end as int),
        ensures
            final(self).period_type == old(self).period_type,
            final(self).period_end == old(self).period_end,
            ts_valid(final(self).seg_start as int),
            old(self).seg_start == old(self).period_end ==> r is None,
            r is None ==> final(self).seg_start == old(self).seg_start,
            r matches Some(b) ==> b.0 == old(self).seg_start && b.0 < b.1 && b.1 <= old(self).period_end
                && final(self).seg_start == b.1,
            (old(self).period_type == PeriodType::Week || old(self).period_type == PeriodType::Month) ==> (
                r matches Some(b) ==> exists|date: i32, secs: u32, m: i64|
                    #![trigger reading_near(old(self).seg_start as int, (date, secs)), next_midnight_near(date, m)]
                    reading_near(old(self).seg_start as int, (date, secs)) && next_midnight_near(date, m)
                    && b.1 == (if m < old(self).period_end { m } else { old(self).period_end })),
            ({
                let step: int = if old(self).period_type == PeriodType::Hour { 120 } else { 3600 };
                old(self).seg_start < old(self).period_end && ts_valid(old(self).seg_start + step)
                    && old(self).period_type != PeriodType::Week && old(self).period_type != PeriodType::Month
            }) ==> {
                let step: int = if old(self).period_type == PeriodType::Hour { 120 } else { 3600 };
                let stop: int = if old(self).seg_start + step < old(self).period_end {
                    old(self).seg_start + step
                } else {
                    old(self).period_end as int
                };
                r == Some(TimeBounds(old(self).seg_start, stop as i64))
            },
    {
        if self.seg_start == self.period_end {
            return None;
        }
        let step_end = match self.period_type {
            PeriodType::Hour => instant_add_secs(self.seg_start, 120),
            PeriodType::Day => instant_add_secs(self.seg_start, 3600),
            PeriodType::Week | PeriodType::Month => {
                if !(TS_MIN + 86400 <= self.seg_start && self.seg_start <= TS_MAX - 86400) {
                    None
                } else {
                    let (date, secs) = local_reading(self.seg_start);
                    match date_add_days(date, 1) {
                        Some(next_day) => {
                            let m = local_instant(next_day, 0);
                            proof {
                                if let Some(mm) = m {
                                    assert(reading_near(self.seg_start as int, (date, secs)));
                                    assert(next_midnight_near(date, mm));
                                }
                            }
                            m
                        },
                        None => None,
                    }
                }
            },
        };
        let step_end = match step_end {
            Some(e) => e,
            None => {
                return None;
            },
        };
        let seg_end = if step_end < self.period_end {
            step_end
        } else {
            self.period_end
        };
        if seg_end <= self.seg_start {
            return None;
        }
        let seg = TimeBounds(self.seg_start, seg_end);
        self.seg_start = seg_end;
        Some(seg)
    }

    /// All remaining bars, each as a pair of Unix timestamps.
    pub fn timestamp(&mut self) -> (v: Vec<(i64, i64)>)
        requires
            ts_valid(old(self).seg_start as int),
            ts_valid(old(self).period_end as int),
        ensures
            forall|i: int| 0 <= i < v@.len() ==> v@[i].0 < #[trigger] v@[i].1,
            forall|i: int| 0 <= i < v@.len() - 1 ==> v@[i].1 == #[trigger] v@[i + 1].0,
            v@.len() > 0 ==> v@[0].0 == old(self).seg_start,
            v@.len() > 0 ==> v@[v@.len() - 1].1 == final(self).seg_start,
            final(self).seg_start <= old(self).period_end || final(self).seg_start == old(self).seg_start,
            (old(self).period_type == PeriodType::Hour || old(self).period_type == PeriodType::Day)
                && old(self).seg_start <= old(self).period_end && ts_valid(old(self).period_end + 3600)
                ==> final(self).seg_start == old(self).period_end,
            (old(self).period_type == PeriodType::Hour || old(self).period_type == PeriodType::Day)
                && old(self).seg_start <= old(self).period_end && ts_valid(old(self).period_end + 3600)
                ==> v@.len() * bar_secs(old(self).period_type) >= old(self).period_end - old(self).seg_start
                    && (v@.len() > 0 ==> (v@.len() - 1) * bar_secs(old(self).period_type)
                        < old(self).period_end - old(self).seg_start),
    {
        let mut v: Vec<(i64, i64)> = Vec::new();
        let ghost start = self.seg_start;
        loop
            invariant
                ts_valid(self.seg_start as int),
                ts_valid(self.period_end as int),
                self.period_end == old(self).period_end,
                forall|i: int| 0 <= i < v@.len() ==> v@[i].0 < #[trigger] v@[i].1,
                forall|i: int| 0 <= i < v@.len() - 1 ==> v@[i].1 == #[trigger] v@[i + 1].0,
                v@.len() > 0 ==> v@[0].0 == start,
                v@.len() > 0 ==> v@[v@.len() - 1].1 == self.seg_start,
                v@.len() == 0 ==> self.seg_start == start,
                self.seg_start <= self.period_end || self.seg_start == start,
                start == old(self).seg_start,
                self.period_type == old(self).period_type,
                (old(self).period_type == PeriodType::Hour || old(self).period_type == PeriodType::Day)
                    && old(self).seg_start <= old(self).period_end && ts_valid(old(self).period_end + 3600)
                    ==> self.seg_start <= self.period_end,
                (old(self).period_type == PeriodType::Hour || old(self).period_type == PeriodType::Day)
                    && old(self).seg_start <= old(self).period_end && ts_valid(old(self).period_end + 3600)
                    ==> self.seg_start == (if start + v@.len() * bar_secs(self.period_type) <= self.period_end {
                        start + v@.len() * bar_secs(self.period_type)
                    } else {
                        self.period_end as int
                    }) && (v@.len() > 0 ==> start + (v@.len() - 1) * bar_secs(self.period_type) < self.period_end),
            ensures
                (old(self).period_type == PeriodType::Hour || old(self).period_type == PeriodType::Day)
                    && old(self).seg_start <= old(self).period_end && ts_valid(old(self).period_end + 3600)
                    ==> self.seg_start == self.period_end,
            decreases (if self.seg_start <= self.period_end { self.period_end - self.seg_start + 1 } else { 0int }),
        {
            let ghost len = v@.len() as int;
            let ghost bar = bar_secs(self.period_type);
            match self.next_segment() {
                Some(b) => {
                    v.push((b.0, b.1));
                    proof {
                        assert(start + (len + 1) * bar == start + len * bar + bar) by (nonlinear_arith);
                    }
                },
                None => {
                    break;
                },
            }
        }
        v
    }
}

/// Moving to the neighbouring period and back returns to where one started, for
/// hours, days and weeks (whose steps are fixed).
pub proof fn lemma_shift_round_trip(p: Period, forward: bool)
    requires
        p.wf(),
        !(p is Month),
        p.shifted(forward) is Some,
    ensures
        p.shifted(forward).unwrap().shifted(!forward) == Some(p),
{
}

/// Moving to a neighbouring period keeps the kind of period and a representable value.
pub proof fn lemma_shift_keeps_kind(p: Period, forward: bool)
    requires
        p.wf(),
        p.shifted(forward) is Some,
    ensures
        p.shifted(forward).unwrap().kind() == p.kind(),
{
}

} // verus!
