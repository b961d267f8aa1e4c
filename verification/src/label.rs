//! The text that the viewer shows for a period and under the bars of the chart,
//! in local time. Dates are written by chrono; times of day (hours and minutes)
//! are written here.
use vstd::prelude::*;
use chrono::{Datelike, NaiveDate};
use crate::chart::tick_pattern;
use crate::period::{
    clock_ok, date_add_days, day_valid, local_reading, now_timestamp, reading_near, ts_inner, ts_valid, Period,
    PeriodType, TS_MAX, TS_MIN,
};
use crate::text::{digit_char, digit_to_char, push_str, string_from_chars};

verus! {

/// What chrono's `NaiveDate::format` writes for day `day` with format string `pattern`.
pub uninterp spec fn date_text(day: i32, pattern: Seq<char>) -> Seq<char>;

/// What chrono's `Datelike::year` gives for day `day`.
pub uninterp spec fn year_of(day: i32) -> i32;

/// What chrono's `Datelike::day` gives for day `day`: its day of the month.
pub uninterp spec fn day_of_month(day: i32) -> u32;

/// The format strings with which dates are written; each is made of date fields only.
pub open spec fn date_pattern(p: Seq<char>) -> bool {
    ||| p == "%d %b"@
    ||| p == " %Y"@
    ||| p == "%B"@
    ||| p == "%B %Y"@
    ||| p == "%a %d"@
    ||| p == "%a %d %b"@
    ||| p == "%-e"@
}

/// `NaiveDate::format(pattern)` written out with `to_string`: day `day` in the words
/// of `pattern`. Which text that is (English month and weekday names, numbers) is
/// chrono's and is not stated here; it depends on the day and the pattern alone.
#[verifier::external_body]
fn format_date(day: i32, pattern: &str) -> (s: String)
    requires
        day_valid(day as int),
        date_pattern(pattern@),
    ensures
        s@ == date_text(day, pattern@),
{
    NaiveDate::from_num_days_from_ce_opt(day).unwrap().format(pattern).to_string()
}

/// `Datelike::year` of day `day`.
#[verifier::external_body]
fn date_year(day: i32) -> (y: i32)
    requires
        day_valid(day as int),
    ensures
        y == year_of(day),
{
    NaiveDate::from_num_days_from_ce_opt(day).unwrap().year()
}

/// `Datelike::day` of day `day`: its day of the month, from 1 to 31.
#[verifier::external_body]
fn date_day(day: i32) -> (d: u32)
    requires
        day_valid(day as int),
    ensures
        d == day_of_month(day),
        1 <= d <= 31,
{
    NaiveDate::from_num_days_from_ce_opt(day).unwrap().day()
}

/// Two decimal digits of `n` (below 100), with a leading zero.
pub open spec fn two_digits(n: int) -> Seq<char> {
    seq![digit_char((n / 10) as nat), digit_char((n % 10) as nat)]
}

/// A time of day, in seconds after midnight, as chrono's `%R` writes it: `HH:MM`.
pub open spec fn clock_text(secs: int) -> Seq<char> {
    two_digits(secs / 3600) + seq![':'] + two_digits(secs % 3600 / 60)
}

/// A date as the viewer writes it: the day and the abbreviated month, followed by
/// the year where that is not the year of `today`.
pub open spec fn date_label(day: i32, today: i32) -> Seq<char> {
    date_text(day, "%d %b"@) + if year_of(day) == year_of(today) {
        Seq::empty()
    } else {
        date_text(day, " %Y"@)
    }
}

/// A local reading (date, seconds after midnight) as the viewer writes it: the time
/// of day, preceded by the date and a comma where the date is not `today`.
pub open spec fn moment_label(at: (i32, u32), today: i32) -> Seq<char> {
    (if at.0 == today {
        Seq::empty()
    } else {
        date_label(at.0, today) + seq![',', ' ']
    }) + clock_text(at.1 as int)
}

/// The separator between the two ends of a span.
pub open spec fn dash() -> Seq<char> {
    seq![' ', '-', ' ']
}

/// The text of period `p`, given the local date `today` and, for an hour, the local
/// readings `start` and `end` of its two ends: an hour by its two ends, a day by its
/// date, a week by its first and last dates, a month by its name (with the year
/// where that is not the year of `today`).
pub open spec fn period_label_spec(p: Period, today: i32, start: (i32, u32), end: (i32, u32)) -> Seq<char> {
    match p {
        Period::Hour(_) => moment_label(start, today) + dash() + moment_label(end, today),
        Period::Day(d) => date_label(d, today),
        Period::Week(w) => date_label(w, today) + dash() + date_label((w + 6) as i32, today),
        Period::Month(m) => if year_of(m) == year_of(today) {
            date_text(m, "%B"@)
        } else {
            date_text(m, "%B %Y"@)
        },
    }
}

/// The label under a bar of a period of kind `t` that starts at local reading `at`:
/// the time of day for hours and days, the weekday and day of the month for weeks
/// (with the month on the first day of a month), the day of the month for months.
pub open spec fn tick_label_spec(t: PeriodType, at: (i32, u32)) -> Seq<char> {
    match t {
        PeriodType::Hour | PeriodType::Day => clock_text(at.1 as int),
        PeriodType::Week => if day_of_month(at.0) == 1 {
            date_text(at.0, "%a %d %b"@)
        } else {
            date_text(at.0, "%a %d"@)
        },
        PeriodType::Month => date_text(at.0, "%-e"@),
    }
}

fn push_two_digits(out: &mut Vec<char>, n: u32)
    requires
        n < 100,
    ensures
        final(out)@ == old(out)@ + two_digits(n as int),
{
    out.push(digit_to_char((n / 10) as u8));
    out.push(digit_to_char((n % 10) as u8));
    assert(out@ =~= old(out)@ + two_digits(n as int));
}

fn push_clock(out: &mut Vec<char>, secs: u32)
    requires
        secs < 86400,
    ensures
        final(out)@ == old(out)@ + clock_text(secs as int),
{
    push_two_digits(out, secs / 3600);
    out.push(':');
    push_two_digits(out, secs % 3600 / 60);
    assert(out@ =~= old(out)@ + clock_text(secs as int));
}

fn push_date_label(out: &mut Vec<char>, day: i32, today: i32)
    requires
        day_valid(day as int),
        day_valid(today as int),
    ensures
        final(out)@ == old(out)@ + date_label(day, today),
{
    let text = format_date(day, "%d %b");
    push_str(out, text.as_str());
    if date_year(day) != date_year(today) {
        let year = format_date(day, " %Y");
        push_str(out, year.as_str());
    }
    assert(out@ =~= old(out)@ + date_label(day, today));
}

fn push_moment_label(out: &mut Vec<char>, at: (i32, u32), today: i32)
    requires
        day_valid(at.0 as int),
        at.1 < 86400,
        day_valid(today as int),
    ensures
        final(out)@ == old(out)@ + moment_label(at, today),
{
    if at.0 != today {
        push_date_label(out, at.0, today);
        out.push(',');
        out.push(' ');
    }
    push_clock(out, at.1);
    assert(out@ =~= old(out)@ + moment_label(at, today));
}

fn push_dash(out: &mut Vec<char>)
    ensures
        final(out)@ == old(out)@ + dash(),
{
    out.push(' ');
    out.push('-');
    out.push(' ');
    assert(out@ =~= old(out)@ + dash());
}

/// The text of period `p`, given the local date `today` and, for an hour, the local
/// readings `start` and `end` of its two ends (the other kinds do not read them).
pub fn period_label_at(p: &Period, today: i32, start: (i32, u32), end: (i32, u32)) -> (s: String)
    requires
        p.wf(),
        day_valid(today as int),
        p is Hour ==> day_valid(start.0 as int) && start.1 < 86400 && day_valid(end.0 as int) && end.1 < 86400,
        p matches Period::Week(w) ==> day_valid(w + 6),
    ensures
        s@ == period_label_spec(*p, today, start, end),
{
    let mut out: Vec<char> = Vec::new();
    match *p {
        Period::Hour(_) => {
            push_moment_label(&mut out, start, today);
            push_dash(&mut out);
            push_moment_label(&mut out, end, today);
        },
        Period::Day(d) => {
            push_date_label(&mut out, d, today);
        },
        Period::Week(w) => {
            let last = date_add_days(w, 6).unwrap();
            push_date_label(&mut out, w, today);
            push_dash(&mut out);
            push_date_label(&mut out, last, today);
        },
        Period::Month(m) => {
            let name = if date_year(m) == date_year(today) {
                format_date(m, "%B")
            } else {
                format_date(m, "%B %Y")
            };
            push_str(&mut out, name.as_str());
        },
    }
    assert(out@ =~= period_label_spec(*p, today, start, end));
    string_from_chars(&out)
}

/// `s` is the text of period `p` read at instant `now`: its `period_label_spec` for
/// the local date of a reading of `now` and, for an hour, readings of its two ends.
pub open spec fn labelled_at(p: Period, now: int, s: Seq<char>) -> bool {
    exists|today: i32, secs: u32, start: (i32, u32), end: (i32, u32)|
        #![trigger period_label_spec(p, today, start, end), reading_near(now, (today, secs))]
        reading_near(now, (today, secs))
        && (p matches Period::Hour(h) ==> reading_near(h as int, start) && reading_near(h + 3600, end))
        && s == period_label_spec(p, today, start, end)
}

/// The text of period `p` as the period editor shows it, read in local time at
/// instant `now`: `None` exactly where `now`, or an end of an hour, lies within a
/// day of chrono's limits; otherwise the text for the local date at `now` and, for
/// an hour, the local readings of its two ends.
pub fn period_label_now(p: &Period, now: i64) -> (r: Option<String>)
    requires
        p.wf(),
        ts_valid(now as int),
        p matches Period::Hour(h) ==> ts_valid(h + 3600),
        p matches Period::Week(w) ==> day_valid(w + 6),
    ensures
        r is Some <==> (ts_inner(now as int) && (p matches Period::Hour(h) ==> ts_inner(h as int) && ts_inner(h + 3600))),
        r matches Some(s) ==> labelled_at(*p, now as int, s@),
{
    if !(TS_MIN + 86400 <= now && now <= TS_MAX - 86400) {
        return None;
    }
    let (today, secs) = local_reading(now);
    match *p {
        Period::Hour(h) => {
            if !(TS_MIN + 86400 <= h && h <= TS_MAX - 86400 - 3600) {
                return None;
            }
            let start = local_reading(h);
            let end = local_reading(h + 3600);
            let s = period_label_at(p, today, start, end);
            assert(reading_near(now as int, (today, secs)));
            assert(labelled_at(*p, now as int, s@));
            Some(s)
        },
        _ => {
            let s = period_label_at(p, today, (today, 0), (today, 0));
            assert(reading_near(now as int, (today, secs)));
            assert(s@ == period_label_spec(*p, today, (today, 0), (today, 0)));
            assert(labelled_at(*p, now as int, s@));
            Some(s)
        },
    }
}

/// The text of period `p` as the period editor shows it, read in local time at the
/// present moment: what `period_label_now` gives for the clock's reading, and `None`
/// where the clock gives no reading since 1970 that chrono represents.
pub fn period_label(p: &Period) -> (r: Option<String>)
    requires
        p.wf(),
        p matches Period::Hour(h) ==> ts_valid(h + 3600),
        p matches Period::Week(w) ==> day_valid(w + 6),
    ensures
        exists|now: Option<i64>| #![trigger clock_ok(now)]
            clock_ok(now) && match now {
                None => r is None,
                Some(n) => (r is Some <==> (ts_inner(n as int)
                    && (p matches Period::Hour(h) ==> ts_inner(h as int) && ts_inner(h + 3600))))
                    && (r matches Some(s) ==> labelled_at(*p, n as int, s@)),
            },
{
    let now = now_timestamp();
    assert(clock_ok(now));
    match now {
        Some(n) => period_label_now(p, n),
        None => None,
    }
}

/// The label under a bar of a period of kind `t` that starts at local reading `at`.
pub fn tick_label_of(t: PeriodType, at: (i32, u32)) -> (s: String)
    requires
        day_valid(at.0 as int),
        at.1 < 86400,
    ensures
        s@ == tick_label_spec(t, at),
{
    match t {
        PeriodType::Hour | PeriodType::Day => {
            let mut out: Vec<char> = Vec::new();
            push_clock(&mut out, at.1);
            string_from_chars(&out)
        },
        PeriodType::Week | PeriodType::Month => {
            let first = date_day(at.0) == 1;
            format_date(at.0, tick_pattern(t, first))
        },
    }
}

/// The label under a bar of a period of kind `t` that starts at instant `at`, read
/// in local time; `None` where `at` lies within a day of chrono's limits.
pub fn tick_label(t: PeriodType, at: i64) -> (r: Option<String>)
    ensures
        !ts_inner(at as int) ==> r is None,
        ts_inner(at as int) ==> (r matches Some(s) && exists|rd: (i32, u32)|
            #![trigger tick_label_spec(t, rd)]
            reading_near(at as int, rd) && s@ == tick_label_spec(t, rd)),
{
    if !(TS_MIN + 86400 <= at && at <= TS_MAX - 86400) {
        return None;
    }
    let rd = local_reading(at);
    Some(tick_label_of(t, rd))
}

} // verus!
