use bandmeter::period::{current_at, timestamp_of_secs, LocalSpan, Period, PeriodType, TimeBounds, DAY_MAX, DAY_MIN, TS_MAX, TS_MIN, UNIX_EPOCH_DAY};
use chrono::{Datelike, NaiveDate};

fn day(y: i32, m: u32, d: u32) -> i32 {
    NaiveDate::from_ymd_opt(y, m, d).unwrap().num_days_from_ce()
}

#[test]
fn calendar_limits_match_chrono() {
    assert_eq!(NaiveDate::MIN.num_days_from_ce(), DAY_MIN);
    assert_eq!(NaiveDate::MAX.num_days_from_ce(), DAY_MAX);
    assert_eq!(day(1970, 1, 1) as i64, UNIX_EPOCH_DAY);
    assert_eq!(chrono::DateTime::<chrono::Utc>::MIN_UTC.timestamp(), TS_MIN);
    assert_eq!(chrono::DateTime::<chrono::Utc>::MAX_UTC.timestamp(), TS_MAX);
}

#[test]
fn days_and_weeks_move_by_fixed_steps() {
    let mut p = Period::Day(day(2024, 3, 1));
    assert!(p.prev());
    assert_eq!(p, Period::Day(day(2024, 2, 29)));
    assert!(p.shift(true));
    assert_eq!(p, Period::Day(day(2024, 3, 1)));
    let mut w = Period::Week(day(2024, 1, 7));
    assert!(w.prev());
    assert_eq!(w, Period::Week(day(2023, 12, 31)));
    let mut h = Period::Hour(3600 * 1000);
    assert!(h.prev());
    assert_eq!(h, Period::Hour(3600 * 999));
}

#[test]
fn months_move_by_calendar_months() {
    let mut m = Period::Month(day(2024, 1, 1));
    assert!(m.prev());
    assert_eq!(m, Period::Month(day(2023, 12, 1)));
    assert!(m.shift(true));
    assert!(m.shift(true));
    assert_eq!(m, Period::Month(day(2024, 2, 1)));
}

#[test]
fn months_from_the_first_come_back() {
    let start = Period::Month(day(2024, 3, 1));
    let mut m = start;
    assert!(m.prev());
    assert_eq!(m, Period::Month(day(2024, 2, 1)));
    assert!(m.shift(true));
    assert_eq!(m, start);
    // A month that starts on a day that later months lack does not come back.
    let mut odd = Period::Month(day(2024, 1, 31));
    assert!(odd.shift(true));
    assert_eq!(odd, Period::Month(day(2024, 2, 29)));
    assert!(odd.prev());
    assert_eq!(odd, Period::Month(day(2024, 1, 29)));
}

#[test]
fn moves_stop_at_chrono_limits() {
    let mut p = Period::Day(DAY_MIN);
    assert!(!p.prev());
    assert_eq!(p, Period::Day(DAY_MIN));
    let mut q = Period::Day(DAY_MAX);
    assert!(!q.shift(true));
    assert_eq!(q.span(), None);
    assert_eq!(q.bounds(), None);
}

#[test]
fn periods_of_a_local_time() {
    let d = day(2024, 5, 15);
    assert_eq!(Period::of_local_time(PeriodType::Day, d, 77), Some(Period::Day(d)));
    assert_eq!(Period::of_local_time(PeriodType::Hour, d, 77), Some(Period::Hour(77)));
    assert_eq!(Period::of_local_time(PeriodType::Week, d, 77), Some(Period::Week(day(2024, 5, 12))));
    assert_eq!(Period::of_local_time(PeriodType::Month, d, 77), Some(Period::Month(day(2024, 5, 1))));
    assert_eq!(Period::of_local_time(PeriodType::Week, day(2024, 5, 12), 0), Some(Period::Week(day(2024, 5, 12))));
}

#[test]
fn spans_and_hour_bounds() {
    let d = day(2024, 1, 31);
    assert_eq!(Period::Day(d).span(), Some(LocalSpan::Midnights(d, d + 1)));
    assert_eq!(Period::Week(d).span(), Some(LocalSpan::Midnights(d, d + 7)));
    assert_eq!(Period::Month(day(2024, 2, 1)).span(), Some(LocalSpan::Midnights(day(2024, 2, 1), day(2024, 3, 1))));
    assert_eq!(Period::Hour(7200).bounds(), Some(TimeBounds(7200, 10800)));
    assert_eq!(Period::Hour(7200).bounds_timestamp(), Some((7200, 10800)));
    assert_eq!(Period::Hour(0).intvl_secs(), 120);
    assert_eq!(Period::Day(d).intvl_secs(), 3600);
    assert_eq!(Period::Month(d).intvl_secs(), 86400);
}

#[test]
fn day_bounds_are_local_midnights() {
    let d = day(2024, 6, 10);
    let b = Period::Day(d).bounds().unwrap();
    let expected_start = chrono::Local
        .from_local_datetime(&NaiveDate::from_num_days_from_ce_opt(d).unwrap().and_hms_opt(0, 0, 0).unwrap())
        .unwrap()
        .timestamp();
    assert_eq!(b.0, expected_start);
    assert!(b.1 > b.0);
}

use chrono::TimeZone;

#[test]
fn hour_segments_are_two_minutes() {
    let mut segs = Period::Hour(3600 * 10).segments().unwrap();
    let all = segs.timestamp();
    assert_eq!(all.len(), 30);
    assert_eq!(all[0], (36000, 36120));
    assert_eq!(all[29], (39480, 39600));
    assert!(segs.next_segment().is_none());
}

#[test]
fn day_segments_are_hours() {
    let p = Period::Day(day(2024, 6, 10));
    let mut segs = p.segments().unwrap();
    let (start, end) = p.bounds_timestamp().unwrap();
    let all = segs.timestamp();
    assert_eq!(all.first().unwrap().0, start);
    assert_eq!(all.last().unwrap().1, end);
    assert!(all.iter().all(|(a, b)| b - a <= 3600));
}

#[test]
fn week_segments_are_days() {
    let p = Period::Week(day(2024, 6, 9));
    let mut segs = p.segments().unwrap();
    let all = segs.timestamp();
    assert_eq!(all.len(), 7);
}

#[test]
fn switching_and_current_periods() {
    let mut p = Period::Day(day(2020, 3, 18));
    assert!(!p.is_current());
    assert!(p.switch(&PeriodType::Week));
    assert_eq!(p, Period::Week(day(2020, 3, 15)));
    assert!(p.switch(&PeriodType::Month));
    assert_eq!(p, Period::Month(day(2020, 3, 1)));
    assert!(p.switch(&PeriodType::Day));
    assert_eq!(p, Period::Day(day(2020, 3, 1)));
    let now = Period::default().unwrap();
    assert_eq!(now.period_type(), PeriodType::Day);
    assert!(now.is_current());
    let mut n = now;
    assert!(!n.next());
    assert_eq!(n, now);
    let cur = Period::current(&PeriodType::Month).unwrap();
    assert_eq!(cur.period_type(), PeriodType::Month);
}

#[test]
fn past_hours_are_not_current_and_move_on() {
    let p = Period::Hour(-7200);
    assert!(!p.is_current());
    let mut q = p;
    assert!(q.next());
    assert_eq!(q, Period::Hour(-3600));
    let mut r = p;
    assert!(r.switch(&PeriodType::Day));
    assert!(matches!(r, Period::Day(_)));
    assert!(Period::containing(PeriodType::Month, 1_700_000_000).is_some());
    assert!(Period::containing(PeriodType::Day, TS_MAX).is_none());
}

#[test]
fn next_given_undoes_prev_unless_current() {
    let start = Period::Month(day(2024, 3, 1));
    let mut m = start;
    assert!(m.prev());
    let mut kept = m;
    assert!(!kept.next_given(true));
    assert_eq!(kept, m);
    assert!(m.next_given(false));
    assert_eq!(m, start);
}

#[test]
fn switching_at_a_given_moment() {
    assert!(current_at(10, Some(TimeBounds(0, 11))));
    assert!(!current_at(11, Some(TimeBounds(0, 11))));
    assert!(current_at(11, None));
    // A past hour switched to a day, at a later moment: the day of the hour's start.
    let mut h = Period::Hour(1_700_000_000);
    assert!(h.switch_at(&PeriodType::Day, 1_800_000_000));
    let expected = Period::containing(PeriodType::Day, 1_700_000_000).unwrap();
    assert_eq!(h, expected);
    // Still current at the given moment: the day of that moment.
    let mut c = Period::Hour(1_700_000_000);
    assert!(c.switch_at(&PeriodType::Day, 1_700_000_100));
    assert_eq!(c, Period::containing(PeriodType::Day, 1_700_000_100).unwrap());
}

#[test]
fn clock_readings_within_chrono_range() {
    assert_eq!(timestamp_of_secs(Some(1_700_000_000)), Some(1_700_000_000));
    assert_eq!(timestamp_of_secs(Some(TS_MAX as u64)), Some(TS_MAX));
    assert_eq!(timestamp_of_secs(Some(TS_MAX as u64 + 1)), None);
    assert_eq!(timestamp_of_secs(None), None);
    assert!(Period::default().is_some());
}
