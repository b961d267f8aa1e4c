use bandmeter::label::{period_label, period_label_at, period_label_now, tick_label, tick_label_of};
use bandmeter::period::{Period, PeriodType, TS_MAX};
use chrono::{Datelike, Local, NaiveDate, TimeZone};

fn day(y: i32, m: u32, d: u32) -> i32 {
    NaiveDate::from_ymd_opt(y, m, d).unwrap().num_days_from_ce()
}

#[test]
fn hour_within_today_shows_times_only() {
    let today = day(2024, 1, 1);
    let s = period_label_at(&Period::Hour(0), today, (today, 3661), (today, 7261));
    assert_eq!(s, "01:01 - 02:01");
}

#[test]
fn hour_ends_on_other_days_show_their_dates() {
    let today = day(2024, 1, 2);
    let s = period_label_at(&Period::Hour(0), today, (day(2024, 1, 1), 82800), (today, 0));
    assert_eq!(s, "01 Jan, 23:00 - 00:00");
    let s = period_label_at(&Period::Hour(0), today, (day(2023, 12, 31), 86340), (day(2024, 1, 1), 3540));
    assert_eq!(s, "31 Dec 2023, 23:59 - 01 Jan, 00:59");
}

#[test]
fn day_shows_year_only_outside_this_year() {
    let today = day(2024, 1, 2);
    assert_eq!(period_label_at(&Period::Day(day(2024, 1, 1)), today, (0, 0), (0, 0)), "01 Jan");
    assert_eq!(period_label_at(&Period::Day(day(2023, 12, 31)), today, (0, 0), (0, 0)), "31 Dec 2023");
}

#[test]
fn week_shows_first_and_last_day() {
    let today = day(2024, 1, 2);
    let s = period_label_at(&Period::Week(day(2023, 12, 31)), today, (0, 0), (0, 0));
    assert_eq!(s, "31 Dec 2023 - 06 Jan");
}

#[test]
fn month_shows_its_name() {
    let today = day(2024, 3, 5);
    assert_eq!(period_label_at(&Period::Month(day(2024, 1, 1)), today, (0, 0), (0, 0)), "January");
    assert_eq!(period_label_at(&Period::Month(day(2023, 2, 1)), today, (0, 0), (0, 0)), "February 2023");
}

#[test]
fn tick_labels_by_kind() {
    assert_eq!(tick_label_of(PeriodType::Hour, (day(2024, 1, 1), 45296)), "12:34");
    assert_eq!(tick_label_of(PeriodType::Day, (day(2024, 1, 1), 0)), "00:00");
    assert_eq!(tick_label_of(PeriodType::Week, (day(2024, 1, 1), 0)), "Mon 01 Jan");
    assert_eq!(tick_label_of(PeriodType::Week, (day(2024, 1, 2), 0)), "Tue 02");
    assert_eq!(tick_label_of(PeriodType::Month, (day(2024, 1, 2), 0)), "2");
    assert_eq!(tick_label_of(PeriodType::Month, (day(2024, 1, 31), 0)), "31");
}

#[test]
fn tick_label_reads_local_time() {
    let at: i64 = 1_700_000_000;
    let local = Local.timestamp_opt(at, 0).unwrap();
    assert_eq!(tick_label(PeriodType::Day, at).unwrap(), local.format("%R").to_string());
    assert_eq!(tick_label(PeriodType::Month, at).unwrap(), local.format("%-e").to_string());
    assert_eq!(tick_label(PeriodType::Hour, i64::MAX), None);
}

#[test]
fn period_label_of_a_day_in_local_time() {
    let d = NaiveDate::from_ymd_opt(2001, 6, 9).unwrap();
    let expected = if d.year() == Local::now().year() {
        d.format("%d %b").to_string()
    } else {
        format!("{}{}", d.format("%d %b"), d.format(" %Y"))
    };
    assert_eq!(period_label(&Period::Day(d.num_days_from_ce())).unwrap(), expected);
}

#[test]
fn period_label_at_a_given_moment() {
    let d = NaiveDate::from_ymd_opt(2001, 6, 9).unwrap();
    let now: i64 = 1_700_000_000;
    let now_year = Local.timestamp_opt(now, 0).unwrap().year();
    let expected = if d.year() == now_year {
        d.format("%d %b").to_string()
    } else {
        format!("{}{}", d.format("%d %b"), d.format(" %Y"))
    };
    assert_eq!(period_label_now(&Period::Day(d.num_days_from_ce()), now).unwrap(), expected);
    assert_eq!(period_label_now(&Period::Day(d.num_days_from_ce()), TS_MAX), None);
}
