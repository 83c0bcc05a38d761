use chrono::{Datelike, NaiveDate};
use cleaning_bot::calendar::{
    add_weeks, compact_date, current_iso_week, date_of_timestamp, date_range, http_date,
    local_time, now, padded_date, plain_date, today, today_in, utc_stamp, week_dates, week_monday,
    week_of, weekday_of, weeks_between, Date, Timestamp,
};

fn date(y: i32, m: u32, d: u32) -> Date {
    Date { day: NaiveDate::from_ymd_opt(y, m, d).unwrap().num_days_from_ce() }
}

/// 2025-09-25 10:15:00 UTC.
const MORNING: Timestamp = Timestamp { secs: 1758795300, nanos: 0 };

#[test]
fn weeks_start_on_monday() {
    assert_eq!(week_monday(2025, 39), date(2025, 9, 22));
    assert_eq!(week_monday(2021, 1), date(2021, 1, 4));
    assert_eq!(weekday_of(week_monday(2025, 39)), 0);
    assert_eq!(weekday_of(date(2025, 9, 28)), 6);
}

#[test]
fn days_around_new_year_belong_to_the_week_of_their_thursday() {
    assert_eq!(week_of(date(2021, 1, 3)), (2020, 53));
    assert_eq!(week_of(date(2021, 1, 4)), (2021, 1));
    assert_eq!(week_of(date(2024, 12, 30)), (2025, 1));
}

#[test]
fn a_week_that_a_year_does_not_have_is_its_first() {
    assert_eq!(week_monday(2021, 53), week_monday(2021, 1));
    assert_eq!(week_monday(2020, 53), date(2020, 12, 28));
}

#[test]
fn weeks_are_counted_across_years() {
    assert_eq!(add_weeks(2020, 53, 1), (2021, 1));
    assert_eq!(add_weeks(2021, 1, -1), (2020, 53));
    assert_eq!(add_weeks(2025, 52, 3), (2026, 3));
    assert_eq!(weeks_between((2020, 53), (2021, 1)), 1);
    assert_eq!(weeks_between((2021, 1), (2020, 1)), -53);
    for n in -60..60 {
        let (y, w) = add_weeks(2025, 10, n);
        assert_eq!(weeks_between((2025, 10), (y, w)), n);
    }
}

#[test]
fn ranges_of_days_name_a_month_once() {
    assert_eq!(date_range(date(2025, 9, 22), date(2025, 9, 28)), "22 – 28 Sep");
    assert_eq!(date_range(date(2025, 9, 29), date(2025, 10, 5)), "29 Sep – 5 Oct");
    assert_eq!(date_range(date(2025, 9, 25), date(2025, 9, 25)), "25 Sep");
    assert_eq!(week_dates(2025, 40), "29 Sep – 5 Oct");
}

#[test]
fn dates_are_written_in_three_ways() {
    assert_eq!(compact_date(date(2025, 9, 5)), "20250905");
    assert_eq!(padded_date(date(2025, 9, 5)), "05 Sep 2025");
    assert_eq!(plain_date(date(2025, 9, 5)), "5 Sep 2025");
}

#[test]
fn points_in_time_are_written_in_utc() {
    assert_eq!(utc_stamp(MORNING), "20250925T101500Z");
    assert_eq!(http_date(MORNING), "Thu, 25 Sep 2025 10:15:00 GMT");
    assert_eq!(http_date(Timestamp { secs: 0, nanos: 0 }), "Thu, 01 Jan 1970 00:00:00 GMT");
    assert_eq!(date_of_timestamp(MORNING), Some(date(2025, 9, 25)));
    assert_eq!(date_of_timestamp(Timestamp { secs: -1, nanos: 0 }), Some(date(1969, 12, 31)));
    assert_eq!(date_of_timestamp(Timestamp { secs: i64::MAX, nanos: 0 }), None);
}

#[test]
fn an_unknown_time_zone_counts_as_utc() {
    let local = local_time("Nowhere/Atall");
    assert!((local.date.day - date_of_timestamp(now()).unwrap().day).abs() <= 1);
    assert!(local.hour < 24 && local.minute < 60);
    let far = today_in("Pacific/Kiritimati").day - today_in("Pacific/Pago_Pago").day;
    assert!(far == 1 || far == 2, "{far}");
    assert_eq!(week_of(today()), current_iso_week());
}
