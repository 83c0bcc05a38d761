//! Dates as day numbers and ISO weeks as whole numbers of weeks.
//!
//! A day is counted from January 1 of the year 1, which is day 1 and a Monday. ISO weeks start on
//! a Monday, and week 1 of a year is the one that holds January 4.

use chrono::{Datelike, Timelike};
use vstd::prelude::*;

use crate::rhythm::{day_name, weekday_name};
use crate::text::{show, show_two, two_digits};

verus! {

/// The first calendar year a date can lie in.
pub const MIN_YEAR: i32 = -262143;

/// The last calendar year a date can lie in.
pub const MAX_YEAR: i32 = 262142;

/// A calendar day, counted from January 1 of the year 1 (day 1).
#[derive(Clone, Copy, Debug, PartialEq, Eq, Structural)]
pub struct Date {
    pub day: i32,
}

/// A point in time in UTC: seconds since January 1, 1970, and nanoseconds within the second.
#[derive(Clone, Copy, Debug, PartialEq, Eq, Structural)]
pub struct Timestamp {
    pub secs: i64,
    pub nanos: u32,
}

/// A local day and time of day.
#[derive(Clone, Copy, Debug, PartialEq, Eq, Structural)]
pub struct LocalTime {
    pub date: Date,
    pub hour: u8,
    pub minute: u8,
}

// ── What days, months and weeks are ──────────────────────────────────────────

/// The day number of January 1.
#[verifier::opaque]
pub open spec fn january_first(year: int) -> int {
    365 * (year - 1) + (year - 1) / 4 - (year - 1) / 100 + (year - 1) / 400 + 1
}

/// Whether a year has a February 29.
pub open spec fn is_leap(year: int) -> bool {
    year % 4 == 0 && (year % 100 != 0 || year % 400 == 0)
}

/// The days of a year before a month starts.
pub open spec fn days_before(year: int, month: int) -> int {
    (if month <= 1 {
        0int
    } else if month == 2 {
        31int
    } else if month == 3 {
        59int
    } else if month == 4 {
        90int
    } else if month == 5 {
        120int
    } else if month == 6 {
        151int
    } else if month == 7 {
        181int
    } else if month == 8 {
        212int
    } else if month == 9 {
        243int
    } else if month == 10 {
        273int
    } else if month == 11 {
        304int
    } else if month == 12 {
        334int
    } else {
        365int
    }) + (if month > 2 && is_leap(year) {
        1int
    } else {
        0int
    })
}

/// Whether `day` is the given day of the given month.
pub open spec fn is_date(day: int, year: int, month: int, dom: int) -> bool {
    &&& 1 <= month <= 12
    &&& 1 <= dom <= days_before(year, month + 1) - days_before(year, month)
    &&& day == january_first(year) + days_before(year, month) + dom - 1
}

/// Year, month and day of the month of a day.
pub open spec fn date_of(day: int) -> (int, int, int) {
    choose|t: (int, int, int)| is_date(day, t.0, t.1, t.2)
}

/// Whether a day can be represented.
pub open spec fn is_day(day: int) -> bool {
    january_first(MIN_YEAR as int) <= day < january_first(MAX_YEAR + 1)
}

/// Whether a calendar year can be represented.
pub open spec fn is_year(year: int) -> bool {
    MIN_YEAR <= year <= MAX_YEAR
}

/// The weekday of a day, 0 for a Monday.
pub open spec fn weekday(day: int) -> int {
    (day - 1) % 7
}

/// The Monday of week 1 of an ISO year.
pub open spec fn first_monday(year: int) -> int {
    let fourth = january_first(year) + 3;
    fourth - weekday(fourth)
}

/// How many weeks an ISO year has.
pub open spec fn weeks_in(year: int) -> int {
    (first_monday(year + 1) - first_monday(year)) / 7
}

/// Whether an ISO year has a week of this number.
pub open spec fn is_week(year: int, week: int) -> bool {
    1 <= week <= weeks_in(year)
}

/// The Monday of an ISO week.
pub open spec fn monday(year: int, week: int) -> int {
    first_monday(year) + 7 * (week - 1)
}

/// The place of an ISO week among all weeks.
pub open spec fn week_number(year: int, week: int) -> int {
    (monday(year, week) - 1) / 7
}

/// The ISO week at a place among all weeks.
pub open spec fn week_at(number: int) -> (int, int) {
    choose|t: (int, int)| is_week(t.0, t.1) && week_number(t.0, t.1) == number
}

/// Whether an ISO week is one of its year and its Monday can be represented.
pub open spec fn has_monday(year: int, week: int) -> bool {
    is_week(year, week) && is_day(monday(year, week))
}

/// The day a week counts from: its Monday, or January 4 for a week that the year does not have.
pub open spec fn week_start(year: int, week: int) -> int {
    if has_monday(year, week) {
        monday(year, week)
    } else {
        january_first(year) + 3
    }
}

/// Integer division towards zero by seven.
pub open spec fn whole_weeks(days: int) -> int {
    if days >= 0 {
        days / 7
    } else {
        -((-days) / 7)
    }
}

/// The name of a month in three letters.
pub open spec fn month_name(month: int) -> Seq<char> {
    if month == 1 {
        "Jan"@
    } else if month == 2 {
        "Feb"@
    } else if month == 3 {
        "Mar"@
    } else if month == 4 {
        "Apr"@
    } else if month == 5 {
        "May"@
    } else if month == 6 {
        "Jun"@
    } else if month == 7 {
        "Jul"@
    } else if month == 8 {
        "Aug"@
    } else if month == 9 {
        "Sep"@
    } else if month == 10 {
        "Oct"@
    } else if month == 11 {
        "Nov"@
    } else {
        "Dec"@
    }
}

/// A number in decimal with at least four digits.
pub open spec fn four_digits(n: nat) -> Seq<char> {
    if n < 10 {
        seq!['0', '0', '0'] + crate::text::decimal(n)
    } else if n < 100 {
        seq!['0', '0'] + crate::text::decimal(n)
    } else if n < 1000 {
        seq!['0'] + crate::text::decimal(n)
    } else {
        crate::text::decimal(n)
    }
}

/// A year in at least four digits, with a sign when it is negative or beyond 9999.
pub open spec fn year_text(year: int) -> Seq<char> {
    if year < 0 {
        seq!['-'] + four_digits((-year) as nat)
    } else if year <= 9999 {
        four_digits(year as nat)
    } else {
        seq!['+'] + four_digits(year as nat)
    }
}

// ── Calls into chrono ────────────────────────────────────────────────────────

/// `chrono::NaiveDate::from_isoywd_opt` for a Monday: the Monday of an ISO week as a day number,
/// or `None` when the year has no such week or the day cannot be represented.
#[verifier::external_body]
fn iso_monday(year: i32, week: u32) -> (r: Option<i32>)
    requires
        year > i32::MIN,
    ensures
        (r is Some) == has_monday(year as int, week as int),
        r is Some ==> r->0 == monday(year as int, week as int),
{
    chrono::NaiveDate::from_isoywd_opt(year, week, chrono::Weekday::Mon).map(
        |d| d.num_days_from_ce(),
    )
}

/// `chrono::NaiveDate::from_ymd_opt` for January 4: its day number.
#[verifier::external_body]
fn january_fourth(year: i32) -> (r: i32)
    requires
        is_year(year as int),
    ensures
        r == january_first(year as int) + 3,
{
    chrono::NaiveDate::from_ymd_opt(year, 1, 4).unwrap().num_days_from_ce()
}

/// `chrono::NaiveDate::iso_week`: year and number of the ISO week that holds the day.
#[verifier::external_body]
fn iso_week_holding(day: i32) -> (r: (i32, u32))
    requires
        is_day(day as int),
    ensures
        is_week(r.0 as int, r.1 as int),
        monday(r.0 as int, r.1 as int) <= day <= monday(r.0 as int, r.1 as int) + 6,
{
    let w = chrono::NaiveDate::from_num_days_from_ce_opt(day).unwrap().iso_week();
    (w.year(), w.week())
}

/// `chrono::NaiveDate::from_num_days_from_ce_opt`: year, month and day of the month of a day.
#[verifier::external_body]
fn civil_date(day: i32) -> (r: (i32, u32, u32))
    requires
        is_day(day as int),
    ensures
        is_date(day as int, r.0 as int, r.1 as int, r.2 as int),
{
    let d = chrono::NaiveDate::from_num_days_from_ce_opt(day).unwrap();
    (d.year(), d.month(), d.day())
}

/// `chrono::NaiveDate::format` with `%b`: the three-letter English name of the day's month.
#[verifier::external_body]
fn month_abbreviation(day: i32) -> (r: String)
    requires
        is_day(day as int),
    ensures
        r@ == month_name(date_of(day as int).1),
{
    chrono::NaiveDate::from_num_days_from_ce_opt(day).unwrap().format("%b").to_string()
}

/// `chrono::NaiveDate::format` with `%Y`: the day's year, in at least four digits and with a sign
/// when it is negative or beyond 9999.
#[verifier::external_body]
fn year_digits(day: i32) -> (r: String)
    requires
        is_day(day as int),
    ensures
        r@ == year_text(date_of(day as int).0),
{
    chrono::NaiveDate::from_num_days_from_ce_opt(day).unwrap().format("%Y").to_string()
}

/// `chrono::DateTime::from_timestamp`, in UTC: the day on which a second falls, or `None` when
/// that day cannot be represented.
#[verifier::external_body]
fn utc_day(secs: i64) -> (r: Option<i32>)
    ensures
        (r is Some) == is_day(719163 + secs as int / 86400),
        r is Some ==> r->0 == 719163 + secs as int / 86400,
{
    chrono::DateTime::from_timestamp(secs, 0).map(|t| t.date_naive().num_days_from_ce())
}

/// `chrono::Utc::now`: seconds since January 1, 1970, and nanoseconds within the second. Nothing
/// is known of the result.
#[verifier::external_body]
fn utc_clock() -> (r: (i64, u32))
{
    let now = chrono::Utc::now();
    (now.timestamp(), now.timestamp_subsec_nanos())
}

/// `chrono::Utc::now` seen in a time zone of `chrono_tz` (UTC when `zone` names none). Nothing
/// is known of the result but that it is a day and a time of day.
#[verifier::external_body]
fn clock(zone: &str) -> (r: (i32, u32, u32))
    ensures
        is_day(r.0 as int),
        r.1 < 24,
        r.2 < 60,
{
    let zone: chrono_tz::Tz = zone.parse().unwrap_or(chrono_tz::UTC);
    let now = chrono::Utc::now().with_timezone(&zone);
    (now.date_naive().num_days_from_ce(), now.hour(), now.minute())
}

// ── Facts ────────────────────────────────────────────────────────────────────

/// One more is divided evenly by four exactly when the number is a multiple of four.
proof fn lemma_fourth(n: int)
    ensures
        n / 4 - (n - 1) / 4 == if n % 4 == 0 {
            1int
        } else {
            0int
        },
{
}

/// One more is divided evenly by a hundred exactly when the number is a multiple of a hundred.
proof fn lemma_hundredth(n: int)
    ensures
        n / 100 - (n - 1) / 100 == if n % 100 == 0 {
            1int
        } else {
            0int
        },
        n % 100 == 0 ==> n % 4 == 0,
{
}

/// One more is divided evenly by four hundred exactly when the number is a multiple of it.
proof fn lemma_four_hundredth(n: int)
    ensures
        n / 400 - (n - 1) / 400 == if n % 400 == 0 {
            1int
        } else {
            0int
        },
        n % 400 == 0 ==> n % 100 == 0,
{
}

/// A year of the calendar has 365 or 366 days.
pub proof fn lemma_year_length(year: int)
    ensures
        january_first(year + 1) - january_first(year) == if is_leap(year) {
            366int
        } else {
            365int
        },
{
    lemma_fourth(year);
    lemma_hundredth(year);
    lemma_four_hundredth(year);
    let a = (year - 1) / 4;
    let b = (year - 1) / 100;
    let c = (year - 1) / 400;
    assert(january_first(year) == 365 * (year - 1) + a - b + c + 1) by {
        reveal(january_first);
    }
    assert(january_first(year + 1) == 365 * year + year / 4 - year / 100 + year / 400 + 1) by {
        reveal(january_first);
    }
}

/// The Monday on or before a day, a year of the calendar apart.
proof fn lemma_mondays_apart(a: int, b: int)
    requires
        b - a == 365 || b - a == 366,
    ensures
        (b - weekday(b)) - (a - weekday(a)) == 364 || (b - weekday(b)) - (a - weekday(a)) == 371,
        weekday(a - weekday(a)) == 0,
{
}

/// An ISO year has 52 or 53 weeks, and they fill the time up to the next one's first Monday.
pub proof fn lemma_weeks_in(year: int)
    ensures
        52 <= weeks_in(year) <= 53,
        first_monday(year + 1) == first_monday(year) + 7 * weeks_in(year),
        weekday(first_monday(year)) == 0,
{
    lemma_year_length(year);
    lemma_mondays_apart(january_first(year) + 3, january_first(year + 1) + 3);
}

/// Every Monday is seven days after the one before.
pub proof fn lemma_monday(year: int, week: int)
    ensures
        monday(year, week) == 7 * week_number(year, week) + 1,
        weekday(monday(year, week)) == 0,
{
    lemma_weeks_in(year);
}

/// A later ISO year starts later, at least 52 weeks for each year.
pub proof fn lemma_years_apart(a: int, b: int)
    requires
        a <= b,
    ensures
        first_monday(a) + 364 * (b - a) <= first_monday(b),
    decreases b - a,
{
    if a < b {
        lemma_years_apart(a, b - 1);
        lemma_weeks_in(b - 1);
    }
}

/// Weeks are ordered by year and then by number.
pub proof fn lemma_week_order(ay: int, aw: int, by: int, bw: int)
    requires
        is_week(ay, aw),
        is_week(by, bw),
    ensures
        week_number(ay, aw) < week_number(by, bw) <==> ay < by || (ay == by && aw < bw),
        week_number(ay, aw) == week_number(by, bw) <==> ay == by && aw == bw,
{
    lemma_monday(ay, aw);
    lemma_monday(by, bw);
    lemma_weeks_in(ay);
    lemma_weeks_in(by);
    if ay < by {
        lemma_years_apart(ay + 1, by);
    } else if by < ay {
        lemma_years_apart(by + 1, ay);
    }
}

/// Every week has a place, and every place a week.
pub proof fn lemma_week_at(number: int)
    ensures
        is_week(week_at(number).0, week_at(number).1),
        week_number(week_at(number).0, week_at(number).1) == number,
{
    let day = 7 * number + 1;
    let m = if day < 0 {
        1 - day
    } else {
        0
    };
    lemma_years_apart(1 - m, 1);
    reveal(january_first);
    assert(first_monday(1) == 1);
    let y = lemma_year_holding(day, 1 - m - 1);
    let w = (day - first_monday(y)) / 7 + 1;
    lemma_weeks_in(y);
    assert(is_week(y, w));
    lemma_monday(y, w);
    let t = (y, w);
    assert(is_week(t.0, t.1) && week_number(t.0, t.1) == number);
}

/// The ISO year that holds a day, found from an earlier year on.
proof fn lemma_year_holding(day: int, year: int) -> (r: int)
    requires
        first_monday(year) <= day,
    ensures
        first_monday(r) <= day < first_monday(r + 1),
    decreases day - first_monday(year),
{
    lemma_weeks_in(year);
    if day < first_monday(year + 1) {
        year
    } else {
        lemma_year_holding(day, year + 1)
    }
}

/// A day determines its ISO week.
pub proof fn lemma_week_of_day(day: int, year: int, week: int)
    requires
        is_week(year, week),
        monday(year, week) <= day <= monday(year, week) + 6,
    ensures
        week_number(year, week) == (day - 1) / 7,
        week_at((day - 1) / 7) == (year, week),
{
    lemma_monday(year, week);
    let number = (day - 1) / 7;
    let t = (year, week);
    assert(is_week(t.0, t.1) && week_number(t.0, t.1) == number);
    let c = week_at(number);
    assert(is_week(c.0, c.1) && week_number(c.0, c.1) == number);
    lemma_week_order(c.0, c.1, year, week);
}

/// A day determines its calendar date.
pub proof fn lemma_date_of(day: int, year: int, month: int, dom: int)
    requires
        is_date(day, year, month, dom),
    ensures
        date_of(day) == (year, month, dom),
{
    let t = (year, month, dom);
    assert(is_date(day, t.0, t.1, t.2));
    let c = date_of(day);
    assert(is_date(day, c.0, c.1, c.2));
    lemma_year_length(year);
    lemma_year_length(c.0);
    if c.0 < year {
        lemma_later_year(c.0 + 1, year);
    } else if year < c.0 {
        lemma_later_year(year + 1, c.0);
    }
}

/// A later year starts no earlier.
proof fn lemma_later_year(a: int, b: int)
    requires
        a <= b,
    ensures
        january_first(a) <= january_first(b),
    decreases b - a,
{
    if a < b {
        lemma_later_year(a, b - 1);
        lemma_year_length(b - 1);
    }
}

/// A week of a year that can be represented counts from a day near that year.
pub proof fn lemma_week_start(year: int, week: int)
    requires
        is_year(year),
    ensures
        is_day(week_start(year, week)),
        january_first(year) - 3 <= week_start(year, week) <= january_first(year) + 370,
        -96000000 < week_start(year, week) < 96000000,
{
    lemma_weeks_in(year);
    lemma_later_year(MIN_YEAR as int, year);
    lemma_later_year(year, MAX_YEAR as int);
    lemma_year_length(MAX_YEAR as int);
    reveal(january_first);
}

// ── Functions ────────────────────────────────────────────────────────────────

impl Date {
    /// Whether the day can be represented.
    pub open spec fn wf(self) -> bool {
        is_day(self.day as int)
    }

    /// Whether all days of the week that holds the day can be represented.
    pub open spec fn in_week(self) -> bool {
        whole_week(self.day as int)
    }

    /// The place of the week that holds the day among all weeks.
    pub open spec fn week_no(self) -> int {
        (self.day - 1) / 7
    }
}

/// Whether all days of the week that holds the day can be represented.
pub open spec fn whole_week(day: int) -> bool {
    is_day(day - weekday(day)) && is_day(day - weekday(day) + 6)
}

/// The weeks from the one that counts from `from` to the one that counts from `to`.
pub open spec fn weeks_apart(from: (i32, u32), to: (i32, u32)) -> int {
    whole_weeks(week_start(to.0 as int, to.1 as int) - week_start(from.0 as int, from.1 as int))
}

/// A day whose week can be represented is in a week that counts from its Monday.
pub proof fn lemma_whole_week(day: int, year: int, week: int)
    requires
        whole_week(day),
        is_week(year, week),
        week_number(year, week) == (day - 1) / 7,
    ensures
        is_day(day),
        is_year(year),
        week_start(year, week) == day - weekday(day),
        week_start(year, week) == 7 * week_number(year, week) + 1,
        is_day(week_start(year, week) + 6),
{
    lemma_monday(year, week);
    assert(monday(year, week) == day - weekday(day));
    lemma_year_of_monday(year, week);
}

/// The ISO year of a representable Monday is a representable calendar year, or the one after.
proof fn lemma_year_of_monday(year: int, week: int)
    requires
        is_week(year, week),
        is_day(monday(year, week)),
        is_day(monday(year, week) + 6),
    ensures
        is_year(year),
{
    lemma_weeks_in(year);
    if year < MIN_YEAR {
        lemma_years_apart(year + 1, MIN_YEAR as int);
        assert(monday(year, week) + 7 <= first_monday(MIN_YEAR as int));
        assert(first_monday(MIN_YEAR as int) <= january_first(MIN_YEAR as int) + 3);
        reveal(january_first);
    }
    if year > MAX_YEAR {
        lemma_years_apart(MAX_YEAR + 1, year);
        assert(monday(year, week) >= first_monday(MAX_YEAR + 1));
        reveal(january_first);
    }
}

/// Whether a year can be represented.
pub fn year_fits(year: i32) -> (r: bool)
    ensures
        r == is_year(year as int),
{
    MIN_YEAR <= year && year <= MAX_YEAR
}

/// The Monday of an ISO week, or January 4 when the year has no such week.
pub fn week_monday(year: i32, week: u32) -> (r: Date)
    requires
        is_year(year as int),
    ensures
        r.day == week_start(year as int, week as int),
        r.wf(),
{
    proof {
        lemma_week_start(year as int, week as int);
    }
    match iso_monday(year, week) {
        Some(day) => Date { day },
        None => Date { day: january_fourth(year) },
    }
}

/// The ISO week that holds a day.
pub fn week_of(date: Date) -> (r: (i32, u32))
    requires
        date.wf(),
    ensures
        is_week(r.0 as int, r.1 as int),
        (r.0 as int, r.1 as int) == week_at((date.day - 1) / 7),
        week_number(r.0 as int, r.1 as int) == (date.day - 1) / 7,
{
    let r = iso_week_holding(date.day);
    proof {
        lemma_week_of_day(date.day as int, r.0 as int, r.1 as int);
    }
    r
}

/// The weekday of a day, 0 for a Monday.
pub fn weekday_of(date: Date) -> (r: u8)
    ensures
        r == weekday(date.day as int),
{
    // Moved forward by a whole number of weeks, so that the remainder is taken of no negative.
    let d: i64 = date.day as i64 - 1 + 2800000000;
    (d as u64 % 7) as u8
}

/// The week `n` weeks after (before, when negative) a given one.
pub fn add_weeks(year: i32, week: u32, n: i64) -> (r: (i32, u32))
    requires
        is_year(year as int),
        is_day(week_start(year as int, week as int) + 7 * n),
    ensures
        is_week(r.0 as int, r.1 as int),
        (r.0 as int, r.1 as int) == week_at((week_start(year as int, week as int) + 7 * n - 1) / 7),
        week_number(r.0 as int, r.1 as int) == (week_start(year as int, week as int) + 7 * n - 1)
            / 7,
{
    proof {
        lemma_week_start(year as int, week as int);
        reveal(january_first);
    }
    let start = week_monday(year, week);
    let day: i64 = start.day as i64 + 7 * n;
    week_of(Date { day: day as i32 })
}

/// How many weeks lie between two weeks; negative when the second comes first.
pub fn weeks_between(from: (i32, u32), to: (i32, u32)) -> (r: i64)
    requires
        is_year(from.0 as int),
        is_year(to.0 as int),
    ensures
        r == whole_weeks(
            week_start(to.0 as int, to.1 as int) - week_start(from.0 as int, from.1 as int),
        ),
        r == weeks_apart(from, to),
        -30000000 < r < 30000000,
{
    proof {
        lemma_week_start(from.0 as int, from.1 as int);
        lemma_week_start(to.0 as int, to.1 as int);
    }
    let a = week_monday(from.0, from.1);
    let b = week_monday(to.0, to.1);
    let days: i64 = b.day as i64 - a.day as i64;
    if days >= 0 {
        days / 7
    } else {
        0 - ((0 - days) / 7)
    }
}

/// The day on which a point in time falls, in UTC.
pub fn date_of_timestamp(t: Timestamp) -> (r: Option<Date>)
    ensures
        r is Some <==> is_day(719163 + t.secs as int / 86400),
        r is Some ==> r->0.day == 719163 + t.secs as int / 86400,
{
    match utc_day(t.secs) {
        Some(day) => Some(Date { day }),
        None => None,
    }
}

/// The point in time that it is now.
pub fn now() -> (r: Timestamp)
{
    let (secs, nanos) = utc_clock();
    Timestamp { secs, nanos }
}

/// The day and time of day that it is now in a time zone; an unknown zone counts as UTC.
pub fn local_time(zone: &str) -> (r: LocalTime)
    ensures
        r.date.wf(),
        r.hour < 24,
        r.minute < 60,
{
    let (day, hour, minute) = clock(zone);
    LocalTime { date: Date { day }, hour: hour as u8, minute: minute as u8 }
}

/// January 1 of the third year that can be represented.
pub const FIRST_TODAY: i32 = -95745399;

/// December 31 of the last year but two that can be represented.
pub const LAST_TODAY: i32 = 95744669;

/// The place of the last week whose days can all be represented.
pub const LAST_WEEK: i64 = 13677913;

/// Whether a day is one from which the weeks of its year and of the next one can be named: all but
/// those of the first two and of the last two years that can be represented.
pub open spec fn is_today(day: int) -> bool {
    FIRST_TODAY <= day <= LAST_TODAY
}

/// Such a day lies in a week whose days can be represented, as do those of all weeks up to the
/// last one.
pub proof fn lemma_today(day: int)
    requires
        is_today(day),
    ensures
        whole_week(day),
        is_day(day),
        (day - 1) / 7 < LAST_WEEK,
{
    reveal(january_first);
}

/// The day that it is now in a time zone; an unknown zone counts as UTC.
pub fn today_in(zone: &str) -> (r: Date)
    ensures
        r.wf(),
{
    local_time(zone).date
}

/// The day that it is now in UTC.
pub fn today() -> (r: Date)
    ensures
        r.wf(),
{
    today_in("UTC")
}

/// The day that it is now in UTC, for what needs the weeks around it. In the first two and in the
/// last two years that can be represented there are no such weeks, and the next day that has them
/// stands for now.
pub fn planning_day() -> (r: Date)
    ensures
        is_today(r.day as int),
        r.in_week(),
{
    let date = today();
    let r = if date.day < FIRST_TODAY {
        Date { day: FIRST_TODAY }
    } else if date.day > LAST_TODAY {
        Date { day: LAST_TODAY }
    } else {
        date
    };
    proof {
        lemma_today(r.day as int);
    }
    r
}

/// The ISO week that it is now in UTC.
pub fn current_iso_week() -> (r: (i32, u32))
    ensures
        is_week(r.0 as int, r.1 as int),
{
    week_of(today())
}

/// The place among all weeks of the one that holds a day.
pub fn week_no_of(date: Date) -> (r: i64)
    ensures
        r == date.week_no(),
        -400000000 < r < 400000000,
{
    // Moved forward by a whole number of weeks, so that no negative number is divided.
    (date.day as i64 - 1 + 2800000000) / 7 - 400000000
}

/// "25 Sep".
pub open spec fn day_text(day: int) -> Seq<char> {
    crate::text::decimal(date_of(day).2 as nat) + " "@ + month_name(date_of(day).1)
}

/// "22 – 28 Sep", "29 Sep – 5 Oct", or "25 Sep" for a single day.
pub open spec fn range_text(start: int, end: int) -> Seq<char> {
    if start == end {
        day_text(start)
    } else if date_of(start).1 == date_of(end).1 {
        crate::text::decimal(date_of(start).2 as nat) + " – "@ + crate::text::decimal(
            date_of(end).2 as nat,
        ) + " "@ + month_name(date_of(start).1)
    } else {
        day_text(start) + " – "@ + day_text(end)
    }
}

/// Writes the day of the month and the month.
fn show_day(date: Date) -> (r: String)
    requires
        date.wf(),
    ensures
        r@ == day_text(date.day as int),
{
    let (y, m, d) = civil_date(date.day);
    proof {
        lemma_date_of(date.day as int, y as int, m as int, d as int);
    }
    show(d as u64).concat(" ").concat(month_abbreviation(date.day).as_str())
}

/// "22 – 28 Sep", "29 Sep – 5 Oct", or "25 Sep" for a single day.
pub fn date_range(start: Date, end: Date) -> (r: String)
    requires
        start.wf(),
        end.wf(),
    ensures
        r@ == range_text(start.day as int, end.day as int),
{
    let (sy, sm, sd) = civil_date(start.day);
    let (ey, em, ed) = civil_date(end.day);
    proof {
        lemma_date_of(start.day as int, sy as int, sm as int, sd as int);
        lemma_date_of(end.day as int, ey as int, em as int, ed as int);
    }
    if start.day == end.day {
        show_day(start)
    } else if sm == em {
        show(sd as u64).concat(" – ").concat(show(ed as u64).as_str()).concat(" ").concat(
            month_abbreviation(start.day).as_str(),
        )
    } else {
        let s = show_day(start);
        let e = show_day(end);
        s.concat(" – ").concat(e.as_str())
    }
}

/// The days of a week, "22 – 28 Sep".
pub open spec fn week_text(year: int, week: int) -> Seq<char> {
    range_text(week_start(year, week), week_start(year, week) + 6)
}

/// The days of a week, "22 – 28 Sep".
pub fn week_dates(year: i32, week: u32) -> (r: String)
    requires
        is_year(year as int),
        is_day(week_start(year as int, week as int) + 6),
    ensures
        r@ == week_text(year as int, week as int),
{
    let start = week_monday(year, week);
    proof {
        lemma_week_start(year as int, week as int);
    }
    date_range(start, Date { day: start.day + 6 })
}

/// "20250925".
pub open spec fn compact_text(day: int) -> Seq<char> {
    year_text(date_of(day).0) + two_digits(date_of(day).1 as nat) + two_digits(
        date_of(day).2 as nat,
    )
}

/// "25 Sep 2025", with a leading zero for days below ten.
pub open spec fn padded_text(day: int) -> Seq<char> {
    two_digits(date_of(day).2 as nat) + " "@ + month_name(date_of(day).1) + " "@ + year_text(
        date_of(day).0,
    )
}

/// "5 Sep 2025".
pub open spec fn plain_text(day: int) -> Seq<char> {
    day_text(day) + " "@ + year_text(date_of(day).0)
}

/// A point in time in UTC, "20250925T101500Z".
pub open spec fn stamp_text(secs: int) -> Seq<char> {
    let rest = secs % 86400;
    compact_text(719163 + secs / 86400) + "T"@ + two_digits((rest / 3600) as nat) + two_digits(
        (rest / 60 % 60) as nat,
    ) + two_digits((rest % 60) as nat) + "Z"@
}

/// Whether the day of a point in time can be represented.
pub open spec fn is_time(secs: int) -> bool {
    is_day(719163 + secs / 86400)
}

/// Writes a day as year, month and day without anything between.
pub fn compact_date(date: Date) -> (r: String)
    requires
        date.wf(),
    ensures
        r@ == compact_text(date.day as int),
{
    let (y, m, d) = civil_date(date.day);
    proof {
        lemma_date_of(date.day as int, y as int, m as int, d as int);
    }
    year_digits(date.day).concat(show_two(m as u64).as_str()).concat(show_two(d as u64).as_str())
}

/// Writes a day as "05 Sep 2025".
pub fn padded_date(date: Date) -> (r: String)
    requires
        date.wf(),
    ensures
        r@ == padded_text(date.day as int),
{
    let (y, m, d) = civil_date(date.day);
    proof {
        lemma_date_of(date.day as int, y as int, m as int, d as int);
    }
    show_two(d as u64).concat(" ").concat(month_abbreviation(date.day).as_str()).concat(
        " ",
    ).concat(year_digits(date.day).as_str())
}

/// Writes a day as "5 Sep 2025".
pub fn plain_date(date: Date) -> (r: String)
    requires
        date.wf(),
    ensures
        r@ == plain_text(date.day as int),
{
    show_day(date).concat(" ").concat(year_digits(date.day).as_str())
}

/// Writes a point in time in UTC as "20250925T101500Z".
pub fn utc_stamp(t: Timestamp) -> (r: String)
    requires
        is_time(t.secs as int),
    ensures
        r@ == stamp_text(t.secs as int),
{
    match utc_day(t.secs) {
        Some(day) => {
            proof {
                reveal(january_first);
            }
            let midnight: i64 = (day as i64 - 719163) * 86400;
            let rest: u64 = (t.secs - midnight) as u64;
            compact_date(Date { day }).concat("T").concat(show_two(rest / 3600).as_str()).concat(
                show_two(rest / 60 % 60).as_str(),
            ).concat(show_two(rest % 60).as_str()).concat("Z")
        },
        None => String::new(),
    }
}

/// A point in time in UTC as HTTP writes it, "Thu, 25 Sep 2025 10:15:00 GMT".
pub open spec fn http_time(secs: int) -> Seq<char> {
    let day = 719163 + secs / 86400;
    let rest = secs % 86400;
    day_name(weekday(day)) + ", "@ + padded_text(day) + " "@ + two_digits((rest / 3600) as nat)
        + ":"@ + two_digits((rest / 60 % 60) as nat) + ":"@ + two_digits((rest % 60) as nat)
        + " GMT"@
}

/// Writes a point in time in UTC as "Thu, 25 Sep 2025 10:15:00 GMT".
pub fn http_date(t: Timestamp) -> (r: String)
    requires
        is_time(t.secs as int),
    ensures
        r@ == http_time(t.secs as int),
{
    match utc_day(t.secs) {
        Some(day) => {
            proof {
                reveal(january_first);
            }
            let midnight: i64 = (day as i64 - 719163) * 86400;
            let rest: u64 = (t.secs - midnight) as u64;
            weekday_name(weekday_of(Date { day })).concat(", ").concat(
                padded_date(Date { day }).as_str(),
            ).concat(" ").concat(show_two(rest / 3600).as_str()).concat(":").concat(
                show_two(rest / 60 % 60).as_str(),
            ).concat(":").concat(show_two(rest % 60).as_str()).concat(" GMT")
        },
        None => String::new(),
    }
}

} // verus!
