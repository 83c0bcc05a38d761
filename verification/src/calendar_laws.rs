//! What dates, weeks and numbers are.

use vstd::prelude::*;

use crate::calendar::{
    date_of, days_before, first_monday, is_date, january_first, lemma_date_of, lemma_monday,
    lemma_week_at, lemma_week_order, lemma_weeks_in, lemma_year_length, monday, week_at, weekday,
    weeks_in,
};
use crate::text::{
    decimal, digit, digits_value, is_digit, parsed_int, parsed_nat, parsed_up_to, signed_decimal,
    unsigned_part,
};

verus! {

/// How many days a month has.
pub open spec fn month_length(year: int, month: int) -> int {
    if month == 2 {
        if year % 4 == 0 && (year % 100 != 0 || year % 400 == 0) {
            29
        } else {
            28
        }
    } else if month == 4 || month == 6 || month == 9 || month == 11 {
        30
    } else {
        31
    }
}

/// The date after a date.
pub open spec fn next_date(year: int, month: int, dom: int) -> (int, int, int) {
    if dom < month_length(year, month) {
        (year, month, dom + 1)
    } else if month < 12 {
        (year, month + 1, 1)
    } else {
        (year + 1, 1, 1)
    }
}

/// The day after a day has the date after its date, and days are counted from January 1 of the
/// year 1, which is a Monday.
pub proof fn law_days_follow_each_other(day: int, year: int, month: int, dom: int)
    requires
        is_date(day, year, month, dom),
    ensures
        date_of(day) == (year, month, dom),
        1 <= month <= 12,
        1 <= dom <= month_length(year, month),
        date_of(day + 1) == next_date(year, month, dom),
        weekday(day + 1) == (weekday(day) + 1) % 7,
        date_of(1) == (1int, 1int, 1int),
        weekday(1) == 0,
{
    lemma_date_of(day, year, month, dom);
    assert(days_before(year, month + 1) - days_before(year, month) == month_length(year, month));
    lemma_year_length(year);
    let n = next_date(year, month, dom);
    assert(is_date(day + 1, n.0, n.1, n.2));
    lemma_date_of(day + 1, n.0, n.1, n.2);
    reveal(january_first);
    assert(is_date(1, 1, 1, 1));
    lemma_date_of(1, 1, 1, 1);
}

/// The week at a place is the one of the year that its Thursday is in, and is numbered by the
/// Thursdays of that year.
pub proof fn law_weeks_are_those_of_their_thursdays(number: int)
    ensures
        ({
            let (year, week) = week_at(number);
            let thursday = 7 * number + 4;
            let first = january_first(year);
            &&& date_of(first) == (year, 1int, 1int)
            &&& date_of(january_first(year + 1)) == (year + 1, 1int, 1int)
            &&& first <= thursday < january_first(year + 1)
            &&& week == (thursday - first) / 7 + 1
            &&& weekday(7 * number + 1) == 0
            &&& monday(year, week) == 7 * number + 1
        }),
{
    let (year, week) = week_at(number);
    lemma_week_at(number);
    lemma_monday(year, week);
    lemma_weeks_in(year);
    let first = january_first(year);
    let next = january_first(year + 1);
    assert(is_date(first, year, 1, 1));
    assert(is_date(next, year + 1, 1, 1));
    lemma_date_of(first, year, 1, 1);
    lemma_date_of(next, year + 1, 1, 1);
    assert(first - 3 <= first_monday(year) <= first + 3);
    assert(next - 3 <= first_monday(year + 1) <= next + 3);
}

/// The week after a week is the next of its year or the first of the next year, and a year and a
/// number name no two weeks.
pub proof fn law_weeks_follow_each_other(number: int, other: int)
    ensures
        ({
            let (year, week) = week_at(number);
            let after = week_at(number + 1);
            after == (year, week + 1) || (after == (year + 1, 1int) && 52 <= week <= 53)
        }),
        week_at(number) == week_at(other) ==> number == other,
{
    let (year, week) = week_at(number);
    let after = week_at(number + 1);
    lemma_week_at(number);
    lemma_week_at(number + 1);
    lemma_week_at(other);
    lemma_monday(year, week);
    lemma_weeks_in(year);
    lemma_weeks_in(year + 1);
    if week < weeks_in(year) {
        lemma_monday(year, week + 1);
        lemma_week_order(year, week + 1, after.0, after.1);
    } else {
        lemma_monday(year + 1, 1);
        lemma_week_order(year + 1, 1, after.0, after.1);
    }
}

/// A number is written in digits, most significant first.
proof fn lemma_decimal(n: nat)
    ensures
        decimal(n).len() > 0,
        forall|i: int| 0 <= i < decimal(n).len() ==> is_digit(#[trigger] decimal(n)[i]),
        digits_value(decimal(n)) == n,
    decreases n,
{
    let t = decimal(n);
    if n < 10 {
        assert(t.drop_last() =~= Seq::<char>::empty());
        assert(digits_value(t.drop_last()) == 0);
        assert(t.last() == digit(n as int));
    } else {
        lemma_decimal(n / 10);
        assert(t.drop_last() =~= decimal(n / 10));
        assert(t.last() == digit((n % 10) as int));
    }
}

/// A number that was written reads back, signed or not, and is refused where it is too large.
pub proof fn law_numbers_read_back(n: nat, max: nat, i: int)
    ensures
        parsed_up_to(decimal(n), max) == (if n <= max {
            Some(n)
        } else {
            None
        }),
        parsed_int(signed_decimal(i)) == Some(i),
{
    lemma_decimal(n);
    lemma_plain(n);
    if i < 0 {
        lemma_decimal((-i) as nat);
        assert(signed_decimal(i).skip(1) =~= decimal((-i) as nat));
    } else {
        lemma_decimal(i as nat);
        lemma_plain(i as nat);
        assert(is_digit(decimal(i as nat)[0]));
    }
}

/// A number has no sign.
proof fn lemma_plain(n: nat)
    ensures
        parsed_nat(decimal(n)) == Some(n),
{
    lemma_decimal(n);
    assert(is_digit(decimal(n)[0]));
    assert(unsigned_part(decimal(n)) == decimal(n));
}

} // verus!
