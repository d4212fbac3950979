//! The proleptic Gregorian calendar as a mathematical model.
//!
//! Dates are triples `(year, month, day)` of unbounded integers, years counted
//! from 1 and months and days from 1. Everything here is ghost: the
//! executable encoders state their contracts over these functions.

use vstd::prelude::*;

verus! {

/// Whether `year` has a 29th of February.
pub open spec fn is_leap(year: int) -> bool {
    year % 4 == 0 && (year % 100 != 0 || year % 400 == 0)
}

/// The number of days in `year`.
pub open spec fn days_in_year(year: int) -> int {
    if is_leap(year) {
        366
    } else {
        365
    }
}

/// The number of days in month `month` (1 = January) of `year`.
pub open spec fn days_in_month(year: int, month: int) -> int {
    if month == 2 {
        if is_leap(year) {
            29
        } else {
            28
        }
    } else if month == 4 || month == 6 || month == 9 || month == 11 {
        30
    } else {
        31
    }
}

/// The number of days of `year` that lie before the first of `month`.
pub open spec fn days_before_month(year: int, month: int) -> int
    decreases month,
{
    if month <= 1 {
        0
    } else {
        days_before_month(year, month - 1) + days_in_month(year, month - 1)
    }
}

/// The number of days between the first day of year 1 and the first day of
/// `year`.
pub open spec fn days_before_year(year: int) -> int
    decreases year,
{
    if year <= 1 {
        0
    } else {
        days_before_year(year - 1) + days_in_year(year - 1)
    }
}

/// Whether `(year, month, day)` names a day of the calendar.
pub open spec fn is_date(year: int, month: int, day: int) -> bool {
    &&& 1 <= year
    &&& 1 <= month <= 12
    &&& 1 <= day <= days_in_month(year, month)
}

/// The number of days between the first day of year 1 and the given date:
/// 0 for 0001-01-01, 1 for 0001-01-02, and so on.
pub open spec fn day_number(year: int, month: int, day: int) -> int {
    days_before_year(year) + days_before_month(year, month) + (day - 1)
}

/// The day that follows `date` in the calendar.
pub open spec fn next_day(date: (int, int, int)) -> (int, int, int) {
    let (year, month, day) = date;
    if day < days_in_month(year, month) {
        (year, month, day + 1)
    } else if month < 12 {
        (year, month + 1, 1)
    } else {
        (year + 1, 1, 1)
    }
}

/// The date reached from 0001-01-01 by stepping `n` days forward.
pub open spec fn date_of(n: nat) -> (int, int, int)
    decreases n,
{
    if n == 0 {
        (1, 1, 1)
    } else {
        next_day(date_of((n - 1) as nat))
    }
}

/// Whether `a` comes strictly before `b` in the calendar.
pub open spec fn is_before(a: (int, int, int), b: (int, int, int)) -> bool {
    a.0 < b.0 || (a.0 == b.0 && (a.1 < b.1 || (a.1 == b.1 && a.2 < b.2)))
}

/// The leap years among the first `years` years, in closed form.
pub open spec fn leap_years_among(years: int) -> int {
    years / 4 - years / 100 + years / 400
}

/// The days of a common year that lie before the first of `month`, written
/// out month by month; 365 stands for the month after December.
pub open spec fn common_days_before_month(month: int) -> int {
    if month <= 1 {
        0
    } else if month == 2 {
        31
    } else if month == 3 {
        59
    } else if month == 4 {
        90
    } else if month == 5 {
        120
    } else if month == 6 {
        151
    } else if month == 7 {
        181
    } else if month == 8 {
        212
    } else if month == 9 {
        243
    } else if month == 10 {
        273
    } else if month == 11 {
        304
    } else if month == 12 {
        334
    } else {
        365
    }
}

/// The days before a year are 365 for each earlier year and one more for each
/// earlier leap year.
pub proof fn lemma_days_before_year_closed_form(year: int)
    requires
        1 <= year,
    ensures
        days_before_year(year) == 365 * (year - 1) + leap_years_among(year - 1),
    decreases year,
{
    if year > 1 {
        lemma_days_before_year_closed_form(year - 1);
    }
}

/// The days before a month are those of a common year, and one more from
/// March on in a leap year.
pub proof fn lemma_days_before_month_values(year: int, month: int)
    requires
        1 <= month <= 13,
    ensures
        days_before_month(year, month) == common_days_before_month(month) + if is_leap(year)
            && month > 2 {
            1int
        } else {
            0int
        },
{
    reveal_with_fuel(days_before_month, 14);
}

/// A year begins no earlier than any year before it.
pub proof fn lemma_days_before_year_monotonic(earlier: int, later: int)
    requires
        earlier <= later,
    ensures
        days_before_year(earlier) <= days_before_year(later),
    decreases later - earlier,
{
    if earlier < later {
        lemma_days_before_year_monotonic(earlier, later - 1);
    }
}

/// A date lies within its year: at or after the year's first day and before
/// the first day of the next year.
pub proof fn lemma_day_number_within_year(year: int, month: int, day: int)
    requires
        is_date(year, month, day),
    ensures
        days_before_year(year) <= day_number(year, month, day) < days_before_year(year + 1),
{
    lemma_days_before_month_values(year, month);
}

/// Stepping to the next calendar day gives a date again, and raises the day
/// number by exactly one.
pub proof fn lemma_next_day_number(year: int, month: int, day: int)
    requires
        is_date(year, month, day),
    ensures
        ({
            let next = next_day((year, month, day));
            &&& is_date(next.0, next.1, next.2)
            &&& day_number(next.0, next.1, next.2) == day_number(year, month, day) + 1
        }),
{
    lemma_days_before_month_values(year, month);
    lemma_days_before_month_values(year, month + 1);
}

/// A date that comes earlier in the calendar has the smaller day number.
pub proof fn lemma_day_number_increasing(a: (int, int, int), b: (int, int, int))
    requires
        is_date(a.0, a.1, a.2),
        is_date(b.0, b.1, b.2),
        is_before(a, b),
    ensures
        day_number(a.0, a.1, a.2) < day_number(b.0, b.1, b.2),
{
    lemma_days_before_month_values(a.0, a.1);
    lemma_days_before_month_values(b.0, b.1);
    if a.0 < b.0 {
        lemma_day_number_within_year(a.0, a.1, a.2);
        lemma_days_before_year_monotonic(a.0 + 1, b.0);
    }
}

/// No two dates share a day number.
pub proof fn lemma_day_number_injective(a: (int, int, int), b: (int, int, int))
    requires
        is_date(a.0, a.1, a.2),
        is_date(b.0, b.1, b.2),
        day_number(a.0, a.1, a.2) == day_number(b.0, b.1, b.2),
    ensures
        a == b,
{
    if is_before(a, b) {
        lemma_day_number_increasing(a, b);
    } else if is_before(b, a) {
        lemma_day_number_increasing(b, a);
    }
}

/// Counting `n` days forward from 0001-01-01 reaches a date, and that date's
/// day number is `n`.
pub proof fn lemma_day_number_of_date_of(n: nat)
    ensures
        ({
            let date = date_of(n);
            &&& is_date(date.0, date.1, date.2)
            &&& day_number(date.0, date.1, date.2) == n
        }),
    decreases n,
{
    if n > 0 {
        lemma_day_number_of_date_of((n - 1) as nat);
        let prev = date_of((n - 1) as nat);
        lemma_next_day_number(prev.0, prev.1, prev.2);
    }
}

/// Counting forward starts at 0001-01-01, and one day more in the count is
/// one day further in the calendar.
pub proof fn lemma_date_of_steps(n: nat)
    ensures
        date_of(0) == (1int, 1int, 1int),
        date_of(n + 1) == next_day(date_of(n)),
{
}

/// Round trip: the date found at a date's day number is that date. So every
/// date of the calendar is reached by counting forward from 0001-01-01.
pub proof fn lemma_date_of_day_number(year: int, month: int, day: int)
    requires
        is_date(year, month, day),
    ensures
        day_number(year, month, day) >= 0,
        date_of(day_number(year, month, day) as nat) == (year, month, day),
{
    lemma_day_number_within_year(year, month, day);
    lemma_days_before_year_monotonic(1, year);
    let n = day_number(year, month, day) as nat;
    lemma_day_number_of_date_of(n);
    lemma_day_number_injective(date_of(n), (year, month, day));
}

/// Counting forward never meets a date twice and follows calendar order: the
/// smaller count gives the earlier date.
pub proof fn lemma_date_of_increasing(m: nat, n: nat)
    requires
        m < n,
    ensures
        is_before(date_of(m), date_of(n)),
{
    let a = date_of(m);
    let b = date_of(n);
    lemma_day_number_of_date_of(m);
    lemma_day_number_of_date_of(n);
    if is_before(b, a) {
        lemma_day_number_increasing(b, a);
    }
}

} // verus!
