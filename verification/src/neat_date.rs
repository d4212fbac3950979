//! Dates stored as a `u32` day count: the number of days elapsed since
//! 0001-01-01 in the proleptic Gregorian calendar, with no time of day and no
//! time zone. Consecutive days have consecutive numbers.

use crate::calendar::{
    date_of, day_number, days_before_month, days_before_year, days_in_month, is_date, is_leap,
    lemma_day_number_of_date_of, lemma_day_number_injective, lemma_days_before_month_values,
    lemma_days_before_year_closed_form, lemma_days_before_year_monotonic,
};
use crate::decimal::{append_zero_padded, zero_padded};
use vstd::prelude::*;
use vstd::string::StringExecFns;

verus! {

/// Days in each month of a common year; January is #0.
pub const MONTH_DAYS: [u32; 12] = [31, 28, 31, 30, 31, 30, 31, 31, 30, 31, 30, 31];

/// Days in each month of a leap year; January is #0.
pub const MONTH_DAYS_LEAP_YEAR: [u32; 12] = [31, 29, 31, 30, 31, 30, 31, 31, 30, 31, 30, 31];

/// Days of a common year completed when each month starts; January is #0,
/// with zero days completed on January 1st.
pub const DAYS_UP_TO_MONTH_START: [u32; 12] = [
    0,
    31,
    59,
    90,
    120,
    151,
    181,
    212,
    243,
    273,
    304,
    334,
];

/// Same as [`DAYS_UP_TO_MONTH_START`], for leap years.
pub const DAYS_UP_TO_MONTH_START_FOR_LEAP_YEARS: [u32; 12] = [
    0,
    31,
    60,
    91,
    121,
    152,
    182,
    213,
    244,
    274,
    305,
    335,
];

/// The day number of 65535-12-31, the last date whose year fits in a `u16`.
pub const MAX_DATE: u32 = 23_936_165;

/// Days in 400 consecutive years: 400 * 365, and a leap day for each of the
/// 100 - 4 + 1 leap years among them. A year has 146097 / 400 days on average.
pub const DAYS_IN_400_YEARS: u32 = 146_097;

/// Why a year, month and day could not be encoded.
#[derive(Clone, Copy, Debug, PartialEq, Eq, Structural)]
pub enum DateError {
    /// The year is 0, the month is not in 1..=12, or the day is not a day of
    /// that month in that year.
    InvalidDate,
}

/// The month-length table for a year that is leap or not.
pub open spec fn month_days_table(leap: bool) -> [u32; 12] {
    if leap {
        MONTH_DAYS_LEAP_YEAR
    } else {
        MONTH_DAYS
    }
}

/// The month-start table for a year that is leap or not.
pub open spec fn month_starts_table(leap: bool) -> [u32; 12] {
    if leap {
        DAYS_UP_TO_MONTH_START_FOR_LEAP_YEARS
    } else {
        DAYS_UP_TO_MONTH_START
    }
}

/// The four tables hold the calendar's month lengths and month starts, and
/// each start is the previous start plus the previous month's length.
pub proof fn lemma_tables(year: int, month0: int)
    requires
        0 <= month0 < 12,
    ensures
        month_days_table(is_leap(year))@[month0] == days_in_month(year, month0 + 1),
        month_starts_table(is_leap(year))@[month0] == days_before_month(year, month0 + 1),
        month0 > 0 ==> month_starts_table(is_leap(year))@[month0] == month_starts_table(
            is_leap(year),
        )@[month0 - 1] + month_days_table(is_leap(year))@[month0 - 1],
{
    lemma_days_before_month_values(year, month0 + 1);
}

/// The number of whole average years that have passed on day `date`: the
/// whole part of `date` divided by 365.2425.
pub open spec fn year_estimate(date: int) -> int {
    400 * date / (DAYS_IN_400_YEARS as int)
}

/// Dividing by the average length of a year never passes the year of a date
/// and falls short of it by at most one: day `date` lies at or after the
/// first day of year `year_estimate(date) + 1`, and at most 366 days after it.
pub proof fn lemma_year_estimate(date: int)
    requires
        0 <= date,
    ensures
        0 <= year_estimate(date),
        days_before_year(year_estimate(date) + 1) <= date <= days_before_year(
            year_estimate(date) + 1,
        ) + 366,
{
    lemma_days_before_year_closed_form(year_estimate(date) + 1);
}

/// The text of a date: the year in at least four digits, the month and the day
/// in at least two, zeros in front where needed, hyphens between.
pub open spec fn ymd_text(year: nat, month: nat, day: nat) -> Seq<char> {
    zero_padded(year, 4) + seq!['-'] + zero_padded(month, 2) + seq!['-'] + zero_padded(day, 2)
}

/// Returns whether there is a 29th of February in `year`.
fn has_leap_day(year: u32) -> (leap: bool)
    ensures
        leap == is_leap(year as int),
{
    year % 4 == 0 && (year % 100 != 0 || year % 400 == 0)
}

/// Returns whether there is a 29th of February in the given year (counted
/// from year 1).
pub fn is_leap_year(year1: u16) -> (leap: bool)
    ensures
        leap == is_leap(year1 as int),
{
    has_leap_day(year1 as u32)
}

/// Returns the `u32` that stands for the date `year`-`month`-`day`: its day
/// number, counted from 0 for 0001-01-01. Fails with
/// [`DateError::InvalidDate`] exactly when the three values name no date of
/// the calendar. See [`ymd_from_u32`] for the reverse operation.
pub fn u32_from_ymd(year: u16, month: u8, day: u8) -> (encoded: Result<u32, DateError>)
    ensures
        is_date(year as int, month as int, day as int) ==> 0 <= day_number(
            year as int,
            month as int,
            day as int,
        ) <= MAX_DATE,
        encoded == if is_date(year as int, month as int, day as int) {
            Ok::<u32, DateError>(day_number(year as int, month as int, day as int) as u32)
        } else {
            Err::<u32, DateError>(DateError::InvalidDate)
        },
{
    if year == 0 || month == 0 || month > 12 || day == 0 {
        return Err(DateError::InvalidDate);
    }
    let leap = is_leap_year(year);
    let month0 = (month - 1) as usize;
    let month_days = if leap {
        MONTH_DAYS_LEAP_YEAR
    } else {
        MONTH_DAYS
    };
    proof {
        lemma_tables(year as int, month0 as int);
        lemma_days_before_year_closed_form(year as int);
    }
    if day as u32 > month_days[month0] {
        return Err(DateError::InvalidDate);
    }
    let year0 = (year - 1) as u32;
    let leap_days_since_era_start: u32 = year0 / 4 - year0 / 100 + year0 / 400;
    let era_days_to_year_start: u32 = (leap_days_since_era_start * 366) + ((year0
        - leap_days_since_era_start) * 365);
    let days_to_month_start = if leap {
        DAYS_UP_TO_MONTH_START_FOR_LEAP_YEARS
    } else {
        DAYS_UP_TO_MONTH_START
    };
    let year_day: u32 = days_to_month_start[month0] + (day as u32 - 1);
    Ok(era_days_to_year_start + year_day)
}

/// Returns the `year`, `month` and `day` of the date with day number `date`.
/// See [`u32_from_ymd`] for the reverse operation.
///
/// Up to [`MAX_DATE`] the result is that date exactly. Beyond it the year no
/// longer fits in a `u16`: month and day are still those of the date, and the
/// year is reduced modulo 65536.
pub fn ymd_from_u32(date: u32) -> (ymd: (u16, u8, u8))
    ensures
        ymd.0 as int == date_of(date as nat).0 % 0x1_0000,
        ymd.1 as int == date_of(date as nat).1,
        ymd.2 as int == date_of(date as nat).2,
        date <= MAX_DATE ==> {
            &&& (ymd.0 as int, ymd.1 as int, ymd.2 as int) == date_of(date as nat)
            &&& is_date(ymd.0 as int, ymd.1 as int, ymd.2 as int)
            &&& day_number(ymd.0 as int, ymd.1 as int, ymd.2 as int) == date
        },
{
    // the whole average years before the date: never past its year, and at
    // most one year short of it
    let year0: u32 = ((date as u64) * 400 / (DAYS_IN_400_YEARS as u64)) as u32;
    let leap_days_since_era_start: u32 = year0 / 4 - year0 / 100 + year0 / 400;
    let mut year1: u32 = year0 + 1;
    proof {
        lemma_year_estimate(date as int);
        lemma_days_before_year_closed_form(year1 as int);
    }
    let days_up_to_year_start: u32 = (leap_days_since_era_start * 366) + ((year1
        - leap_days_since_era_start - 1) * 365);
    let year_day: u32 = date - days_up_to_year_start;
    let leap = has_leap_day(year1);
    let days_to_month_start = if leap {
        DAYS_UP_TO_MONTH_START_FOR_LEAP_YEARS
    } else {
        DAYS_UP_TO_MONTH_START
    };
    // no month is longer than 31 days, so this guess is never past the month
    // of the date, and it is at most one month short of it
    let mut month0: u32 = year_day / 31;
    while days_to_month_start[month0 as usize] > year_day
        invariant
            month0 <= 11,
            year_day < 31 * (month0 + 1),
            days_to_month_start == month_starts_table(leap),
        decreases month0,
    {
        month0 -= 1;
    }
    let mut day0: u32 = year_day - days_to_month_start[month0 as usize];
    // where the guess was short, the day lies in the next month, which may
    // be the January of the next year
    let month_days = if leap {
        MONTH_DAYS_LEAP_YEAR
    } else {
        MONTH_DAYS
    };
    proof {
        lemma_tables(year1 as int, month0 as int);
        lemma_days_before_month_values(year1 as int, 13);
    }
    if day0 >= month_days[month0 as usize] {
        day0 -= month_days[month0 as usize];
        month0 += 1;
    }
    if month0 >= 12 {
        month0 -= 12;
        year1 += 1;
    }
    proof {
        let found = (year1 as int, month0 as int + 1, day0 as int + 1);
        assert(is_date(found.0, found.1, found.2));
        assert(day_number(found.0, found.1, found.2) == date);
        lemma_day_number_of_date_of(date as nat);
        lemma_day_number_injective(found, date_of(date as nat));
        if date <= MAX_DATE {
            lemma_days_before_year_closed_form(0x1_0000);
            if year1 >= 0x1_0000 {
                lemma_days_before_year_monotonic(0x1_0000, year1 as int);
            }
        }
    }
    ((year1 % 0x1_0000) as u16, month0 as u8 + 1, day0 as u8 + 1)
}

/// Returns a human readable "YYYY-MM-DD" date from the given `year`, `month`
/// and `day`, whether or not they name a date of the calendar.
pub fn string_from_ymd(year: u16, month: u8, day: u8) -> (text: String)
    ensures
        text@ == ymd_text(year as nat, month as nat, day as nat),
{
    proof {
        reveal_strlit("-");
    }
    let mut text = String::new();
    append_zero_padded(&mut text, year as u32, 4);
    text.append("-");
    append_zero_padded(&mut text, month as u32, 2);
    text.append("-");
    append_zero_padded(&mut text, day as u32, 2);
    assert(text@ =~= ymd_text(year as nat, month as nat, day as nat));
    text
}

/// Returns a human readable "YYYY-MM-DD" date from the u32 `date` generated
/// by [`u32_from_ymd`].
pub fn string_from_u32(date: u32) -> (text: String)
    ensures
        ({
            let (year, month, day) = date_of(date as nat);
            text@ == ymd_text((year % 0x1_0000) as nat, month as nat, day as nat)
        }),
{
    let (year, month, day) = ymd_from_u32(date);
    string_from_ymd(year, month, day)
}

} // verus!
