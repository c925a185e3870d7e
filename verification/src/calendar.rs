//! Which calendar dates and clock times exist, as chrono decides it.

use vstd::prelude::*;

verus! {

/// chrono's `NaiveDate`, carried opaquely.
#[verifier::external_type_specification]
#[verifier::external_body]
pub struct ExNaiveDate(chrono::NaiveDate);

/// chrono's `NaiveDateTime`, carried opaquely.
#[verifier::external_type_specification]
#[verifier::external_body]
pub struct ExNaiveDateTime(chrono::NaiveDateTime);

/// Leap years of the proleptic Gregorian calendar.
pub open spec fn is_leap_year(year: int) -> bool {
    (year % 4 == 0 && year % 100 != 0) || year % 400 == 0
}

/// Number of days of `month` (1..=12) in `year`.
pub open spec fn days_in_month(year: int, month: int) -> int {
    if month == 2 {
        if is_leap_year(year) {
            29
        } else {
            28
        }
    } else if month == 4 || month == 6 || month == 9 || month == 11 {
        30
    } else {
        31
    }
}

/// The earliest year a chrono date can have.
pub open spec fn first_year() -> int {
    -262143
}

/// The latest year a chrono date can have.
pub open spec fn last_year() -> int {
    262142
}

/// A calendar date that exists and lies in chrono's range of years.
pub open spec fn is_valid_date(year: int, month: int, day: int) -> bool {
    &&& first_year() <= year <= last_year()
    &&& 1 <= month <= 12
    &&& 1 <= day <= days_in_month(year, month)
}

/// A wall-clock time of day given to the second.
pub open spec fn is_valid_time(hour: int, minute: int, second: int) -> bool {
    &&& 0 <= hour < 24
    &&& 0 <= minute < 60
    &&& 0 <= second < 60
}

/// `chrono::NaiveDate::from_ymd_opt`. Claimed: it gives a date exactly
/// when the year lies in chrono's range (`MIN_YEAR..=MAX_YEAR`, that is
/// -262143..=262142), the month in 1..=12 and the day exists in that month
/// of the proleptic Gregorian calendar. What is inside the date is not
/// stated: the library keeps the numbers it passed in.
#[verifier::external_body]
fn naive_date_from_ymd(year: i32, month: u32, day: u32) -> (r: Option<chrono::NaiveDate>)
    ensures
        r is Some <==> is_valid_date(year as int, month as int, day as int),
{
    chrono::NaiveDate::from_ymd_opt(year, month, day)
}

/// `chrono::NaiveDate::and_hms_opt`. Claimed: it gives a date-time exactly
/// when hour < 24, minute < 60 and second < 60 (it builds the time with
/// `NaiveTime::from_hms_opt`). What is inside the date-time is not stated.
#[verifier::external_body]
fn naive_date_and_hms(date: &chrono::NaiveDate, hour: u32, minute: u32, second: u32) -> (r: Option<
    chrono::NaiveDateTime,
>)
    ensures
        r is Some <==> is_valid_time(hour as int, minute as int, second as int),
{
    date.and_hms_opt(hour, minute, second)
}

/// Whether chrono accepts the date `year-month-day` and then the time
/// `hour:minute:second` on it.
pub fn datetime_exists(year: i32, month: u32, day: u32, hour: u32, minute: u32, second: u32) -> (b:
    bool)
    ensures
        b == (is_valid_date(year as int, month as int, day as int) && is_valid_time(
            hour as int,
            minute as int,
            second as int,
        )),
{
    match naive_date_from_ymd(year, month, day) {
        Some(date) => naive_date_and_hms(&date, hour, minute, second).is_some(),
        None => false,
    }
}

} // verus!
