use vstd::prelude::*;

verus! {

/// Division that rounds toward zero, as Rust's `/` on signed integers does.
pub open spec fn trunc_div(a: int, b: int) -> int
    recommends
        b > 0,
{
    if a >= 0 {
        a / b
    } else {
        -((-a) / b)
    }
}

/// The integer part of the J2000 epoch formula for a date:
/// 367 y − ⌊7 (y + ⌊(m + 9) / 12⌋) / 4⌋ + ⌊275 m / 9⌋ + d − 730531,
/// each division rounded toward zero.
pub open spec fn j2000_day(year: int, month: int, day: int) -> int {
    367 * year - trunc_div(7 * (year + (month + 9) / 12), 4) + 275 * month / 9 + day - 730531
}

/// Returns the number of days from 1 January 2000 to the given date, by the
/// expression that the epoch of the elements uses
///
/// The epoch in years since UTC 1 January 2000 12h00 (J2000) is this number
/// of days plus the time of day minus 12h, divided by 365.25.
///
/// # Arguments
///
/// * `year` - The year
/// * `month` - The month, from 1 to 12
/// * `day` - The day of the month, from 1
pub fn j2000_days(year: i32, month: u32, day: u32) -> (days: i64)
    ensures
        days == j2000_day(year as int, month as int, day as int),
{
    let y = year as i64;
    let m = month as i64;
    let a = 7 * (y + (m + 9) / 12);
    let leap_part = if a >= 0 {
        a / 4
    } else {
        -((-a) / 4)
    };
    367 * y - leap_part + 275 * m / 9 + day as i64 - 730531
}

/// A leap year of the Gregorian calendar.
pub open spec fn is_leap_year(year: int) -> bool {
    (year % 4 == 0 && year % 100 != 0) || year % 400 == 0
}

/// The number of days of a month of the Gregorian calendar.
pub open spec fn days_in_month(year: int, month: int) -> int {
    if month == 2 {
        if is_leap_year(year) {
            29
        } else {
            28
        }
    } else if month == 4 || month == 6 || month == 9 || month == 11 {
        30
    } else {
        31
    }
}

/// A date of the Gregorian calendar.
pub open spec fn is_valid_date(year: int, month: int, day: int) -> bool {
    1 <= month <= 12 && 1 <= day <= days_in_month(year, month)
}

/// The day after a date.
pub open spec fn next_date(year: int, month: int, day: int) -> (int, int, int) {
    if day < days_in_month(year, month) {
        (year, month, day + 1)
    } else if month < 12 {
        (year, month + 1, 1)
    } else {
        (year + 1, 1, 1)
    }
}

/// The expression counts the days of the calendar from 1 January 2000: that
/// day is day 0, and from 1 March 1900 to 28 February 2100 each day's number
/// is one more than the number of the day before.
pub proof fn lemma_j2000_day_counts_days(year: int, month: int, day: int)
    requires
        1900 <= year <= 2100,
        is_valid_date(year, month, day),
        year == 1900 ==> month >= 3,
        year == 2100 ==> month == 1 || (month == 2 && day < 28),
    ensures
        j2000_day(2000, 1, 1) == 0,
        ({
            let (y, m, d) = next_date(year, month, day);
            j2000_day(y, m, d) == j2000_day(year, month, day) + 1
        }),
{
    if 1900 < year < 2100 {
        assert(is_leap_year(year) <==> year % 4 == 0);
    }
    let a = 7 * year / 4;
    let b = 7 * (year + 1) / 4;
    assert(year % 4 == 0 ==> b == a + 1);
    assert(year % 4 != 0 ==> b == a + 2);
}

} // verus!
