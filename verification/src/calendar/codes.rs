//! The codes of the weekday congruence: one for the month, one for the year
//! within its century, one for the century.

use crate::calendar::DayOfWeek;
use vstd::prelude::*;

verus! {

/// The month codes, January first.
pub open spec fn month_codes() -> Seq<int> {
    seq![0, 3, 3, 6, 1, 4, 6, 2, 5, 0, 3, 5]
}

/// The code of a month from 1 to 12.
pub open spec fn month_code(month: int) -> int
    recommends
        1 <= month <= 12,
{
    month_codes()[month - 1]
}

/// The code of a year within its century.
pub open spec fn year_code(year: int) -> int {
    let y = year % 100;
    (y + y / 4) % 7
}

/// The code of the century of a year.
pub open spec fn century_code(year: int) -> int {
    ((year / 100 + 1) * 6) % 8
}

/// The code of a year as a whole: the year's code and the century's, less
/// one in a leap year.
pub open spec fn combined_code(year: int) -> int {
    year_code(year) + century_code(year) - (if crate::calendar::leap_year(year) {
        1int
    } else {
        0int
    })
}

const MONTH_CODES: [u32; 12] = [0, 3, 3, 6, 1, 4, 6, 2, 5, 0, 3, 5];

/// The code of `month`, which counts from 1.
pub fn get_month(month: u32) -> (code: u32)
    requires
        1 <= month <= 12,
    ensures
        code == month_code(month as int),
{
    MONTH_CODES[month as usize - 1]
}

/// The code of `year` within its century.
pub fn get_year(year: u32) -> (code: u32)
    ensures
        code == year_code(year as int),
{
    let y: u32 = year % 100;
    (y + (y / 4)) % 7
}

/// The code of the century that `year` lies in.
pub fn get_century(year: u32) -> (code: u32)
    ensures
        code == century_code(year as int),
{
    ((year / 100 + 1) * 6) % 8
}

/// The day of the week of `day`, given the code of its month and year.
pub fn day_of_week(day: u32, month_code: u32) -> (weekday: DayOfWeek)
    ensures
        weekday == DayOfWeek::of(day + month_code),
{
    let index: u64 = (day as u64 + month_code as u64) % 7;
    DayOfWeek::try_from(index as u32).unwrap()
}

} // verus!
