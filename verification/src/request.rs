//! The rules a request has to pass before hours are generated for it: the
//! ranges of its numbers, the order of its window, and the room that the
//! working days leave for its hours.

use crate::generate::Parameters;
use vstd::prelude::*;

verus! {

/// The latest hour of a day.
pub const LAST_HOUR: u32 = 24;

/// The first year that is accepted.
pub const FIRST_YEAR: u32 = 1970;

/// The number of months of a year.
pub const MONTHS: u32 = 12;

/// A number that lies outside the range asked of it.
#[derive(Debug, Clone, Copy, PartialEq, Eq)]
pub struct OutOfRange;

/// Why a request cannot be served.
#[derive(Debug, Clone, Copy, PartialEq, Eq)]
pub enum RequestError {
    /// The window ends before it starts.
    EarliestAfterLatest,
    /// The hours do not fit into the days, at `max_per_day` hours a day.
    TooManyHours { hours: u32, days: u32, max_per_day: u32 },
}

/// Accepts an hour of the day, from 0 to 24.
pub fn hour_in_range(hour: u32) -> (checked: Result<u32, OutOfRange>)
    ensures
        checked == (if hour <= LAST_HOUR {
            Ok::<u32, OutOfRange>(hour)
        } else {
            Err::<u32, OutOfRange>(OutOfRange)
        }),
{
    if hour <= LAST_HOUR {
        Ok(hour)
    } else {
        Err(OutOfRange)
    }
}

/// Accepts a year from 1970 on.
pub fn year_in_range(year: u32) -> (checked: Result<u32, OutOfRange>)
    ensures
        checked == (if year >= FIRST_YEAR {
            Ok::<u32, OutOfRange>(year)
        } else {
            Err::<u32, OutOfRange>(OutOfRange)
        }),
{
    if year >= FIRST_YEAR {
        Ok(year)
    } else {
        Err(OutOfRange)
    }
}

/// Accepts the number of a month, from 1 to 12.
pub fn month_in_range(month: u32) -> (checked: Result<u32, OutOfRange>)
    ensures
        checked == (if 1 <= month <= MONTHS {
            Ok::<u32, OutOfRange>(month)
        } else {
            Err::<u32, OutOfRange>(OutOfRange)
        }),
{
    if 1 <= month && month <= MONTHS {
        Ok(month)
    } else {
        Err(OutOfRange)
    }
}

/// The most hours that one day can take: `max_per_day`, cut down to the
/// length of the window from `earliest` to `latest` where it is longer.
pub open spec fn effective_max_per_day(earliest: u32, latest: u32, max_per_day: u32) -> int {
    if earliest + max_per_day <= latest {
        max_per_day as int
    } else {
        latest - earliest
    }
}

/// Fits the daily maximum into the window from `earliest` to `latest`: a
/// window that ends before it starts is refused, and a maximum that is
/// longer than the window is cut down to it.
pub fn max_per_day_in_window(earliest: u32, latest: u32, max_per_day: u32) -> (fitted: Result<
    u32,
    RequestError,
>)
    ensures
        fitted == (if latest < earliest {
            Err::<u32, RequestError>(RequestError::EarliestAfterLatest)
        } else {
            Ok::<u32, RequestError>(
                effective_max_per_day(earliest, latest, max_per_day) as u32,
            )
        }),
        fitted matches Ok(max) ==> max <= max_per_day && earliest + max <= latest,
{
    if latest < earliest {
        Err(RequestError::EarliestAfterLatest)
    } else if earliest as u64 + max_per_day as u64 <= latest as u64 {
        Ok(max_per_day)
    } else {
        Ok(latest - earliest)
    }
}

/// What [`plan`] answers to a request.
pub open spec fn planned(hours: u32, days: u32, earliest: u32, latest: u32, max_per_day: u32)
    -> Result<Parameters, RequestError> {
    let max = effective_max_per_day(earliest, latest, max_per_day) as u32;
    if latest < earliest {
        Err(RequestError::EarliestAfterLatest)
    } else if days * max < hours {
        Err(RequestError::TooManyHours { hours, days, max_per_day: max })
    } else {
        Ok(Parameters { hours, days, from: earliest, to: latest, max_per_day: max })
    }
}

/// Checks a request for `hours` hours on `days` working days, each interval
/// inside the window from `earliest` to `latest` and at most `max_per_day`
/// hours long. The maximum is first fitted into the window. Hours that do
/// not fit into the days at that maximum are refused: nothing is generated
/// for them. A request that passes and whose capacity fits in a `u32` is
/// one that [`generate_times`](crate::generate::generate_times) takes.
pub fn plan(hours: u32, days: u32, earliest: u32, latest: u32, max_per_day: u32) -> (answer:
    Result<Parameters, RequestError>)
    ensures
        answer == planned(hours, days, earliest, latest, max_per_day),
        days * effective_max_per_day(earliest, latest, max_per_day) < hours ==> answer is Err,
        answer matches Ok(parameters) ==> (parameters.capacity() <= u32::MAX
            ==> parameters.feasible()),
{
    let max: u32 = match max_per_day_in_window(earliest, latest, max_per_day) {
        Ok(max) => max,
        Err(refusal) => {
            return Err(refusal);
        },
    };
    proof {
        assert(days * max <= 0xffff_ffff * 0xffff_ffff) by (nonlinear_arith)
            requires
                days <= 0xffff_ffff,
                max <= 0xffff_ffff,
        ;
    }
    if (days as u64 * max as u64) < hours as u64 {
        return Err(RequestError::TooManyHours { hours, days, max_per_day: max });
    }
    Ok(Parameters { hours, days, from: earliest, to: latest, max_per_day: max })
}

} // verus!
