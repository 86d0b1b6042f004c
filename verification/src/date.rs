use chrono::{Datelike, Days, NaiveDate};
use vstd::prelude::*;

verus! {

/// Dates are day numbers in the proleptic Gregorian calendar, January 1 of year 1
/// being day 1 (chrono's `num_days_from_ce`). This is the first day chrono can
/// represent: January 1, 262144 BCE (`NaiveDate::MIN`).
pub const FIRST_DAY: i32 = -95746129;

/// The last day chrono can represent: December 31, 262142 CE (`NaiveDate::MAX`).
pub const LAST_DAY: i32 = 95745399;

/// A day number that chrono can turn into a date.
pub open spec fn is_day(d: int) -> bool {
    FIRST_DAY <= d <= LAST_DAY
}

/// Calls chrono: `NaiveDate::from_num_days_from_ce_opt`, then `NaiveDate::checked_add_days`,
/// and reads the day number back with `Datelike::num_days_from_ce`.
/// Claimed: a returned day is `days` days after `day`, and a result comes back whenever
/// both the start and the end lie in chrono's range.
#[verifier::external_body]
fn chrono_days_after(day: i32, days: u32) -> (r: Option<i32>)
    ensures
        r matches Some(d) ==> d == day + days,
        is_day(day as int) && is_day(day + days) ==> r is Some,
{
    let date = NaiveDate::from_num_days_from_ce_opt(day)?;
    let later = date.checked_add_days(Days::new(days as u64))?;
    Some(later.num_days_from_ce())
}

/// The day `days` days after `day`, computed by chrono's calendar.
pub fn days_after(day: i32, days: u32) -> (r: i32)
    requires
        is_day(day as int),
        is_day(day + days),
    ensures
        r == day + days,
{
    match chrono_days_after(day, days) {
        Some(d) => d,
        None => {
            proof {
                assert(false);
            }
            day
        },
    }
}

} // verus!
