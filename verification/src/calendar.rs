use vstd::prelude::*;

verus! {

#[verifier::external_type_specification]
#[verifier::external_body]
pub struct ExDate(world_magnetic_model::time::Date);

/// A leap year of the proleptic Gregorian calendar.
pub open spec fn is_leap_year(year: int) -> bool {
    year % 4 == 0 && (year % 100 != 0 || year % 400 == 0)
}

/// The days that `year` has: 366 in a leap year, 365 otherwise.
pub open spec fn days_in_year(year: int) -> int {
    if is_leap_year(year) {
        366
    } else {
        365
    }
}

/// The date that is day `ordinal` (counted from 1) of `year`.
pub uninterp spec fn date_of(year: i32, ordinal: u16) -> world_magnetic_model::time::Date;

/// Calls `time::Date::from_ordinal_date` (as `world_magnetic_model::time`
/// re-exports it): a date when `ordinal` is a day of `year` (1 up to 365, or
/// 366 in a leap year) and the year is within the crate's range. That range is
/// `-9999 ..= 9999`, or wider when the crate is built with its `large-dates`
/// feature, so of a year outside `-9999 ..= 9999` nothing is stated whether a
/// date comes back. The date is built from `year` and `ordinal` alone, so it
/// is named by them.
#[verifier::external_body]
fn ordinal_date(year: i32, ordinal: u16) -> (r: Option<world_magnetic_model::time::Date>)
    ensures
        r is Some ==> 1 <= ordinal <= days_in_year(year as int),
        r matches Some(d) ==> d == date_of(year, ordinal),
        -9999 <= year <= 9999 && 1 <= ordinal <= days_in_year(year as int) ==> r is Some,
{
    world_magnetic_model::time::Date::from_ordinal_date(year, ordinal).ok()
}

/// The calendar date that selects the magnetic model: day `day_of_year`
/// (counted from 1) of `year`; nothing when that is no day of the year.
pub fn model_date(year: i32, day_of_year: u16) -> (r: Option<world_magnetic_model::time::Date>)
    ensures
        r is Some ==> 1 <= day_of_year <= days_in_year(year as int),
        r matches Some(d) ==> d == date_of(year, day_of_year),
        -9999 <= year <= 9999 && 1 <= day_of_year <= days_in_year(year as int) ==> r is Some,
{
    ordinal_date(year, day_of_year)
}

} // verus!
