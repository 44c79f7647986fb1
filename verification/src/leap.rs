//! Leap years of the Gregorian calendar.

use vstd::prelude::*;

verus! {

/// Whether `year` has 366 days: every fourth year does, except those
/// centuries that are no multiple of 400.
pub open spec fn leap(year: nat) -> bool {
    year % 4 == 0 && (year % 100 != 0 || year % 400 == 0)
}

pub fn is_leap_year(year: u64) -> (is_leap: bool)
    ensures
        is_leap == leap(year as nat),
{
    year % 400 == 0 || (year % 4 == 0 && year % 100 != 0)
}

} // verus!
