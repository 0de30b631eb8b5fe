use crate::common::{fixed_in_range, RD};
use vstd::prelude::*;

verus! {

/// Fixed day of modified Julian day 0 (17 November 1858).
pub const MODIFIED_EPOCH: RD = 678576;

/// Fixed day of a modified Julian day number.
pub fn fixed_from_mjd(day: i32) -> (r: RD)
    requires
        fixed_in_range(day as int),
    ensures
        r == day + MODIFIED_EPOCH,
{
    day + MODIFIED_EPOCH
}

/// Modified Julian day number of a fixed day.
pub fn mjd_from_fixed(date: RD) -> (r: i32)
    requires
        fixed_in_range(date as int),
    ensures
        r == date - MODIFIED_EPOCH,
{
    date - MODIFIED_EPOCH
}

} // verus!
