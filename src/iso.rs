use crate::common::{alternate_divide, divide, year_in_range, RD, MAX_FIXED, MIN_FIXED};
use crate::cycles_of_days::nth_kday_spec;
use crate::gregorian::{
    fixed_from_gregorian_spec, gregorian_year_from_fixed, gregorian_year_from_fixed_spec,
    lemma_gregorian_fixed_bounds, lemma_gregorian_year_from_fixed, lemma_gregorian_year_length,
    lemma_gregorian_year_ordering,
    nth_kday, Gregorian,
};
use vstd::arithmetic::div_mod::{lemma_fundamental_div_mod, lemma_fundamental_div_mod_converse, lemma_mod_bound};
use vstd::prelude::*;

verus! {

/// Fixed day of the start of the ISO calendar.
pub const EPOCH: i32 = 1;

/// An ISO week date: a year, a week of that year and a day of the week
/// from 1 (Monday) to 7 (Sunday).
#[derive(Clone, Copy, Debug, PartialEq, Eq, Structural)]
pub struct Iso {
    pub year: i32,
    pub week: i32,
    pub day: i32,
}

/// An ISO date with week and day in range, in a supported year.
pub open spec fn valid_iso(date: Iso) -> bool {
    &&& year_in_range(date.year as int - 1)
    &&& year_in_range(date.year as int)
    &&& 1 <= date.week <= 53
    &&& 1 <= date.day <= 7
}

/// Fixed day of an ISO date: week 1 is the week whose Monday follows the
/// Sunday on or before 28 December of the year before.
pub open spec fn fixed_from_iso_spec(year: int, week: int, day: int) -> int {
    nth_kday_spec(fixed_from_gregorian_spec(year - 1, 12, 28), week, 0) + day
}

/// Fixed day of an ISO date.
pub fn fixed_from_iso(date: Iso) -> (r: RD)
    requires
        valid_iso(date),
    ensures
        r == fixed_from_iso_spec(date.year as int, date.week as int, date.day as int),
{
    proof {
        lemma_gregorian_fixed_bounds(date.year - 1, 12, 28);
    }
    nth_kday(date.week, 0, Gregorian { year: date.year - 1, month: 12, day: 28 }) + date.day
}

/// The Monday that starts week 1 of an ISO year lies between 29 December
/// and 4 January.
proof fn lemma_iso_new_year(year: int)
    ensures
        fixed_from_gregorian_spec(year - 1, 12, 28) < fixed_from_iso_spec(year, 1, 1)
            <= fixed_from_gregorian_spec(year - 1, 12, 28) + 7,
        fixed_from_gregorian_spec(year, 1, 1) == fixed_from_gregorian_spec(year - 1, 12, 28) + 4,
        fixed_from_iso_spec(year, 1, 1) % 7 == 1,
{
    let g = fixed_from_gregorian_spec(year - 1, 12, 28);
    lemma_gregorian_year_length(year - 1);
    let x = g - 1;
    lemma_fundamental_div_mod(x, 7);
    lemma_mod_bound(x, 7);
    lemma_fundamental_div_mod_converse(g - 1 - x % 7 + 8, 7, x / 7 + 1, 1);
}

/// ISO year, week and day of a fixed day.
pub open spec fn iso_from_fixed_spec(date: int) -> (int, int, int) {
    let approx = gregorian_year_from_fixed_spec(date - 3).0;
    let year = if date >= fixed_from_iso_spec(approx + 1, 1, 1) {
        approx + 1
    } else {
        approx
    };
    let week = (date - fixed_from_iso_spec(year, 1, 1)) / 7 + 1;
    let day = if date % 7 == 0 {
        7
    } else {
        date % 7
    };
    (year, week, day)
}

proof fn lemma_iso_week_arith(date: int, j0: int, j1: int, j2: int, f0: int, f1: int, f2: int)
    requires
        j0 <= date - 3 < j1,
        j1 + 365 <= j2 <= j1 + 366,
        j0 + 365 <= j1 <= j0 + 366,
        j0 - 4 < f0 <= j0 + 3,
        j1 - 4 < f1 <= j1 + 3,
        j2 - 4 < f2 <= j2 + 3,
        f0 % 7 == 1,
        f1 % 7 == 1,
        f2 % 7 == 1,
    ensures
        date >= f1 ==> 0 <= date - f1 < 371,
        date < f1 ==> 0 <= date - f0 < 371,
{
    lemma_fundamental_div_mod(f0, 7);
    lemma_fundamental_div_mod(f1, 7);
    lemma_fundamental_div_mod(f2, 7);
}

/// A fixed day's ISO date lies in its year and counts back to that day.
proof fn lemma_iso_from_fixed(date: int)
    requires
        MIN_FIXED + 3 <= date <= MAX_FIXED,
    ensures
        ({
            let (y, w, d) = iso_from_fixed_spec(date);
            &&& 1 <= w <= 53
            &&& 1 <= d <= 7
            &&& fixed_from_iso_spec(y, w, d) == date
        }),
{
    lemma_gregorian_year_from_fixed(date - 3);
    let approx = gregorian_year_from_fixed_spec(date - 3).0;
    lemma_iso_new_year(approx);
    lemma_iso_new_year(approx + 1);
    lemma_iso_new_year(approx + 2);
    lemma_gregorian_year_length(approx);
    lemma_gregorian_year_length(approx + 1);
    lemma_iso_week_arith(
        date,
        fixed_from_gregorian_spec(approx, 1, 1),
        fixed_from_gregorian_spec(approx + 1, 1, 1),
        fixed_from_gregorian_spec(approx + 2, 1, 1),
        fixed_from_iso_spec(approx, 1, 1),
        fixed_from_iso_spec(approx + 1, 1, 1),
        fixed_from_iso_spec(approx + 2, 1, 1),
    );
    let (y, w, d) = iso_from_fixed_spec(date);
    let first = fixed_from_iso_spec(y, 1, 1);
    assert(0 <= date - first < 371);
    lemma_iso_day_arith(date, first);
    let base = first - 8;
    assert(fixed_from_iso_spec(y, w, d) == base + 7 * w + d);
}

proof fn lemma_iso_day_arith(date: int, first: int)
    requires
        0 <= date - first < 371,
        first % 7 == 1,
    ensures
        ({
            let w = (date - first) / 7 + 1;
            let d = if date % 7 == 0 { 7 } else { date % 7 };
            &&& 1 <= w <= 53
            &&& 1 <= d <= 7
            &&& first + 7 * (w - 1) + d - 1 == date
        }),
{
    lemma_fundamental_div_mod(date - first, 7);
    lemma_mod_bound(date - first, 7);
    lemma_fundamental_div_mod(date, 7);
    lemma_mod_bound(date, 7);
    lemma_fundamental_div_mod(first, 7);
}

/// Going from a fixed day to its ISO date and back gives the same fixed
/// day.
pub proof fn lemma_iso_inverse_round_trip(date: int)
    requires
        MIN_FIXED + 3 <= date <= MAX_FIXED,
    ensures
        ({
            let (y, w, d) = iso_from_fixed_spec(date);
            fixed_from_iso_spec(y, w, d) == date
        }),
{
    lemma_iso_from_fixed(date);
}

/// Going from an ISO date whose week exists in its year to its fixed day
/// and back gives the same date.
pub proof fn lemma_iso_round_trip(date: Iso)
    requires
        valid_iso(date),
        fixed_from_iso_spec(date.year as int, date.week as int, date.day as int)
            < fixed_from_iso_spec(date.year + 1, 1, 1),
    ensures
        iso_from_fixed_spec(fixed_from_iso_spec(date.year as int, date.week as int, date.day as int))
            == (date.year as int, date.week as int, date.day as int),
{
    let y = date.year as int;
    let w = date.week as int;
    let d = date.day as int;
    let f = fixed_from_iso_spec(y, w, d);
    let first = fixed_from_iso_spec(y, 1, 1);
    lemma_iso_new_year(y);
    assert(f == first + 7 * (w - 1) + d - 1);
    lemma_iso_approx_year(y, f);
    let approx = gregorian_year_from_fixed_spec(f - 3).0;
    let fa1 = fixed_from_iso_spec(approx + 1, 1, 1);
    let year = if f >= fa1 {
        approx + 1
    } else {
        approx
    };
    assert(year == y);
    lemma_iso_week_day(f, first, w, d);
}

proof fn lemma_iso_week_day(f: int, first: int, w: int, d: int)
    requires
        f == first + 7 * (w - 1) + d - 1,
        first % 7 == 1,
        1 <= d <= 7,
    ensures
        (f - first) / 7 + 1 == w,
        (if f % 7 == 0 { 7 } else { f % 7 }) == d,
{
    lemma_fundamental_div_mod_converse(f - first, 7, w - 1, d - 1);
    lemma_fundamental_div_mod(first, 7);
    lemma_fundamental_div_mod_converse(f, 7, first / 7 + w - 1 + d / 7, d % 7);
}

/// A day of ISO year `year` lies in the Gregorian year of three days
/// before it or in the next one.
proof fn lemma_iso_approx_year(year: int, date: int)
    requires
        fixed_from_iso_spec(year, 1, 1) <= date < fixed_from_iso_spec(year + 1, 1, 1),
    ensures
        gregorian_year_from_fixed_spec(date - 3).0 == year || gregorian_year_from_fixed_spec(date - 3).0
            == year - 1,
{
    lemma_iso_new_year(year);
    lemma_iso_new_year(year + 1);
    lemma_gregorian_year_from_fixed(date - 3);
    let approx = gregorian_year_from_fixed_spec(date - 3).0;
    lemma_gregorian_year_length(approx);
    if approx > year {
        lemma_gregorian_year_ordering(year + 1, approx);
    } else if approx < year - 1 {
        lemma_gregorian_year_ordering(approx + 1, year);
    }
}

/// The ISO week date of a fixed day.
pub fn iso_from_fixed(date: RD) -> (r: Iso)
    requires
        MIN_FIXED + 3 <= date <= MAX_FIXED,
    ensures
        (r.year as int, r.week as int, r.day as int) == iso_from_fixed_spec(date as int),
        valid_iso(r),
        fixed_from_iso_spec(r.year as int, r.week as int, r.day as int) == date,
{
    proof {
        lemma_iso_from_fixed(date as int);
    }
    let approx = gregorian_year_from_fixed(date - 3).0;
    let year = if date >= fixed_from_iso(Iso { year: approx + 1, week: 1, day: 1 }) {
        approx + 1
    } else {
        approx
    };
    let week = divide(date - fixed_from_iso(Iso { year, week: 1, day: 1 }), 7).0 + 1;
    let day = alternate_divide(date, 7).1;
    Iso { year, week, day }
}

} // verus!
