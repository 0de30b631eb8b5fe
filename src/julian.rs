use crate::common::{divide, fixed_in_range, option_int, year_in_range, RD};
use crate::gregorian::{fixed_from_gregorian, fixed_from_gregorian_spec, Gregorian};
use vstd::arithmetic::div_mod::{lemma_fundamental_div_mod, lemma_fundamental_div_mod_converse, lemma_mod_bound};
use vstd::prelude::*;

verus! {

/// Fixed day of 1 January of year 1 of the Julian calendar (30 December of
/// year 0 of the Gregorian one).
pub const EPOCH: RD = -1;

/// A date of the Julian calendar. Years count 1 BCE as -1: there is no
/// year 0.
#[derive(Clone, Copy, Debug, PartialEq, Eq, Structural)]
pub struct Julian {
    pub year: i32,
    pub month: i32,
    pub day: i32,
}

/// Every fourth year is a leap year; before year 1 these are -1, -5, ...
pub open spec fn is_julian_leap_year_spec(year: int) -> bool {
    year % 4 == if year > 0 {
        0int
    } else {
        3int
    }
}

/// Number of days in a month of a Julian year.
pub open spec fn last_day_of_julian_month(year: int, month: int) -> int {
    if month == 2 {
        if is_julian_leap_year_spec(year) {
            29
        } else {
            28
        }
    } else if month == 4 || month == 6 || month == 9 || month == 11 {
        30
    } else {
        31
    }
}

/// A Julian date whose year, month and day exist, in a supported year.
pub open spec fn valid_julian(date: Julian) -> bool {
    &&& year_in_range(date.year as int)
    &&& date.year != 0
    &&& 1 <= date.month <= 12
    &&& 1 <= date.day <= last_day_of_julian_month(date.year as int, date.month as int)
}

/// Fixed day of a Julian date.
pub open spec fn fixed_from_julian_spec(year: int, month: int, day: int) -> int {
    let y = if year < 0 {
        year + 1
    } else {
        year
    };
    EPOCH - 1 + 365 * (y - 1) + (y - 1) / 4 + (367 * month - 362) / 12 - (if month <= 2 {
        0int
    } else if is_julian_leap_year_spec(year) {
        1int
    } else {
        2int
    }) + day
}

/// Whether `year` is a Julian leap year.
pub fn is_julian_leap_year(year: i32) -> (r: bool)
    ensures
        r == is_julian_leap_year_spec(year as int),
{
    divide(year, 4).1 == if year > 0 {
        0
    } else {
        3
    }
}

/// Bounds under which the Julian formulas stay inside `i32`.
pub open spec fn julian_parts_in_range(year: int, month: int, day: int) -> bool {
    year_in_range(year) && 1 <= month <= 13 && -1000 <= day <= 1000
}

pub(crate) fn fixed_from_julian_parts(year: i32, month: i32, day: i32) -> (r: RD)
    requires
        julian_parts_in_range(year as int, month as int, day as int),
    ensures
        r == fixed_from_julian_spec(year as int, month as int, day as int),
        -120_000_000 <= r <= 120_000_000,
{
    let y = if year < 0 {
        year + 1
    } else {
        year
    };
    EPOCH - 1 + 365 * (y - 1) + divide(y - 1, 4).0 + divide(367 * month - 362, 12).0 - if month
        <= 2 {
        0
    } else if is_julian_leap_year(year) {
        1
    } else {
        2
    } + day
}

/// Fixed day of a Julian date.
pub fn fixed_from_julian(date: Julian) -> (r: RD)
    requires
        valid_julian(date),
    ensures
        r == fixed_from_julian_spec(date.year as int, date.month as int, date.day as int),
{
    fixed_from_julian_parts(date.year, date.month, date.day)
}

/// Julian year of a fixed day, from the mean year of 1461/4 days.
pub open spec fn julian_year_from_fixed_spec(date: int) -> int {
    let approx = (4 * (date - EPOCH) + 1464) / 1461;
    if approx <= 0 {
        approx - 1
    } else {
        approx
    }
}

/// Year, month and day of a fixed day in the Julian calendar.
pub open spec fn julian_from_fixed_spec(date: int) -> (int, int, int) {
    let year = julian_year_from_fixed_spec(date);
    let prior_days = date - fixed_from_julian_spec(year, 1, 1);
    let correction = if date < fixed_from_julian_spec(year, 3, 1) {
        0
    } else if is_julian_leap_year_spec(year) {
        1int
    } else {
        2int
    };
    let month = (12 * (prior_days + correction) + 373) / 367;
    (year, month, date - fixed_from_julian_spec(year, month, 1) + 1)
}

/// Number of days in a Julian year.
pub open spec fn days_in_julian_year(year: int) -> int {
    if is_julian_leap_year_spec(year) {
        366
    } else {
        365
    }
}

/// Days of the months before `month` of a Julian year.
pub open spec fn days_before_julian_month(year: int, month: int) -> int {
    (367 * month - 362) / 12 - if month <= 2 {
        0int
    } else if is_julian_leap_year_spec(year) {
        1int
    } else {
        2int
    }
}

/// The year found for a fixed day contains it.
proof fn lemma_julian_year_from_fixed(date: int)
    ensures
        ({
            let year = julian_year_from_fixed_spec(date);
            &&& year != 0
            &&& 0 <= date - fixed_from_julian_spec(year, 1, 1) < days_in_julian_year(year)
        }),
{
    let x = 4 * (date - EPOCH) + 1464;
    lemma_fundamental_div_mod(x, 1461);
    lemma_mod_bound(x, 1461);
    let approx = x / 1461;
    lemma_fundamental_div_mod(approx - 1, 4);
    lemma_mod_bound(approx - 1, 4);
    let year = julian_year_from_fixed_spec(date);
    lemma_fundamental_div_mod(year, 4);
    lemma_mod_bound(year, 4);
}

/// Counting the days of a valid date from its new year lands back on its
/// year.
proof fn lemma_julian_year_from_ordinal(year: int, ordinal: int)
    requires
        year != 0,
        0 <= ordinal < days_in_julian_year(year),
    ensures
        julian_year_from_fixed_spec(fixed_from_julian_spec(year, 1, 1) + ordinal) == year,
{
    let y = if year < 0 {
        year + 1
    } else {
        year
    };
    lemma_fundamental_div_mod(y - 1, 4);
    lemma_mod_bound(y - 1, 4);
    lemma_fundamental_div_mod(year, 4);
    lemma_mod_bound(year, 4);
    let q = (y - 1) / 4;
    let e = (y - 1) % 4;
    let date = fixed_from_julian_spec(year, 1, 1) + ordinal;
    assert(date == 1461 * q + 365 * e - 1 + ordinal);
    lemma_fundamental_div_mod_converse(4 * (date - EPOCH) + 1464, 1461, y, 4 * ordinal + 3 - e);
}

proof fn lemma_julian_month_from_ordinal(year: int, ordinal: int)
    requires
        1 <= ordinal <= days_in_julian_year(year),
    ensures
        ({
            let correction = if ordinal - 1 < days_before_julian_month(year, 3) {
                0
            } else if is_julian_leap_year_spec(year) {
                1int
            } else {
                2int
            };
            let m = (12 * (ordinal - 1 + correction) + 373) / 367;
            &&& 1 <= m <= 12
            &&& days_before_julian_month(year, m) < ordinal
            &&& ordinal <= days_before_julian_month(year, m) + last_day_of_julian_month(year, m)
        }),
{
}

/// A fixed day's Julian date exists and counts back to that day.
proof fn lemma_julian_from_fixed(date: int)
    ensures
        ({
            let (y, m, d) = julian_from_fixed_spec(date);
            &&& y != 0
            &&& 1 <= m <= 12
            &&& 1 <= d <= last_day_of_julian_month(y, m)
            &&& fixed_from_julian_spec(y, m, d) == date
        }),
{
    lemma_julian_year_from_fixed(date);
    let year = julian_year_from_fixed_spec(date);
    let ordinal = date - fixed_from_julian_spec(year, 1, 1) + 1;
    lemma_julian_month_from_ordinal(year, ordinal);
}

/// Going from a valid Julian date to its fixed day and back gives the same
/// date.
pub proof fn lemma_julian_round_trip(date: Julian)
    requires
        valid_julian(date),
    ensures
        julian_from_fixed_spec(
            fixed_from_julian_spec(date.year as int, date.month as int, date.day as int),
        ) == (date.year as int, date.month as int, date.day as int),
{
    let year = date.year as int;
    let m = date.month as int;
    let ordinal = days_before_julian_month(year, m) + date.day;
    assert(1 <= ordinal <= days_in_julian_year(year)) by {
        assert(m == 1 || m == 2 || m == 3 || m == 4 || m == 5 || m == 6 || m == 7 || m == 8 || m
            == 9 || m == 10 || m == 11 || m == 12);
    }
    lemma_julian_year_from_ordinal(year, ordinal - 1);
    lemma_julian_month_from_ordinal(year, ordinal);
    assert(julian_from_fixed_spec(
        fixed_from_julian_spec(year, m, date.day as int),
    ).1 == m) by {
        assert(m == 1 || m == 2 || m == 3 || m == 4 || m == 5 || m == 6 || m == 7 || m == 8 || m
            == 9 || m == 10 || m == 11 || m == 12);
    }
}

/// Going from a fixed day to its Julian date and back gives the same fixed
/// day.
pub proof fn lemma_julian_inverse_round_trip(date: int)
    ensures
        ({
            let (y, m, d) = julian_from_fixed_spec(date);
            fixed_from_julian_spec(y, m, d) == date
        }),
{
    lemma_julian_from_fixed(date);
}

/// The month after `month` of `year`, and its year: there is no year 0.
pub open spec fn next_julian_month(year: int, month: int) -> (int, int) {
    if month < 12 {
        (year, month + 1)
    } else if year == -1 {
        (1, 1)
    } else {
        (year + 1, 1)
    }
}

/// Each month starts where the one before it ends.
pub proof fn lemma_julian_next_month(year: int, month: int)
    requires
        year != 0,
        1 <= month <= 12,
    ensures
        ({
            let (ny, nm) = next_julian_month(year, month);
            fixed_from_julian_spec(ny, nm, 1) == fixed_from_julian_spec(year, month, 1)
                + last_day_of_julian_month(year, month)
        }),
{
    if month == 12 {
        let y = if year < 0 {
            year + 1
        } else {
            year
        };
        lemma_fundamental_div_mod(y, 4);
        lemma_mod_bound(y, 4);
        lemma_fundamental_div_mod(y - 1, 4);
        lemma_mod_bound(y - 1, 4);
        lemma_fundamental_div_mod(year, 4);
        lemma_mod_bound(year, 4);
    } else {
        assert(month == 1 || month == 2 || month == 3 || month == 4 || month == 5 || month == 6
            || month == 7 || month == 8 || month == 9 || month == 10 || month == 11);
    }
}

/// The Julian date of a fixed day.
pub fn julian_from_fixed(rd: RD) -> (r: Julian)
    requires
        fixed_in_range(rd as int),
    ensures
        (r.year as int, r.month as int, r.day as int) == julian_from_fixed_spec(rd as int),
        valid_julian(r),
        fixed_from_julian_spec(r.year as int, r.month as int, r.day as int) == rd,
{
    proof {
        lemma_julian_from_fixed(rd as int);
    }
    let approx = divide(4 * (rd - EPOCH) + 1464, 1461).0;
    let year = if approx <= 0 {
        approx - 1
    } else {
        approx
    };
    let prior_days = rd - fixed_from_julian_parts(year, 1, 1);
    let correction = if rd < fixed_from_julian_parts(year, 3, 1) {
        0
    } else if is_julian_leap_year(year) {
        1
    } else {
        2
    };
    let month = divide(12 * (prior_days + correction) + 373, 367).0;
    let day = rd - fixed_from_julian_parts(year, month, 1) + 1;
    Julian { year, month, day }
}

/// The fixed day of Julian month `month`, day `day`, in the Julian year
/// that begins in Gregorian year `gregorian_year` or in the next one,
/// whichever falls inside the Gregorian year; the first of the two if both
/// do, and `None` if neither does.
pub open spec fn julian_in_gregorian_spec(month: int, day: int, gregorian_year: int) -> Option<int> {
    let jan1 = fixed_from_gregorian_spec(gregorian_year, 1, 1);
    let dec31 = fixed_from_gregorian_spec(gregorian_year, 12, 31);
    let y = julian_from_fixed_spec(jan1).0;
    let next = if y == -1 {
        1
    } else {
        y + 1
    };
    let first = fixed_from_julian_spec(y, month, day);
    let second = fixed_from_julian_spec(next, month, day);
    if jan1 <= first <= dec31 {
        Some(first)
    } else if jan1 <= second <= dec31 {
        Some(second)
    } else {
        None
    }
}

/// The fixed day, within Gregorian year `gregorian_year`, of Julian month
/// `month`, day `day`, if that Julian date falls in it.
pub fn julian_in_gregorian(month: i32, day: i32, gregorian_year: i32) -> (r: Option<RD>)
    requires
        year_in_range(gregorian_year as int),
        fixed_in_range(fixed_from_gregorian_spec(gregorian_year as int, 1, 1)),
        1 <= month <= 12,
        1 <= day <= 31,
    ensures
        option_int(r) == julian_in_gregorian_spec(month as int, day as int, gregorian_year as int),
{
    let jan1 = fixed_from_gregorian(Gregorian { year: gregorian_year, month: 1, day: 1 });
    let dec31 = fixed_from_gregorian(Gregorian { year: gregorian_year, month: 12, day: 31 });
    let y = julian_from_fixed(jan1).year;
    let adjusted_y = if y == -1 {
        1
    } else {
        y + 1
    };
    let first = fixed_from_julian_parts(y, month, day);
    let second = fixed_from_julian_parts(adjusted_y, month, day);
    if jan1 <= first && first <= dec31 {
        Some(first)
    } else if jan1 <= second && second <= dec31 {
        Some(second)
    } else {
        None
    }
}

} // verus!
