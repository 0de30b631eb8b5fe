use crate::common::{divide, year_in_range, RD};
use crate::cycles_of_days::{day_of_week, kday_after, kday_on_or_before_spec};
use crate::gregorian::{fixed_from_gregorian, fixed_from_gregorian_spec, Gregorian};
use crate::julian::{fixed_from_julian, fixed_from_julian_spec, Julian};
use vstd::prelude::*;

verus! {

/// The Sunday strictly after a day.
pub open spec fn sunday_after(date: int) -> int {
    kday_on_or_before_spec(date + 7, 0)
}

/// Paschal full moon of the Orthodox reckoning: 19 April (Julian) moved
/// back by the shifted epact of the year's place in the 19-year cycle.
pub open spec fn orthodox_paschal_moon(gregorian_year: int) -> int {
    let shifted_epact = (14 + 11 * (gregorian_year % 19)) % 30;
    let julian_year = if gregorian_year > 0 {
        gregorian_year
    } else {
        gregorian_year - 1
    };
    fixed_from_julian_spec(julian_year, 4, 19) - shifted_epact
}

/// Paschal full moon of the Orthodox reckoning, in closed form.
pub open spec fn alt_orthodox_paschal_moon(gregorian_year: int) -> int {
    354 * gregorian_year + 30 * ((7 * gregorian_year + 8) / 19) + gregorian_year / 4
        - gregorian_year / 19 - 272
}

/// Epact of the Gregorian reckoning, with the solar and lunar corrections
/// of the century.
pub open spec fn gregorian_shifted_epact(gregorian_year: int) -> int {
    let century = gregorian_year / 100 + 1;
    (14 + 11 * (gregorian_year % 19) - (3 * century) / 4 + (5 + 8 * century) / 25) % 30
}

/// Paschal full moon of the Gregorian reckoning: 19 April moved back by the
/// epact, which is first raised by one where it is 0, or 1 late in the
/// 19-year cycle.
pub open spec fn paschal_moon(gregorian_year: int) -> int {
    let shifted_epact = gregorian_shifted_epact(gregorian_year);
    let adjusted_epact = if shifted_epact == 0 || (shifted_epact == 1 && 10 < gregorian_year % 19) {
        shifted_epact + 1
    } else {
        shifted_epact
    };
    fixed_from_gregorian_spec(gregorian_year, 4, 19) - adjusted_epact
}

/// Orthodox Easter of a Gregorian year: the Sunday after the paschal full
/// moon of the Julian reckoning.
pub fn orthodox_easter(gregorian_year: i32) -> (r: RD)
    requires
        year_in_range(gregorian_year as int),
        year_in_range(gregorian_year - 1),
    ensures
        r == sunday_after(orthodox_paschal_moon(gregorian_year as int)),
        day_of_week(r as int) == 0,
        orthodox_paschal_moon(gregorian_year as int) < r <= orthodox_paschal_moon(
            gregorian_year as int,
        ) + 7,
{
    let shifted_epact = divide(14 + 11 * divide(gregorian_year, 19).1, 30).1;
    let julian_year = if gregorian_year > 0 {
        gregorian_year
    } else {
        gregorian_year - 1
    };
    let paschal_moon = fixed_from_julian(Julian { year: julian_year, month: 4, day: 19 })
        - shifted_epact;
    kday_after(paschal_moon, 0)
}

/// Orthodox Easter of a Gregorian year, from the closed-form paschal moon.
pub fn alt_orthodox_easter(gregorian_year: i32) -> (r: RD)
    requires
        year_in_range(gregorian_year as int),
    ensures
        r == sunday_after(alt_orthodox_paschal_moon(gregorian_year as int)),
        day_of_week(r as int) == 0,
        alt_orthodox_paschal_moon(gregorian_year as int) < r <= alt_orthodox_paschal_moon(
            gregorian_year as int,
        ) + 7,
{
    let paschal_moon = 354 * gregorian_year + 30 * divide(7 * gregorian_year + 8, 19).0 + divide(
        gregorian_year,
        4,
    ).0 - divide(gregorian_year, 19).0 - 272;
    kday_after(paschal_moon, 0)
}

/// Western Easter of a Gregorian year: the Sunday after the paschal full
/// moon of the Gregorian reckoning.
pub fn easter(gregorian_year: i32) -> (r: RD)
    requires
        year_in_range(gregorian_year as int),
    ensures
        r == sunday_after(paschal_moon(gregorian_year as int)),
        day_of_week(r as int) == 0,
        paschal_moon(gregorian_year as int) < r <= paschal_moon(gregorian_year as int) + 7,
{
    let century = divide(gregorian_year, 100).0 + 1;
    let shifted_epact = divide(
        14 + 11 * divide(gregorian_year, 19).1 - divide(3 * century, 4).0 + divide(
            5 + 8 * century,
            25,
        ).0,
        30,
    ).1;
    let adjusted_epact = if shifted_epact == 0 || (shifted_epact == 1 && 10 < divide(
        gregorian_year,
        19,
    ).1) {
        shifted_epact + 1
    } else {
        shifted_epact
    };
    let paschal_moon = fixed_from_gregorian(Gregorian { year: gregorian_year, month: 4, day: 19 })
        - adjusted_epact;
    kday_after(paschal_moon, 0)
}

} // verus!
