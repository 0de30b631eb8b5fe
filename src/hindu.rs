use crate::common::{fixed_in_range, floor_div_wide, year_in_range, RD};
use vstd::arithmetic::div_mod::{lemma_fundamental_div_mod, lemma_fundamental_div_mod_converse, lemma_mod_bound};
use vstd::prelude::*;

verus! {

/// Fixed day of the start of the Kali Yuga (18 February 3102 BCE, Julian).
pub const EPOCH: RD = -1132959;

/// The unit in which the mean motions are exact integers: a day is `UNIT`
/// units, so a quarter day, the mean solar month, the mean lunar month and
/// the lunar day are whole numbers of units.
pub const UNIT: i128 = 15388800768;

/// Mean sidereal year of 1577917500/4320000 days, in units.
pub const ARYA_SOLAR_YEAR: i128 = 5620893063852;

/// Mean solar month, a twelfth of the year, in units.
pub const ARYA_SOLAR_MONTH: i128 = 468407755321;

/// Mean synodic month of 1577917500/53433336 days, in units.
pub const ARYA_LUNAR_MONTH: i128 = 454440240000;

/// Lunar day, a thirtieth of the lunar month, in units.
pub const ARYA_LUNAR_DAY: i128 = 15148008000;

/// A date of the mean Hindu solar calendar.
#[derive(Clone, Copy, Debug, PartialEq, Eq, Structural)]
pub struct HinduSolar {
    pub year: i32,
    pub month: i32,
    pub day: i32,
}

/// A date of the mean Hindu lunisolar calendar; `leap_month` marks the
/// intercalated month that precedes the ordinary month of the same number.
#[derive(Clone, Copy, Debug, PartialEq, Eq, Structural)]
pub struct HinduLunisolar {
    pub year: i32,
    pub month: i32,
    pub leap_month: bool,
    pub day: i32,
}

/// Days elapsed since the epoch.
pub fn hindu_day_count(date: RD) -> (r: i32)
    requires
        fixed_in_range(date as int),
    ensures
        r == date - EPOCH,
{
    date - EPOCH
}

/// The year of the 60-year Jovian cycle, from 1, of a fixed day: elapsed
/// twelfths of the Jovian period of 1577917500/364224 days.
pub open spec fn jovian_year_spec(date: int) -> int {
    ((date - EPOCH) * 4370688 / 1577917500) % 60 + 1
}

/// Position of a fixed day in the 60-year Jovian cycle.
pub fn jovian_year(date: RD) -> (r: i32)
    requires
        fixed_in_range(date as int),
    ensures
        r == jovian_year_spec(date as int),
        1 <= r <= 60,
{
    let periods = floor_div_wide(hindu_day_count(date) as i128 * 4370688, 1577917500);
    let cycle = periods - 60 * floor_div_wide(periods, 60);
    proof {
        lemma_fundamental_div_mod(periods as int, 60);
        lemma_mod_bound(periods as int, 60);
    }
    cycle as i32 + 1
}

/// Fixed day of a solar date: the day on which the mean sun, with the
/// sunrise quarter day, reaches the date's position.
pub open spec fn fixed_from_hindu_solar_spec(year: int, month: int, day: int) -> int {
    let units = EPOCH * (UNIT as int) + year * (ARYA_SOLAR_YEAR as int) + (month - 1) * (ARYA_SOLAR_MONTH as int) + day * (UNIT as int)
        - 5 * (UNIT / 4);
    -((-units) / (UNIT as int))
}

/// Solar year, month and day of a fixed day, from the position of the mean
/// sun at sunrise.
pub open spec fn hindu_solar_from_fixed_spec(date: int) -> (int, int, int) {
    let sun = (date - EPOCH) * (UNIT as int) + (UNIT as int) / 4;
    let year = sun / (ARYA_SOLAR_YEAR as int);
    let in_year = sun % (ARYA_SOLAR_YEAR as int);
    let month = in_year / (ARYA_SOLAR_MONTH as int);
    let in_month = in_year % (ARYA_SOLAR_MONTH as int);
    (year, month + 1, in_month / (UNIT as int) + 1)
}

/// Solar dates whose fields stay in the ranges the formulas accept.
pub open spec fn hindu_solar_in_range(date: HinduSolar) -> bool {
    year_in_range(date.year as int) && 1 <= date.month <= 12 && 1 <= date.day <= 32
}

/// Fixed day of a Hindu solar date.
pub fn fixed_from_hindu_solar(date: HinduSolar) -> (r: RD)
    requires
        hindu_solar_in_range(date),
    ensures
        r == fixed_from_hindu_solar_spec(date.year as int, date.month as int, date.day as int),
{
    let units: i128 = EPOCH as i128 * UNIT + date.year as i128 * ARYA_SOLAR_YEAR + (date.month as i128
        - 1) * ARYA_SOLAR_MONTH + date.day as i128 * UNIT - 5 * (UNIT / 4);
    (-floor_div_wide(-units, UNIT)) as i32
}

/// The Hindu solar date of a fixed day.
pub fn hindu_solar_from_fixed(date: RD) -> (r: HinduSolar)
    requires
        fixed_in_range(date as int),
    ensures
        (r.year as int, r.month as int, r.day as int) == hindu_solar_from_fixed_spec(date as int),
        1 <= r.month <= 12,
        1 <= r.day <= 31,
        fixed_from_hindu_solar_spec(r.year as int, r.month as int, r.day as int) == date,
{
    proof {
        lemma_hindu_solar_inverse_round_trip(date as int);
    }
    let sun: i128 = hindu_day_count(date) as i128 * UNIT + UNIT / 4;
    let year = floor_div_wide(sun, ARYA_SOLAR_YEAR);
    let in_year = sun - year * ARYA_SOLAR_YEAR;
    let month = floor_div_wide(in_year, ARYA_SOLAR_MONTH);
    let in_month = in_year - month * ARYA_SOLAR_MONTH;
    proof {
        lemma_fundamental_div_mod(sun as int, ARYA_SOLAR_YEAR as int);
        lemma_mod_bound(sun as int, ARYA_SOLAR_YEAR as int);
        lemma_fundamental_div_mod(in_year as int, ARYA_SOLAR_MONTH as int);
        lemma_mod_bound(in_year as int, ARYA_SOLAR_MONTH as int);
    }
    let day = floor_div_wide(in_month, UNIT);
    HinduSolar { year: year as i32, month: month as i32 + 1, day: day as i32 + 1 }
}

/// Going from a fixed day to its solar date and back gives the same fixed
/// day.
pub proof fn lemma_hindu_solar_inverse_round_trip(date: int)
    ensures
        ({
            let (y, m, d) = hindu_solar_from_fixed_spec(date);
            fixed_from_hindu_solar_spec(y, m, d) == date
        }),
{
    let sun = (date - EPOCH) * (UNIT as int) + (UNIT as int) / 4;
    lemma_fundamental_div_mod(sun, ARYA_SOLAR_YEAR as int);
    lemma_mod_bound(sun, ARYA_SOLAR_YEAR as int);
    let in_year = sun % (ARYA_SOLAR_YEAR as int);
    lemma_fundamental_div_mod(in_year, ARYA_SOLAR_MONTH as int);
    lemma_mod_bound(in_year, ARYA_SOLAR_MONTH as int);
    let in_month = in_year % (ARYA_SOLAR_MONTH as int);
    lemma_fundamental_div_mod(in_month, UNIT as int);
    lemma_mod_bound(in_month, UNIT as int);
    let (y, m, d) = hindu_solar_from_fixed_spec(date);
    let units = EPOCH * (UNIT as int) + y * (ARYA_SOLAR_YEAR as int) + (m - 1) * (ARYA_SOLAR_MONTH as int) + d * (UNIT as int) - 5 * (
    (UNIT as int) / 4);
    assert(units == (UNIT as int) * date - in_month % (UNIT as int));
    lemma_fundamental_div_mod_converse(
        -units,
        UNIT as int,
        -date,
        in_month % (UNIT as int),
    );
}

/// Fixed day of the first day of the solar month after month `month` of
/// `year`.
pub open spec fn next_hindu_solar_month_start(year: int, month: int) -> int {
    if month < 12 {
        fixed_from_hindu_solar_spec(year, month + 1, 1)
    } else {
        fixed_from_hindu_solar_spec(year + 1, 1, 1)
    }
}

/// A solar date whose day falls before the next month begins.
pub open spec fn valid_hindu_solar(year: int, month: int, day: int) -> bool {
    &&& 1 <= month <= 12
    &&& 1 <= day
    &&& fixed_from_hindu_solar_spec(year, month, day) < next_hindu_solar_month_start(year, month)
}

/// Going from a valid solar date to its fixed day and back gives the same
/// date.
pub proof fn lemma_hindu_solar_round_trip(year: int, month: int, day: int)
    requires
        valid_hindu_solar(year, month, day),
    ensures
        hindu_solar_from_fixed_spec(fixed_from_hindu_solar_spec(year, month, day)) == (
            year,
            month,
            day,
        ),
{
    let u = UNIT as int;
    let sm = ARYA_SOLAR_MONTH as int;
    let sy = ARYA_SOLAR_YEAR as int;
    let a = EPOCH * u + year * sy + (month - 1) * sm;
    let n = a + day * u - 5 * (u / 4);
    lemma_fundamental_div_mod(-n, u);
    lemma_mod_bound(-n, u);
    let f = fixed_from_hindu_solar_spec(year, month, day);
    assert((f - 1) * u < n <= f * u);
    let n2 = a + sm - u / 4;
    lemma_fundamental_div_mod(-n2, u);
    lemma_mod_bound(-n2, u);
    let next = next_hindu_solar_month_start(year, month);
    assert(next == -((-n2) / u));
    assert(next * u < n2 + u);
    let p = year * sy + (month - 1) * sm;
    let sun = (f - EPOCH) * u + u / 4;
    assert(p + (day - 1) * u <= sun < p + day * u);
    assert(sun < p + sm);
    lemma_fundamental_div_mod_converse(sun, sy, year, (month - 1) * sm + (sun - p));
    lemma_fundamental_div_mod_converse((month - 1) * sm + (sun - p), sm, month - 1, sun - p);
    lemma_fundamental_div_mod_converse(sun - p, u, day - 1, sun - p - (day - 1) * u);
}

/// `x mod m` for a positive modulus, on integers.
pub open spec fn pos_mod(x: int, m: int) -> int {
    x % m
}

/// `ceil(x / m)` for a positive divisor.
pub open spec fn ceil_div(x: int, m: int) -> int {
    -((-x) / m)
}

/// Whether a lunisolar year has a leap month: the sun enters the last solar
/// month of the year before at least 23902504679/1282400064 days after a
/// mean new moon.
pub open spec fn is_lunisolar_leap_year_spec(year: int) -> bool {
    let r = (year * (ARYA_SOLAR_YEAR as int) - (ARYA_SOLAR_MONTH as int)) % (ARYA_LUNAR_MONTH as int);
    r * 1282400064 >= 23902504679 * (UNIT as int)
}

/// Lunisolar date of a fixed day, from the mean new moon before sunrise:
/// the solar month in which that new moon falls names the lunar month, a
/// new moon early enough in its solar month that the next also falls in it
/// starts a leap month, and the lunar day counts thirtieths of the month.
pub open spec fn hindu_lunisolar_from_fixed_spec(date: int) -> (int, int, bool, int) {
    let sun = (date - EPOCH) * (UNIT as int) + (UNIT as int) / 4;
    let new_moon = sun - sun % (ARYA_LUNAR_MONTH as int);
    let offset = new_moon % (ARYA_SOLAR_MONTH as int);
    let leap_month = (ARYA_SOLAR_MONTH as int) - (ARYA_LUNAR_MONTH as int) >= offset && offset > 0;
    let month = ceil_div(new_moon, (ARYA_SOLAR_MONTH as int)) % 12 + 1;
    let day = (sun / (ARYA_LUNAR_DAY as int)) % 30 + 1;
    let year = ceil_div(new_moon + (ARYA_SOLAR_MONTH as int), (ARYA_SOLAR_YEAR as int)) - 1;
    (year, month, leap_month, day)
}

/// Fixed day of a lunisolar date: the lunar new year is the first new moon
/// after the sun enters the last solar month of the year before; months
/// are counted from it, less one for an ordinary month after the leap
/// month of the year.
pub open spec fn fixed_from_hindu_lunisolar_spec(year: int, month: int, leap_month: bool, day: int) -> int {
    let mina = (12 * year - 1) * (ARYA_SOLAR_MONTH as int);
    let lunar_new_year = (ARYA_LUNAR_MONTH as int) * (mina / (ARYA_LUNAR_MONTH as int) + 1);
    let months = if !leap_month && ceil_div(
        lunar_new_year - mina,
        (ARYA_SOLAR_MONTH as int) - (ARYA_LUNAR_MONTH as int),
    ) <= month {
        month
    } else {
        month - 1
    };
    ceil_div(
        EPOCH * (UNIT as int) + lunar_new_year + (ARYA_LUNAR_MONTH as int) * months + (day - 1) * (
        ARYA_LUNAR_DAY as int) - (UNIT as int) / 4,
        UNIT as int,
    )
}

/// Whether lunisolar year `year` has a leap month.
pub fn is_lunisolar_leap_year(year: i32) -> (r: bool)
    requires
        year_in_range(year as int),
    ensures
        r == is_lunisolar_leap_year_spec(year as int),
{
    let x: i128 = year as i128 * ARYA_SOLAR_YEAR - ARYA_SOLAR_MONTH;
    let r = mod_wide(x, ARYA_LUNAR_MONTH);
    r * 1282400064 >= 23902504679 * UNIT
}

fn ceil_div_wide(x: i128, m: i128) -> (r: i128)
    requires
        0 < m <= 1_000_000_000_000_000_000_000_000_000_000,
        -1_000_000_000_000_000_000_000_000_000_000 <= x <= 1_000_000_000_000_000_000_000_000_000_000,
    ensures
        r == ceil_div(x as int, m as int),
{
    -floor_div_wide(-x, m)
}

fn mod_wide(x: i128, m: i128) -> (r: i128)
    requires
        0 < m <= 1_000_000_000_000_000_000,
        -1_000_000_000_000_000_000_000_000_000_000 <= x <= 1_000_000_000_000_000_000_000_000_000_000,
    ensures
        r == x as int % m as int,
        0 <= r < m,
{
    proof {
        lemma_fundamental_div_mod(x as int, m as int);
        lemma_mod_bound(x as int, m as int);
    }
    x - m * floor_div_wide(x, m)
}

/// The Hindu lunisolar date of a fixed day.
pub fn hindu_lunisolar_from_fixed(date: RD) -> (r: HinduLunisolar)
    requires
        fixed_in_range(date as int),
    ensures
        (r.year as int, r.month as int, r.leap_month, r.day as int) == hindu_lunisolar_from_fixed_spec(
            date as int,
        ),
        1 <= r.month <= 12,
        1 <= r.day <= 30,
        fixed_from_hindu_lunisolar_spec(r.year as int, r.month as int, r.leap_month, r.day as int)
            == date,
{
    proof {
        lemma_hindu_lunisolar_inverse_round_trip(date as int);
    }
    let sun: i128 = hindu_day_count(date) as i128 * UNIT + UNIT / 4;
    let new_moon = sun - mod_wide(sun, ARYA_LUNAR_MONTH);
    let offset = mod_wide(new_moon, ARYA_SOLAR_MONTH);
    let leap_month = ARYA_SOLAR_MONTH - ARYA_LUNAR_MONTH >= offset && offset > 0;
    let month = mod_wide(ceil_div_wide(new_moon, ARYA_SOLAR_MONTH), 12) + 1;
    let day = mod_wide(floor_div_wide(sun, ARYA_LUNAR_DAY), 30) + 1;
    let year = ceil_div_wide(new_moon + ARYA_SOLAR_MONTH, ARYA_SOLAR_YEAR) - 1;
    proof {
        lemma_fundamental_div_mod(sun as int, ARYA_LUNAR_MONTH as int);
        lemma_mod_bound(sun as int, ARYA_LUNAR_MONTH as int);
        lemma_fundamental_div_mod(-(new_moon + ARYA_SOLAR_MONTH), ARYA_SOLAR_YEAR as int);
    }
    HinduLunisolar { year: year as i32, month: month as i32, leap_month, day: day as i32 }
}

/// Going from a fixed day to its lunisolar date and back gives the same
/// fixed day.
pub proof fn lemma_hindu_lunisolar_inverse_round_trip(date: int)
    ensures
        ({
            let (y, m, leap, d) = hindu_lunisolar_from_fixed_spec(date);
            fixed_from_hindu_lunisolar_spec(y, m, leap, d) == date
        }),
{
    let u = UNIT as int;
    let sm = ARYA_SOLAR_MONTH as int;
    let lm = ARYA_LUNAR_MONTH as int;
    let ld = ARYA_LUNAR_DAY as int;
    let sy = ARYA_SOLAR_YEAR as int;
    let sun = (date - EPOCH) * u + u / 4;
    // The new moon on or before sunrise.
    lemma_fundamental_div_mod(sun, lm);
    lemma_mod_bound(sun, lm);
    let k = sun / lm;
    let nm = sun - sun % lm;
    assert(nm == lm * k);
    // The solar month that holds it.
    lemma_fundamental_div_mod(-nm, sm);
    lemma_mod_bound(-nm, sm);
    let s = ceil_div(nm, sm);
    assert(sm * (s - 1) < nm <= sm * s);
    lemma_fundamental_div_mod(s, 12);
    lemma_mod_bound(s, 12);
    let a = s / 12;
    let b = s % 12;
    lemma_fundamental_div_mod_converse(-(nm + sm), sy, -(a + 1), sy * (a + 1) - nm - sm);
    let (year, month, leap, day) = hindu_lunisolar_from_fixed_spec(date);
    assert(year == a && month == b + 1);
    // Where in its solar month the new moon falls.
    lemma_fundamental_div_mod(nm, sm);
    lemma_mod_bound(nm, sm);
    assert(leap == (sm * (s - 1) < nm && nm + lm <= sm * s)) by {
        if nm == sm * s {
            lemma_fundamental_div_mod_converse(nm, sm, s, 0);
        } else {
            lemma_fundamental_div_mod_converse(nm, sm, s - 1, nm - sm * (s - 1));
        }
    }
    // The lunar day.
    let r = sun % lm;
    lemma_fundamental_div_mod(r, ld);
    lemma_mod_bound(r, ld);
    let j = r / ld;
    lemma_fundamental_div_mod_converse(sun, ld, 30 * k + j, r % ld);
    lemma_fundamental_div_mod_converse(30 * k + j, 30, k, j);
    assert(day == j + 1);
    // The lunar new year and the new moons since.
    let mina = (12 * year - 1) * sm;
    lemma_fundamental_div_mod(mina, lm);
    lemma_mod_bound(mina, lm);
    let first = mina / lm + 1;
    let lny = lm * first;
    let gap = lny - mina;
    assert(0 < gap <= lm);
    let t = k - first;
    assert(nm == lny + lm * t);
    assert(sm * (month - 1) < gap + lm * t <= sm * month);
    assert(0 <= t <= 12);
    lemma_fundamental_div_mod(-gap, sm - lm);
    lemma_mod_bound(-gap, sm - lm);
    let c = ceil_div(gap, sm - lm);
    assert((c - 1) * (sm - lm) < gap <= c * (sm - lm));
    let months = if !leap && c <= month {
        month
    } else {
        month - 1
    };
    assert(months == t);
    // Back to the day.
    let v = EPOCH * u + lny + lm * months + (day - 1) * ld - u / 4;
    assert(date * u - ld < v <= date * u);
    lemma_fundamental_div_mod_converse(-v, u, -date, date * u - v);
}

/// Whether some day bears a lunisolar date. Lunar days are shorter than
/// solar days, so now and then a lunar day begins and ends between two
/// sunrises and no day bears it.
pub open spec fn hindu_lunisolar_date_occurs(year: int, month: int, leap_month: bool, day: int) -> bool {
    exists|date: int| #[trigger] hindu_lunisolar_from_fixed_spec(date) == (year, month, leap_month, day)
}

/// Going from a lunisolar date that some day bears to its fixed day and
/// back gives the same date.
pub proof fn lemma_hindu_lunisolar_round_trip(year: int, month: int, leap_month: bool, day: int)
    requires
        hindu_lunisolar_date_occurs(year, month, leap_month, day),
    ensures
        hindu_lunisolar_from_fixed_spec(fixed_from_hindu_lunisolar_spec(year, month, leap_month, day))
            == (year, month, leap_month, day),
{
    let date = choose|date: int| #[trigger] hindu_lunisolar_from_fixed_spec(date) == (year, month, leap_month, day);
    lemma_hindu_lunisolar_inverse_round_trip(date);
}

/// Lunisolar dates whose fields stay in the ranges the formulas accept.
pub open spec fn hindu_lunisolar_in_range(date: HinduLunisolar) -> bool {
    year_in_range(date.year as int) && 1 <= date.month <= 12 && 1 <= date.day <= 30
}

/// Fixed day of a Hindu lunisolar date.
pub fn fixed_from_hindu_lunisolar(date: HinduLunisolar) -> (r: RD)
    requires
        hindu_lunisolar_in_range(date),
    ensures
        r == fixed_from_hindu_lunisolar_spec(
            date.year as int,
            date.month as int,
            date.leap_month,
            date.day as int,
        ),
{
    let mina: i128 = (12 * date.year as i128 - 1) * ARYA_SOLAR_MONTH;
    let lunar_new_year = ARYA_LUNAR_MONTH * (floor_div_wide(mina, ARYA_LUNAR_MONTH) + 1);
    proof {
        lemma_fundamental_div_mod(mina as int, ARYA_LUNAR_MONTH as int);
        lemma_mod_bound(mina as int, ARYA_LUNAR_MONTH as int);
    }
    let months: i128 = if !date.leap_month && ceil_div_wide(
        lunar_new_year - mina,
        ARYA_SOLAR_MONTH - ARYA_LUNAR_MONTH,
    ) <= date.month as i128 {
        date.month as i128
    } else {
        date.month as i128 - 1
    };
    let units = EPOCH as i128 * UNIT + lunar_new_year + ARYA_LUNAR_MONTH * months + (date.day as i128
        - 1) * ARYA_LUNAR_DAY - UNIT / 4;
    ceil_div_wide(units, UNIT) as i32
}

} // verus!
