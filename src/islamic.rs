use crate::common::{divide, fixed_in_range, keep_in_range, push_in_range, seq_int, year_in_range, RD};
use crate::gregorian::{fixed_from_gregorian, fixed_from_gregorian_spec, Gregorian};
use vstd::arithmetic::div_mod::{lemma_fundamental_div_mod, lemma_fundamental_div_mod_converse, lemma_mod_bound};
use vstd::prelude::*;

verus! {

/// Fixed day of 1 Muharram of year 1.
pub const EPOCH: i32 = 227015;

/// A date of the arithmetic Islamic calendar.
#[derive(Clone, Copy, Debug, PartialEq, Eq, Structural)]
pub struct Islamic {
    pub year: i32,
    pub month: i32,
    pub day: i32,
}

/// The two rules for placing the 11 leap years of each 30-year cycle.
#[derive(Clone, Copy, Debug, PartialEq, Eq, Structural)]
pub enum IslamicConvention {
    /// Leap years 2, 5, 7, 10, 13, 16, 18, 21, 24, 26 and 29 of the cycle.
    Arithmetic,
    /// Leap years 2, 5, 7, 10, 13, 15, 18, 21, 24, 26 and 29 of the cycle.
    Birashk,
}

/// The offset that sets the leap years of a convention.
pub open spec fn leap_offset(convention: IslamicConvention) -> int {
    match convention {
        IslamicConvention::Arithmetic => 3,
        IslamicConvention::Birashk => 4,
    }
}

/// Whether a year is a leap year under a convention.
pub open spec fn is_islamic_leap_year_spec(year: int, convention: IslamicConvention) -> bool {
    (11 + leap_offset(convention) + 11 * year) % 30 < 11
}

/// Number of days of a month: 30 and 29 in turn, with a 30th day added to
/// the last month of leap years.
pub open spec fn last_day_of_islamic_month(year: int, month: int, convention: IslamicConvention) -> int {
    if month % 2 == 1 || (month == 12 && is_islamic_leap_year_spec(year, convention)) {
        30
    } else {
        29
    }
}

/// A date whose month and day exist under a convention, in a supported year.
pub open spec fn valid_islamic(date: Islamic, convention: IslamicConvention) -> bool {
    &&& year_in_range(date.year as int)
    &&& 1 <= date.month <= 12
    &&& 1 <= date.day <= last_day_of_islamic_month(date.year as int, date.month as int, convention)
}

/// Fixed day of a date under a convention.
pub open spec fn fixed_from_islamic_spec(
    year: int,
    month: int,
    day: int,
    convention: IslamicConvention,
) -> int {
    day + 29 * (month - 1) + (6 * month - 1) / 11 + (year - 1) * 354 + (leap_offset(convention) + 11
        * year) / 30 + EPOCH - 1
}

/// Year, month and day of a fixed day under a convention.
pub open spec fn islamic_from_fixed_spec(date: int, convention: IslamicConvention) -> (int, int, int) {
    let year = (30 * (date - EPOCH) + 10649 - leap_offset(convention)) / 10631;
    let prior_days = date - fixed_from_islamic_spec(year, 1, 1, convention);
    let month = (11 * prior_days + 330) / 325;
    (year, month, date - fixed_from_islamic_spec(year, month, 1, convention) + 1)
}

/// Number of days of a year under a convention.
pub open spec fn days_in_islamic_year(year: int, convention: IslamicConvention) -> int {
    if is_islamic_leap_year_spec(year, convention) {
        355
    } else {
        354
    }
}

proof fn lemma_islamic_new_year(year: int, convention: IslamicConvention)
    ensures
        ({
            let rho = (leap_offset(convention) + 11 * year) % 30;
            &&& 0 <= rho < 30
            &&& 30 * (fixed_from_islamic_spec(year, 1, 1, convention) - EPOCH) == 10631 * year - 10620
                + leap_offset(convention) - rho
            &&& is_islamic_leap_year_spec(year, convention) <==> rho >= 19
            &&& fixed_from_islamic_spec(year + 1, 1, 1, convention) == fixed_from_islamic_spec(
                year,
                1,
                1,
                convention,
            ) + days_in_islamic_year(year, convention)
        }),
{
    let c = leap_offset(convention);
    lemma_fundamental_div_mod(c + 11 * year, 30);
    lemma_mod_bound(c + 11 * year, 30);
    lemma_fundamental_div_mod(c + 11 * year + 11, 30);
    lemma_mod_bound(c + 11 * year + 11, 30);
}

proof fn lemma_islamic_month_from_ordinal(year: int, ordinal: int, convention: IslamicConvention)
    requires
        0 <= ordinal < days_in_islamic_year(year, convention),
    ensures
        ({
            let m = (11 * ordinal + 330) / 325;
            &&& 1 <= m <= 12
            &&& 29 * (m - 1) + (6 * m - 1) / 11 <= ordinal
            &&& ordinal < 29 * (m - 1) + (6 * m - 1) / 11 + last_day_of_islamic_month(year, m, convention)
        }),
{
}

/// A fixed day's date under a convention exists and counts back to that
/// day.
proof fn lemma_islamic_from_fixed(date: int, convention: IslamicConvention)
    ensures
        ({
            let (y, m, d) = islamic_from_fixed_spec(date, convention);
            &&& 1 <= m <= 12
            &&& 1 <= d <= last_day_of_islamic_month(y, m, convention)
            &&& fixed_from_islamic_spec(y, m, d, convention) == date
        }),
{
    let c = leap_offset(convention);
    let x = 30 * (date - EPOCH) + 10649 - c;
    lemma_fundamental_div_mod(x, 10631);
    lemma_mod_bound(x, 10631);
    let year = x / 10631;
    lemma_islamic_new_year(year, convention);
    let ordinal = date - fixed_from_islamic_spec(year, 1, 1, convention);
    lemma_islamic_month_from_ordinal(year, ordinal, convention);
}

/// Going from a valid date to its fixed day and back gives the same date.
pub proof fn lemma_islamic_round_trip(date: Islamic, convention: IslamicConvention)
    requires
        valid_islamic(date, convention),
    ensures
        islamic_from_fixed_spec(
            fixed_from_islamic_spec(date.year as int, date.month as int, date.day as int, convention),
            convention,
        ) == (date.year as int, date.month as int, date.day as int),
{
    let year = date.year as int;
    let m = date.month as int;
    let c = leap_offset(convention);
    lemma_islamic_new_year(year, convention);
    let rho = (c + 11 * year) % 30;
    let ordinal = 29 * (m - 1) + (6 * m - 1) / 11 + date.day - 1;
    assert(0 <= ordinal < days_in_islamic_year(year, convention)) by {
        assert(m == 1 || m == 2 || m == 3 || m == 4 || m == 5 || m == 6 || m == 7 || m == 8 || m
            == 9 || m == 10 || m == 11 || m == 12);
    }
    let f = fixed_from_islamic_spec(year, m, date.day as int, convention);
    assert(f == fixed_from_islamic_spec(year, 1, 1, convention) + ordinal);
    lemma_fundamental_div_mod_converse(30 * (f - EPOCH) + 10649 - c, 10631, year, 29 - rho + 30 * ordinal);
    lemma_islamic_month_from_ordinal(year, ordinal, convention);
    assert((11 * ordinal + 330) / 325 == m) by {
        assert(m == 1 || m == 2 || m == 3 || m == 4 || m == 5 || m == 6 || m == 7 || m == 8 || m
            == 9 || m == 10 || m == 11 || m == 12);
    }
}

/// Going from a fixed day to its date and back gives the same fixed day.
pub proof fn lemma_islamic_inverse_round_trip(date: int, convention: IslamicConvention)
    ensures
        ({
            let (y, m, d) = islamic_from_fixed_spec(date, convention);
            fixed_from_islamic_spec(y, m, d, convention) == date
        }),
{
    lemma_islamic_from_fixed(date, convention);
}

/// Whether a year is a leap year under a convention.
pub fn is_islamic_leap_year_with(year: i32, convention: IslamicConvention) -> (r: bool)
    requires
        year_in_range(year as int),
    ensures
        r == is_islamic_leap_year_spec(year as int, convention),
{
    let offset: i32 = match convention {
        IslamicConvention::Arithmetic => 3,
        IslamicConvention::Birashk => 4,
    };
    divide(11 + offset + 11 * year, 30).1 < 11
}

fn fixed_from_parts(year: i32, month: i32, day: i32, convention: IslamicConvention) -> (r: RD)
    requires
        year_in_range(year as int),
        -20 <= month <= 20,
        -1000 <= day <= 1000,
    ensures
        r == fixed_from_islamic_spec(year as int, month as int, day as int, convention),
{
    let offset: i32 = match convention {
        IslamicConvention::Arithmetic => 3,
        IslamicConvention::Birashk => 4,
    };
    day + 29 * (month - 1) + divide(6 * month - 1, 11).0 + (year - 1) * 354 + divide(
        offset + 11 * year,
        30,
    ).0 + EPOCH - 1
}

/// Fixed day of a date under a convention.
pub fn fixed_from_islamic_with(date: Islamic, convention: IslamicConvention) -> (r: RD)
    requires
        valid_islamic(date, convention),
    ensures
        r == fixed_from_islamic_spec(date.year as int, date.month as int, date.day as int, convention),
{
    fixed_from_parts(date.year, date.month, date.day, convention)
}

/// The date of a fixed day under a convention.
pub fn islamic_from_fixed_with(date: RD, convention: IslamicConvention) -> (r: Islamic)
    requires
        fixed_in_range(date as int),
    ensures
        (r.year as int, r.month as int, r.day as int) == islamic_from_fixed_spec(date as int, convention),
        valid_islamic(r, convention),
        fixed_from_islamic_spec(r.year as int, r.month as int, r.day as int, convention) == date,
{
    proof {
        lemma_islamic_from_fixed(date as int, convention);
    }
    let offset: i64 = match convention {
        IslamicConvention::Arithmetic => 3,
        IslamicConvention::Birashk => 4,
    };
    let scaled: i64 = 30 * (date as i64 - EPOCH as i64) + 10649 - offset;
    let year = (if scaled >= 0 {
        scaled / 10631
    } else {
        -((-scaled + 10630) / 10631)
    }) as i32;
    proof {
        let s = scaled as int;
        if s < 0 {
            lemma_fundamental_div_mod(-s + 10630, 10631);
            lemma_mod_bound(-s + 10630, 10631);
            lemma_fundamental_div_mod(s, 10631);
            lemma_mod_bound(s, 10631);
        }
        assert(year == s / 10631);
    }
    let prior_days = date - fixed_from_parts(year, 1, 1, convention);
    let month = divide(11 * prior_days + 330, 325).0;
    let day = date - fixed_from_parts(year, month, 1, convention) + 1;
    Islamic { year, month, day }
}

/// Whether `year` is a leap year of the arithmetic convention.
pub fn is_islamic_leap_year(year: i32) -> (r: bool)
    requires
        year_in_range(year as int),
    ensures
        r == is_islamic_leap_year_spec(year as int, IslamicConvention::Arithmetic),
{
    is_islamic_leap_year_with(year, IslamicConvention::Arithmetic)
}

/// Whether `year` is a leap year of the Birashk convention.
pub fn is_islamic_birashk_leap_year(year: i32) -> (r: bool)
    requires
        year_in_range(year as int),
    ensures
        r == is_islamic_leap_year_spec(year as int, IslamicConvention::Birashk),
{
    is_islamic_leap_year_with(year, IslamicConvention::Birashk)
}

/// Fixed day of a date of the arithmetic convention.
pub fn fixed_from_islamic(date: Islamic) -> (r: RD)
    requires
        valid_islamic(date, IslamicConvention::Arithmetic),
    ensures
        r == fixed_from_islamic_spec(
            date.year as int,
            date.month as int,
            date.day as int,
            IslamicConvention::Arithmetic,
        ),
{
    fixed_from_islamic_with(date, IslamicConvention::Arithmetic)
}

/// Fixed day of a date of the Birashk convention.
pub fn fixed_from_islamic_birashk(date: Islamic) -> (r: RD)
    requires
        valid_islamic(date, IslamicConvention::Birashk),
    ensures
        r == fixed_from_islamic_spec(
            date.year as int,
            date.month as int,
            date.day as int,
            IslamicConvention::Birashk,
        ),
{
    fixed_from_islamic_with(date, IslamicConvention::Birashk)
}

/// The date of a fixed day in the arithmetic convention.
pub fn islamic_from_fixed(date: RD) -> (r: Islamic)
    requires
        fixed_in_range(date as int),
    ensures
        (r.year as int, r.month as int, r.day as int) == islamic_from_fixed_spec(
            date as int,
            IslamicConvention::Arithmetic,
        ),
        valid_islamic(r, IslamicConvention::Arithmetic),
        fixed_from_islamic_spec(
            r.year as int,
            r.month as int,
            r.day as int,
            IslamicConvention::Arithmetic,
        ) == date,
{
    islamic_from_fixed_with(date, IslamicConvention::Arithmetic)
}

/// The date of a fixed day in the Birashk convention.
pub fn islamic_birashk_from_fixed(date: RD) -> (r: Islamic)
    requires
        fixed_in_range(date as int),
    ensures
        (r.year as int, r.month as int, r.day as int) == islamic_from_fixed_spec(
            date as int,
            IslamicConvention::Birashk,
        ),
        valid_islamic(r, IslamicConvention::Birashk),
        fixed_from_islamic_spec(
            r.year as int,
            r.month as int,
            r.day as int,
            IslamicConvention::Birashk,
        ) == date,
{
    islamic_from_fixed_with(date, IslamicConvention::Birashk)
}

/// The fixed days, in Gregorian year `gregorian_year` and in order, of
/// Islamic month `month`, day `day` of the Islamic year current on its
/// 1 January and of the two years after it.
pub open spec fn islamic_in_gregorian_spec(month: int, day: int, gregorian_year: int) -> Seq<int> {
    let jan1 = fixed_from_gregorian_spec(gregorian_year, 1, 1);
    let dec31 = fixed_from_gregorian_spec(gregorian_year, 12, 31);
    let year = islamic_from_fixed_spec(jan1, IslamicConvention::Arithmetic).0;
    let c = IslamicConvention::Arithmetic;
    keep_in_range(fixed_from_islamic_spec(year, month, day, c), jan1, dec31) + keep_in_range(
        fixed_from_islamic_spec(year + 1, month, day, c),
        jan1,
        dec31,
    ) + keep_in_range(fixed_from_islamic_spec(year + 2, month, day, c), jan1, dec31)
}

/// The fixed days within Gregorian year `gregorian_year` that fall on
/// Islamic month `month`, day `day` (arithmetic convention): up to three.
pub fn islamic_in_gregorian(month: i32, day: i32, gregorian_year: i32) -> (r: Vec<RD>)
    requires
        year_in_range(gregorian_year as int),
        fixed_in_range(fixed_from_gregorian_spec(gregorian_year as int, 1, 1)),
        1 <= month <= 12,
        1 <= day <= 30,
    ensures
        seq_int(r@) == islamic_in_gregorian_spec(month as int, day as int, gregorian_year as int),
{
    let jan1 = fixed_from_gregorian(Gregorian { year: gregorian_year, month: 1, day: 1 });
    let dec31 = fixed_from_gregorian(Gregorian { year: gregorian_year, month: 12, day: 31 });
    let year = islamic_from_fixed(jan1).year;
    let c = IslamicConvention::Arithmetic;
    let mut days: Vec<RD> = Vec::new();
    assert(seq_int(days@) =~= Seq::<int>::empty());
    push_in_range(&mut days, fixed_from_parts(year, month, day, c), jan1, dec31);
    push_in_range(&mut days, fixed_from_parts(year + 1, month, day, c), jan1, dec31);
    push_in_range(&mut days, fixed_from_parts(year + 2, month, day, c), jan1, dec31);
    days
}

} // verus!
