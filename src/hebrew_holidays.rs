use crate::common::{
    divide, fixed_in_range, keep_in_range, option_int, push_in_range, seq_int, year_in_range, RD,
};
use crate::coptic_ethiopic::{
    coptic_ethiopic_from_fixed_spec, coptic_ethiopic_in_gregorian_spec, coptic_from_fixed,
    coptic_in_gregorian, COPTIC_EPOCH,
};
use crate::cycles_of_days::{day_of_week, day_of_week_from_fixed, kday_before, kday_on_or_before_spec};
use crate::gregorian::{
    fixed_from_gregorian, fixed_from_gregorian_spec, gregorian_year_from_fixed,
    gregorian_year_from_fixed_spec, Gregorian,
};
use crate::hebrew::{
    fixed_from_hebrew_parts, fixed_from_hebrew_spec, hebrew_from_fixed, hebrew_year_in_range,
    hebrew_year_of, is_hebrew_leap_year, is_hebrew_leap_year_spec, is_long_marcheshvan,
    is_long_marcheshvan_spec, is_short_kislev, is_short_kislev_spec, last_month_of_hebrew_year,
    last_month_of_hebrew_year_spec, Hebrew, EPOCH,
};
use vstd::prelude::*;

verus! {

/// Gregorian years for which both Hebrew years that overlap them are
/// supported.
pub open spec fn holiday_year_in_range(gregorian_year: int) -> bool {
    year_in_range(gregorian_year) && hebrew_year_in_range(gregorian_year + 3761)
        && hebrew_year_in_range(gregorian_year + 3760)
}

/// The Hebrew year whose spring (Nisan) falls in a Gregorian year; the
/// year that begins in its autumn is the next one.
pub open spec fn spring_hebrew_year(gregorian_year: int) -> int {
    gregorian_year - gregorian_year_from_fixed_spec(EPOCH as int).0
}

/// Yom Kippur: 10 Tishrei of the year starting in the Gregorian year.
pub fn yom_kippur(gregorian_year: i32) -> (r: RD)
    requires
        holiday_year_in_range(gregorian_year as int),
    ensures
        r == fixed_from_hebrew_spec(spring_hebrew_year(gregorian_year as int) + 1, 7, 10),
{
    let year = gregorian_year - gregorian_year_from_fixed(EPOCH).0 + 1;
    fixed_from_hebrew_parts(year, 7, 10)
}

/// Passover: 15 Nisan.
pub fn passover(gregorian_year: i32) -> (r: RD)
    requires
        holiday_year_in_range(gregorian_year as int),
    ensures
        r == fixed_from_hebrew_spec(spring_hebrew_year(gregorian_year as int), 1, 15),
        -121_000_000 <= r <= 121_000_000,
{
    let year = gregorian_year - gregorian_year_from_fixed(EPOCH).0;
    fixed_from_hebrew_parts(year, 1, 15)
}

/// A day of the counting of the Omer, as whole weeks and days.
#[derive(Clone, Copy, Debug, PartialEq, Eq, Structural)]
pub struct Omer {
    pub week: i32,
    pub day: i32,
}

/// Days since Passover of the Gregorian year of a fixed day.
pub open spec fn omer_count(date: int) -> int {
    date - fixed_from_hebrew_spec(spring_hebrew_year(gregorian_year_from_fixed_spec(date).0), 1, 15)
}

/// The count of the Omer on a fixed day: days 1 to 49 after Passover, as
/// weeks and days; `None` outside them.
pub fn omer(date: RD) -> (r: Option<Omer>)
    requires
        fixed_in_range(date as int),
    ensures
        r.is_some() == (1 <= omer_count(date as int) <= 49),
        r matches Some(o) ==> o.week == omer_count(date as int) / 7 && o.day == omer_count(
            date as int,
        ) % 7,
{
    let c = date - passover(gregorian_year_from_fixed(date).0);
    if 1 <= c && c <= 49 {
        let (week, day) = divide(c, 7);
        Some(Omer { week, day })
    } else {
        None
    }
}

/// Purim: 14 Adar, in the last month of the year.
pub fn purim(gregorian_year: i32) -> (r: RD)
    requires
        holiday_year_in_range(gregorian_year as int),
    ensures
        r == fixed_from_hebrew_spec(
            spring_hebrew_year(gregorian_year as int),
            last_month_of_hebrew_year_spec(spring_hebrew_year(gregorian_year as int)),
            14,
        ),
        -121_000_000 <= r <= 121_000_000,
{
    let year = gregorian_year - gregorian_year_from_fixed(EPOCH).0;
    fixed_from_hebrew_parts(year, last_month_of_hebrew_year(year), 14)
}

/// The fast before a Purim on fixed day `purim`: the day before, or the
/// Thursday before when Purim falls on a Sunday.
pub open spec fn ta_anit_esther_spec(purim: int) -> int {
    purim - if day_of_week(purim) == 0 {
        3int
    } else {
        1int
    }
}

/// Ta'anit Esther: the day before Purim, moved back to Thursday when Purim
/// falls on a Sunday.
pub fn taanit_esther(gregorian_year: i32) -> (r: RD)
    requires
        holiday_year_in_range(gregorian_year as int),
    ensures
        r == ta_anit_esther_spec(
            fixed_from_hebrew_spec(
                spring_hebrew_year(gregorian_year as int),
                last_month_of_hebrew_year_spec(spring_hebrew_year(gregorian_year as int)),
                14,
            ),
        ),
{
    let purim_date = purim(gregorian_year);
    purim_date - if day_of_week_from_fixed(purim_date) == 0 {
        3
    } else {
        1
    }
}

/// Tisha B'Av: 9 Av, moved to Sunday when it falls on the Sabbath.
pub fn tisha_bav(gregorian_year: i32) -> (r: RD)
    requires
        holiday_year_in_range(gregorian_year as int),
    ensures
        ({
            let av9 = fixed_from_hebrew_spec(spring_hebrew_year(gregorian_year as int), 5, 9);
            r == if day_of_week(av9) == 6 {
                av9 + 1
            } else {
                av9
            }
        }),
{
    let year = gregorian_year - gregorian_year_from_fixed(EPOCH).0;
    let av9 = fixed_from_hebrew_parts(year, 5, 9);
    if day_of_week_from_fixed(av9) == 6 {
        av9 + 1
    } else {
        av9
    }
}

/// The fixed days, in order, of Hebrew month `month`, day `day` of the
/// Hebrew year current on 1 January of `gregorian_year` and of the next,
/// kept when they fall in that Gregorian year.
pub open spec fn hebrew_in_gregorian_spec(month: int, day: int, gregorian_year: int) -> Seq<int> {
    let jan1 = fixed_from_gregorian_spec(gregorian_year, 1, 1);
    let dec31 = fixed_from_gregorian_spec(gregorian_year, 12, 31);
    let year = hebrew_year_of(jan1);
    keep_in_range(fixed_from_hebrew_spec(year, month, day), jan1, dec31) + keep_in_range(
        fixed_from_hebrew_spec(year + 1, month, day),
        jan1,
        dec31,
    )
}

/// Gregorian years inside the supported range of fixed days.
pub open spec fn gregorian_year_supported(gregorian_year: int) -> bool {
    year_in_range(gregorian_year) && fixed_in_range(fixed_from_gregorian_spec(gregorian_year, 1, 1))
        && fixed_in_range(fixed_from_gregorian_spec(gregorian_year, 12, 31))
}

/// The fixed days within Gregorian year `gregorian_year` of Hebrew month
/// `month`, day `day`.
pub fn hebrew_in_gregorian(month: i32, day: i32, gregorian_year: i32) -> (r: Vec<RD>)
    requires
        gregorian_year_supported(gregorian_year as int),
        1 <= month <= 13,
        1 <= day <= 30,
    ensures
        seq_int(r@) == hebrew_in_gregorian_spec(month as int, day as int, gregorian_year as int),
{
    let jan1 = fixed_from_gregorian(Gregorian { year: gregorian_year, month: 1, day: 1 });
    let dec31 = fixed_from_gregorian(Gregorian { year: gregorian_year, month: 12, day: 31 });
    let year = hebrew_from_fixed(jan1).year;
    let mut days: Vec<RD> = Vec::new();
    assert(seq_int(days@) =~= Seq::<int>::empty());
    push_in_range(&mut days, fixed_from_hebrew_parts(year, month, day), jan1, dec31);
    push_in_range(&mut days, fixed_from_hebrew_parts(year + 1, month, day), jan1, dec31);
    days
}

/// Tzom Tevet (10 Tevet) within a Gregorian year: none, one or two days.
pub fn tzom_tevet(gregorian_year: i32) -> (r: Vec<RD>)
    requires
        gregorian_year_supported(gregorian_year as int),
    ensures
        seq_int(r@) == hebrew_in_gregorian_spec(10, 10, gregorian_year as int),
{
    hebrew_in_gregorian(10, 10, gregorian_year)
}

/// Yom HaShoah: 27 Nisan, moved to Monday when it falls on a Sunday.
pub fn yom_hashoa(gregorian_year: i32) -> (r: RD)
    requires
        holiday_year_in_range(gregorian_year as int),
    ensures
        ({
            let nissan27 = fixed_from_hebrew_spec(spring_hebrew_year(gregorian_year as int), 1, 27);
            r == if day_of_week(nissan27) == 0 {
                nissan27 + 1
            } else {
                nissan27
            }
        }),
{
    let year = gregorian_year - gregorian_year_from_fixed(EPOCH).0;
    let nissan27 = fixed_from_hebrew_parts(year, 1, 27);
    if day_of_week_from_fixed(nissan27) == 0 {
        nissan27 + 1
    } else {
        nissan27
    }
}

/// Yom HaZikaron: 4 Iyyar, moved back to the Wednesday before when it falls
/// on Thursday or later in the week.
pub fn yom_hazikaron(gregorian_year: i32) -> (r: RD)
    requires
        holiday_year_in_range(gregorian_year as int),
    ensures
        ({
            let iyyar4 = fixed_from_hebrew_spec(spring_hebrew_year(gregorian_year as int), 2, 4);
            r == if day_of_week(iyyar4) > 3 {
                kday_on_or_before_spec(iyyar4 - 1, 3)
            } else {
                iyyar4
            }
        }),
{
    let year = gregorian_year - gregorian_year_from_fixed(EPOCH).0;
    let iyyar4 = fixed_from_hebrew_parts(year, 2, 4);
    if day_of_week_from_fixed(iyyar4) > 3 {
        kday_before(iyyar4, 3)
    } else {
        iyyar4
    }
}

/// The day from which the prayer for dew and rain is said: 26 Athor of
/// the Coptic calendar, which the caller knows to fall in the year.
pub fn sheela(gregorian_year: i32) -> (r: RD)
    requires
        gregorian_year_supported(gregorian_year as int),
        coptic_ethiopic_in_gregorian_spec(3, 26, gregorian_year as int, COPTIC_EPOCH as int).is_some(),
    ensures
        Some(r as int) == coptic_ethiopic_in_gregorian_spec(3, 26, gregorian_year as int, COPTIC_EPOCH as int),
{
    match coptic_in_gregorian(3, 26, gregorian_year) {
        Some(date) => date,
        // The precondition rules this arm out.
        None => 0,
    }
}

/// The blessing of the sun: 30 Paremhat of the Coptic calendar, in the
/// years whose place in the 28-year solar cycle is 17.
pub open spec fn birkath_hachama_spec(gregorian_year: int) -> Option<int> {
    match coptic_ethiopic_in_gregorian_spec(7, 30, gregorian_year, COPTIC_EPOCH as int) {
        Some(date) => if coptic_ethiopic_from_fixed_spec(date, COPTIC_EPOCH as int).0 % 28 == 17 {
            Some(date)
        } else {
            None
        },
        None => None,
    }
}

/// The day of the blessing of the sun within a Gregorian year, if any.
pub fn birkath_hachama(gregorian_year: i32) -> (r: Option<RD>)
    requires
        gregorian_year_supported(gregorian_year as int),
    ensures
        option_int(r) == birkath_hachama_spec(gregorian_year as int),
{
    match coptic_in_gregorian(7, 30, gregorian_year) {
        Some(date) => {
            if divide(coptic_from_fixed(date).year, 28).1 == 17 {
                Some(date)
            } else {
                None
            }
        },
        None => None,
    }
}

/// A Hebrew date whose fields stay in the ranges the anniversaries use.
pub open spec fn anniversary_date_in_range(date: Hebrew) -> bool {
    hebrew_year_in_range(date.year as int) && hebrew_year_in_range(date.year + 1) && 1 <= date.month
        <= 13 && 1 <= date.day <= 30
}

/// The birthday in `year` of someone born on `birth_date`: the same month
/// and day, with a birth in the last month of the year kept in the last
/// month, and a day that the month lacks carried into the next.
pub open spec fn hebrew_birthday_spec(birth_date: Hebrew, year: int) -> int {
    if last_month_of_hebrew_year_spec(birth_date.year as int) == birth_date.month {
        fixed_from_hebrew_spec(year, last_month_of_hebrew_year_spec(year), birth_date.day as int)
    } else {
        fixed_from_hebrew_spec(year, birth_date.month as int, 1) + birth_date.day - 1
    }
}

/// The birthday in Hebrew year `year` of someone born on `birth_date`.
pub fn hebrew_birthday(birth_date: Hebrew, year: i32) -> (r: RD)
    requires
        anniversary_date_in_range(birth_date),
        hebrew_year_in_range(year as int),
    ensures
        r == hebrew_birthday_spec(birth_date, year as int),
{
    if last_month_of_hebrew_year(birth_date.year) == birth_date.month {
        fixed_from_hebrew_parts(year, last_month_of_hebrew_year(year), birth_date.day)
    } else {
        fixed_from_hebrew_parts(year, birth_date.month, 1) + birth_date.day - 1
    }
}

/// The birthdays of `birth_date` within Gregorian year `gregorian_year`:
/// those of the Hebrew year current on its 1 January and of the next.
pub fn hebrew_birthday_in_gregorian(birth_date: Hebrew, gregorian_year: i32) -> (r: Vec<RD>)
    requires
        anniversary_date_in_range(birth_date),
        gregorian_year_supported(gregorian_year as int),
    ensures
        ({
            let jan1 = fixed_from_gregorian_spec(gregorian_year as int, 1, 1);
            let dec31 = fixed_from_gregorian_spec(gregorian_year as int, 12, 31);
            let year = hebrew_year_of(jan1);
            seq_int(r@) == keep_in_range(hebrew_birthday_spec(birth_date, year), jan1, dec31)
                + keep_in_range(hebrew_birthday_spec(birth_date, year + 1), jan1, dec31)
        }),
{
    let jan1 = fixed_from_gregorian(Gregorian { year: gregorian_year, month: 1, day: 1 });
    let dec31 = fixed_from_gregorian(Gregorian { year: gregorian_year, month: 12, day: 31 });
    let year = hebrew_from_fixed(jan1).year;
    let mut days: Vec<RD> = Vec::new();
    assert(seq_int(days@) =~= Seq::<int>::empty());
    push_in_range(&mut days, hebrew_birthday(birth_date, year), jan1, dec31);
    push_in_range(&mut days, hebrew_birthday(birth_date, year + 1), jan1, dec31);
    days
}

/// The month and day on which the anniversary of a death is kept in `year`.
pub open spec fn yahrtzeit_month_day(death_date: Hebrew, year: int) -> (int, int) {
    if death_date.month == 8 && death_date.day == 30 && !is_long_marcheshvan_spec(
        death_date.year + 1,
    ) {
        (9, 1)
    } else if death_date.month == 9 && death_date.day == 30 && is_short_kislev_spec(
        death_date.year + 1,
    ) {
        (10, 1)
    } else if death_date.month == 13 {
        (last_month_of_hebrew_year_spec(year), death_date.day as int)
    } else if death_date.month == 12 && death_date.day == 30 && !is_hebrew_leap_year_spec(year) {
        (11, death_date.day as int)
    } else {
        (death_date.month as int, death_date.day as int)
    }
}

/// The anniversary in `year` of a death on `death_date`.
pub open spec fn yahrtzeit_spec(death_date: Hebrew, year: int) -> int {
    let (month, day) = yahrtzeit_month_day(death_date, year);
    fixed_from_hebrew_spec(year, month, day)
}

/// The anniversary (yahrtzeit) in Hebrew year `year` of a death on
/// `death_date`.
pub fn yahrtzeit(death_date: Hebrew, year: i32) -> (r: RD)
    requires
        anniversary_date_in_range(death_date),
        hebrew_year_in_range(year as int),
    ensures
        r == yahrtzeit_spec(death_date, year as int),
{
    let (month, day) = if death_date.month == 8 && death_date.day == 30 && !is_long_marcheshvan(
        death_date.year + 1,
    ) {
        (9, 1)
    } else if death_date.month == 9 && death_date.day == 30 && is_short_kislev(
        death_date.year + 1,
    ) {
        (10, 1)
    } else if death_date.month == 13 {
        (last_month_of_hebrew_year(year), death_date.day)
    } else if death_date.month == 12 && death_date.day == 30 && !is_hebrew_leap_year(year) {
        (11, death_date.day)
    } else {
        (death_date.month, death_date.day)
    };
    fixed_from_hebrew_parts(year, month, day)
}

/// The anniversaries of `death_date` within Gregorian year `gregorian_year`.
pub fn yahrtzeit_in_gregorian(death_date: Hebrew, gregorian_year: i32) -> (r: Vec<RD>)
    requires
        anniversary_date_in_range(death_date),
        gregorian_year_supported(gregorian_year as int),
    ensures
        ({
            let jan1 = fixed_from_gregorian_spec(gregorian_year as int, 1, 1);
            let dec31 = fixed_from_gregorian_spec(gregorian_year as int, 12, 31);
            let year = hebrew_year_of(jan1);
            seq_int(r@) == keep_in_range(yahrtzeit_spec(death_date, year), jan1, dec31)
                + keep_in_range(yahrtzeit_spec(death_date, year + 1), jan1, dec31)
        }),
{
    let jan1 = fixed_from_gregorian(Gregorian { year: gregorian_year, month: 1, day: 1 });
    let dec31 = fixed_from_gregorian(Gregorian { year: gregorian_year, month: 12, day: 31 });
    let year = hebrew_from_fixed(jan1).year;
    let mut days: Vec<RD> = Vec::new();
    assert(seq_int(days@) =~= Seq::<int>::empty());
    push_in_range(&mut days, yahrtzeit(death_date, year), jan1, dec31);
    push_in_range(&mut days, yahrtzeit(death_date, year + 1), jan1, dec31);
    days
}

} // verus!
