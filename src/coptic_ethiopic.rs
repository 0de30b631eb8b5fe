use crate::common::{divide, fixed_in_range, option_int, year_in_range, RD};
use crate::gregorian::{fixed_from_gregorian, fixed_from_gregorian_spec, Gregorian};
use vstd::arithmetic::div_mod::{lemma_fundamental_div_mod, lemma_fundamental_div_mod_converse, lemma_mod_bound};
use vstd::prelude::*;

verus! {

/// Fixed day of 1 Thoout of year 1 of the Coptic calendar.
pub const COPTIC_EPOCH: RD = 103605;

/// Fixed day of 1 Maskaram of year 1 of the Ethiopic calendar.
pub const ETHIOPIC_EPOCH: RD = 2796;

/// A date of the Coptic or the Ethiopic calendar, which share their
/// structure: twelve months of 30 days and a thirteenth of 5 (6 in leap
/// years), and differ in their epoch.
#[derive(Clone, Copy, Debug, PartialEq, Eq, Structural)]
pub struct CopticEthiopic {
    pub year: i32,
    pub month: i32,
    pub day: i32,
}

/// Every fourth year, the one before a multiple of four, is a leap year.
pub open spec fn is_coptic_leap_year_spec(year: int) -> bool {
    year % 4 == 3
}

/// A date whose month and day exist, in a supported year.
pub open spec fn valid_coptic_ethiopic(date: CopticEthiopic) -> bool {
    &&& year_in_range(date.year as int)
    &&& 1 <= date.month <= 13
    &&& 1 <= date.day
    &&& date.month <= 12 ==> date.day <= 30
    &&& date.month == 13 ==> date.day <= if is_coptic_leap_year_spec(date.year as int) {
        6int
    } else {
        5int
    }
}

/// Fixed day of a date of the calendar whose year 1 starts at `epoch`.
pub open spec fn fixed_from_coptic_ethiopic_spec(date: CopticEthiopic, epoch: int) -> int {
    epoch - 1 + 365 * (date.year - 1) + date.year / 4 + 30 * (date.month - 1) + date.day
}

/// Year, month and day of a fixed day in the calendar whose year 1 starts
/// at `epoch`.
pub open spec fn coptic_ethiopic_from_fixed_spec(date: int, epoch: int) -> (int, int, int) {
    let year = (4 * (date - epoch) + 1463) / 1461;
    let new_year = epoch - 1 + 365 * (year - 1) + year / 4 + 1;
    let month = (date - new_year) / 30 + 1;
    (year, month, date - new_year - 30 * (month - 1) + 1)
}

/// The two epochs of the family.
pub open spec fn is_coptic_ethiopic_epoch(epoch: int) -> bool {
    epoch == COPTIC_EPOCH || epoch == ETHIOPIC_EPOCH
}

fn is_leap_year(year: i32) -> (r: bool)
    ensures
        r == is_coptic_leap_year_spec(year as int),
{
    divide(year, 4).1 == 3
}

fn fixed_from_date(date: CopticEthiopic, epoch: RD) -> (r: RD)
    requires
        year_in_range(date.year as int),
        -50 <= date.month <= 50,
        -1000 <= date.day <= 1000,
        is_coptic_ethiopic_epoch(epoch as int),
    ensures
        r == fixed_from_coptic_ethiopic_spec(date, epoch as int),
{
    epoch - 1 + 365 * (date.year - 1) + divide(date.year, 4).0 + 30 * (date.month - 1) + date.day
}

proof fn lemma_year_start(year: int, ordinal: int, epoch: int)
    requires
        0 <= ordinal <= if is_coptic_leap_year_spec(year) {
            365int
        } else {
            364int
        },
    ensures
        (4 * (epoch - 1 + 365 * (year - 1) + year / 4 + 1 + ordinal - epoch) + 1463) / 1461 == year,
{
    lemma_fundamental_div_mod(year, 4);
    lemma_mod_bound(year, 4);
    let q = year / 4;
    let e = year % 4;
    lemma_fundamental_div_mod_converse(
        4 * (365 * (year - 1) + q + ordinal) + 1463,
        1461,
        year,
        4 * ordinal + 3 - e,
    );
}

proof fn lemma_coptic_ethiopic_from_fixed(date: int, epoch: int)
    ensures
        ({
            let (y, m, d) = coptic_ethiopic_from_fixed_spec(date, epoch);
            &&& valid_coptic_ethiopic_parts(y, m, d)
            &&& epoch - 1 + 365 * (y - 1) + y / 4 + 30 * (m - 1) + d == date
        }),
{
    let x = 4 * (date - epoch) + 1463;
    lemma_fundamental_div_mod(x, 1461);
    lemma_mod_bound(x, 1461);
    let year = x / 1461;
    lemma_fundamental_div_mod(year, 4);
    lemma_mod_bound(year, 4);
    let new_year = epoch - 1 + 365 * (year - 1) + year / 4 + 1;
    lemma_fundamental_div_mod(date - new_year, 30);
    lemma_mod_bound(date - new_year, 30);
}

/// Month and day in range for their year, without a bound on the year.
pub open spec fn valid_coptic_ethiopic_parts(year: int, month: int, day: int) -> bool {
    &&& 1 <= month <= 13
    &&& 1 <= day
    &&& month <= 12 ==> day <= 30
    &&& month == 13 ==> day <= if is_coptic_leap_year_spec(year) {
        6int
    } else {
        5int
    }
}

fn date_from_fixed(date: RD, epoch: RD) -> (r: CopticEthiopic)
    requires
        fixed_in_range(date as int),
        is_coptic_ethiopic_epoch(epoch as int),
    ensures
        (r.year as int, r.month as int, r.day as int) == coptic_ethiopic_from_fixed_spec(
            date as int,
            epoch as int,
        ),
        valid_coptic_ethiopic(r),
        fixed_from_coptic_ethiopic_spec(r, epoch as int) == date,
{
    proof {
        lemma_coptic_ethiopic_from_fixed(date as int, epoch as int);
    }
    let year = divide(4 * (date - epoch) + 1463, 1461).0;
    let month = divide(date - fixed_from_date(CopticEthiopic { year, month: 1, day: 1 }, epoch), 30).0
        + 1;
    let day = date + 1 - fixed_from_date(CopticEthiopic { year, month, day: 1 }, epoch);
    CopticEthiopic { year, month, day }
}

/// Going from a valid date to its fixed day and back gives the same date.
pub proof fn lemma_coptic_ethiopic_round_trip(date: CopticEthiopic, epoch: int)
    requires
        valid_coptic_ethiopic(date),
    ensures
        coptic_ethiopic_from_fixed_spec(fixed_from_coptic_ethiopic_spec(date, epoch), epoch) == (
            date.year as int,
            date.month as int,
            date.day as int,
        ),
{
    let ordinal = 30 * (date.month - 1) + date.day - 1;
    lemma_year_start(date.year as int, ordinal, epoch);
    lemma_fundamental_div_mod_converse(ordinal, 30, date.month - 1, date.day - 1);
}

/// Going from a fixed day to its date and back gives the same fixed day.
pub proof fn lemma_coptic_ethiopic_inverse_round_trip(date: int, epoch: int)
    ensures
        ({
            let (y, m, d) = coptic_ethiopic_from_fixed_spec(date, epoch);
            epoch - 1 + 365 * (y - 1) + y / 4 + 30 * (m - 1) + d == date
        }),
{
    lemma_coptic_ethiopic_from_fixed(date, epoch);
}

/// The fixed day of month `month`, day `day` in the year of the calendar
/// (of epoch `epoch`) that is current on 1 January of `gregorian_year`, or
/// in the next one, whichever falls inside the Gregorian year; the first
/// of the two if both do, and `None` if neither does.
pub open spec fn coptic_ethiopic_in_gregorian_spec(
    month: int,
    day: int,
    gregorian_year: int,
    epoch: int,
) -> Option<int> {
    let jan1 = fixed_from_gregorian_spec(gregorian_year, 1, 1);
    let dec31 = fixed_from_gregorian_spec(gregorian_year, 12, 31);
    let y = coptic_ethiopic_from_fixed_spec(jan1, epoch).0;
    let first = epoch - 1 + 365 * (y - 1) + y / 4 + 30 * (month - 1) + day;
    let second = epoch - 1 + 365 * y + (y + 1) / 4 + 30 * (month - 1) + day;
    if jan1 <= first <= dec31 {
        Some(first)
    } else if jan1 <= second <= dec31 {
        Some(second)
    } else {
        None
    }
}

/// What the `_in_gregorian` queries ask of their arguments.
pub open spec fn in_gregorian_args(month: int, day: int, gregorian_year: int) -> bool {
    &&& year_in_range(gregorian_year)
    &&& fixed_in_range(fixed_from_gregorian_spec(gregorian_year, 1, 1))
    &&& 1 <= month <= 13
    &&& 1 <= day <= 30
}

fn date_in_gregorian(month: i32, day: i32, gregorian_year: i32, epoch: RD) -> (r: Option<RD>)
    requires
        in_gregorian_args(month as int, day as int, gregorian_year as int),
        is_coptic_ethiopic_epoch(epoch as int),
    ensures
        option_int(r) == coptic_ethiopic_in_gregorian_spec(
            month as int,
            day as int,
            gregorian_year as int,
            epoch as int,
        ),
{
    let jan1 = fixed_from_gregorian(Gregorian { year: gregorian_year, month: 1, day: 1 });
    let dec31 = fixed_from_gregorian(Gregorian { year: gregorian_year, month: 12, day: 31 });
    let y = date_from_fixed(jan1, epoch).year;
    let first = fixed_from_date(CopticEthiopic { year: y, month, day }, epoch);
    let second = fixed_from_date(CopticEthiopic { year: y + 1, month, day }, epoch);
    if jan1 <= first && first <= dec31 {
        Some(first)
    } else if jan1 <= second && second <= dec31 {
        Some(second)
    } else {
        None
    }
}

/// Whether `year` is a Coptic leap year.
pub fn is_coptic_leap_year(year: i32) -> (r: bool)
    ensures
        r == is_coptic_leap_year_spec(year as int),
{
    is_leap_year(year)
}

/// Fixed day of a Coptic date.
pub fn fixed_from_coptic(date: CopticEthiopic) -> (r: RD)
    requires
        valid_coptic_ethiopic(date),
    ensures
        r == fixed_from_coptic_ethiopic_spec(date, COPTIC_EPOCH as int),
{
    fixed_from_date(date, COPTIC_EPOCH)
}

/// The Coptic date of a fixed day.
pub fn coptic_from_fixed(date: RD) -> (r: CopticEthiopic)
    requires
        fixed_in_range(date as int),
    ensures
        (r.year as int, r.month as int, r.day as int) == coptic_ethiopic_from_fixed_spec(
            date as int,
            COPTIC_EPOCH as int,
        ),
        valid_coptic_ethiopic(r),
        fixed_from_coptic_ethiopic_spec(r, COPTIC_EPOCH as int) == date,
{
    date_from_fixed(date, COPTIC_EPOCH)
}

/// The fixed day of Coptic month `month`, day `day` within Gregorian year
/// `gregorian_year`, if it falls in it.
pub fn coptic_in_gregorian(month: i32, day: i32, gregorian_year: i32) -> (r: Option<RD>)
    requires
        in_gregorian_args(month as int, day as int, gregorian_year as int),
    ensures
        option_int(r) == coptic_ethiopic_in_gregorian_spec(
            month as int,
            day as int,
            gregorian_year as int,
            COPTIC_EPOCH as int,
        ),
{
    date_in_gregorian(month, day, gregorian_year, COPTIC_EPOCH)
}

/// Whether `year` is an Ethiopic leap year (the Coptic rule).
pub fn is_ethiopic_leap_year(year: i32) -> (r: bool)
    ensures
        r == is_coptic_leap_year_spec(year as int),
{
    is_leap_year(year)
}

/// Fixed day of an Ethiopic date.
pub fn fixed_from_ethiopic(date: CopticEthiopic) -> (r: RD)
    requires
        valid_coptic_ethiopic(date),
    ensures
        r == fixed_from_coptic_ethiopic_spec(date, ETHIOPIC_EPOCH as int),
{
    fixed_from_date(date, ETHIOPIC_EPOCH)
}

/// The Ethiopic date of a fixed day.
pub fn ethiopic_from_fixed(date: RD) -> (r: CopticEthiopic)
    requires
        fixed_in_range(date as int),
    ensures
        (r.year as int, r.month as int, r.day as int) == coptic_ethiopic_from_fixed_spec(
            date as int,
            ETHIOPIC_EPOCH as int,
        ),
        valid_coptic_ethiopic(r),
        fixed_from_coptic_ethiopic_spec(r, ETHIOPIC_EPOCH as int) == date,
{
    date_from_fixed(date, ETHIOPIC_EPOCH)
}

/// The fixed day of Ethiopic month `month`, day `day` within Gregorian
/// year `gregorian_year`, if it falls in it.
pub fn ethiopic_in_gregorian(month: i32, day: i32, gregorian_year: i32) -> (r: Option<RD>)
    requires
        in_gregorian_args(month as int, day as int, gregorian_year as int),
    ensures
        option_int(r) == coptic_ethiopic_in_gregorian_spec(
            month as int,
            day as int,
            gregorian_year as int,
            ETHIOPIC_EPOCH as int,
        ),
{
    date_in_gregorian(month, day, gregorian_year, ETHIOPIC_EPOCH)
}

} // verus!
