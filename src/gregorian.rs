use crate::common::{divide, alternate_divide, fixed_in_range, year_in_range, RD, MAX_FIXED, MIN_FIXED};
use crate::cycles_of_days::{nth_kday as base_nth_kday, nth_kday_spec, day_of_week, is_weekday};
use vstd::arithmetic::div_mod::{lemma_fundamental_div_mod, lemma_fundamental_div_mod_converse, lemma_mod_bound};
use vstd::prelude::*;

verus! {

/// Fixed day of 1 January of year 1.
pub const EPOCH: RD = 1;

/// A date of the proleptic Gregorian calendar.
#[derive(Clone, Copy, Debug, PartialEq, Eq, Structural)]
pub struct Gregorian {
    pub year: i32,
    pub month: i32,
    pub day: i32,
}

/// Every fourth year is a leap year, except three centuries out of four.
pub open spec fn is_leap_year_spec(year: int) -> bool {
    year % 4 == 0 && !(year % 400 == 100 || year % 400 == 200 || year % 400 == 300)
}

/// Number of days in a month of a year.
pub open spec fn last_day_of_gregorian_month(year: int, month: int) -> int {
    if month == 2 {
        if is_leap_year_spec(year) {
            29
        } else {
            28
        }
    } else if month == 4 || month == 6 || month == 9 || month == 11 {
        30
    } else {
        31
    }
}

/// A date whose month and day exist, in a supported year.
pub open spec fn valid_gregorian(date: Gregorian) -> bool {
    &&& year_in_range(date.year as int)
    &&& 1 <= date.month <= 12
    &&& 1 <= date.day <= last_day_of_gregorian_month(date.year as int, date.month as int)
}

/// Days in the months before `month`, counting February as 30 days, minus
/// the correction that brings February back to its real length.
pub open spec fn days_before_month(year: int, month: int) -> int {
    (367 * month - 362) / 12 - if month <= 2 {
        0int
    } else if is_leap_year_spec(year) {
        1int
    } else {
        2int
    }
}

/// Fixed day of a Gregorian date.
pub open spec fn fixed_from_gregorian_spec(year: int, month: int, day: int) -> int {
    let y = year - 1;
    EPOCH - 1 + 365 * y + y / 4 - y / 100 + y / 400 + days_before_month(year, month) + day
}

/// Whether `year` is a Gregorian leap year.
pub fn is_leap_year(year: i32) -> (r: bool)
    ensures
        r == is_leap_year_spec(year as int),
{
    match divide(year, 4).1 {
        0 => match divide(year, 400).1 {
            100 | 200 | 300 => false,
            _ => true,
        },
        _ => false,
    }
}

/// Fixed day of a Gregorian date.
pub fn fixed_from_gregorian(gregorian: Gregorian) -> (r: RD)
    requires
        valid_gregorian(gregorian),
    ensures
        r == fixed_from_gregorian_spec(
            gregorian.year as int,
            gregorian.month as int,
            gregorian.day as int,
        ),
{
    let elapsed_years = gregorian.year - 1;
    EPOCH - 1 + 365 * elapsed_years + divide(elapsed_years, 4).0 - divide(elapsed_years, 100).0
        + divide(elapsed_years, 400).0 + divide(367 * gregorian.month - 362, 12).0 - if gregorian.month
        <= 2 {
        0
    } else if is_leap_year(gregorian.year) {
        1
    } else {
        2
    } + gregorian.day
}

/// Fixed day of the last day of year `year`: scaled by 400, within a few
/// hundred of `146097 * year`.
proof fn lemma_gregorian_year_end_bounds(year: int)
    ensures
        146097 * year - 699 <= 400 * (fixed_from_gregorian_spec(year + 1, 1, 1) - 1) <= 146097 * year
            + 396,
{
    lemma_fundamental_div_mod(year, 4);
    lemma_mod_bound(year, 4);
    lemma_fundamental_div_mod(year, 100);
    lemma_mod_bound(year, 100);
    lemma_fundamental_div_mod(year, 400);
    lemma_mod_bound(year, 400);
}

/// Year of a fixed day and the day's ordinal in that year, by counting
/// whole 400-, 100-, 4- and 1-year periods.
pub open spec fn gregorian_year_from_fixed_spec(date: int) -> (int, int) {
    let d0 = date - EPOCH;
    let n400 = d0 / 146097;
    let d1 = d0 % 146097;
    let n100 = d1 / 36524;
    let d2 = d1 % 36524;
    let n4 = d2 / 1461;
    let d3 = d2 % 1461;
    let n1 = d3 / 365;
    let d4 = d3 % 365;
    (
        400 * n400 + 100 * n100 + 4 * n4 + n1 + if n100 == 4 || n1 == 4 {
            0int
        } else {
            1int
        },
        if n1 != 4 && n100 != 4 {
            d4 + 1
        } else {
            366
        },
    )
}

/// Number of days in a Gregorian year.
pub open spec fn days_in_gregorian_year(year: int) -> int {
    if is_leap_year_spec(year) {
        366
    } else {
        365
    }
}

/// The new year of `year + 1` comes one year length after that of `year`.
pub proof fn lemma_gregorian_year_length(year: int)
    ensures
        fixed_from_gregorian_spec(year + 1, 1, 1) == fixed_from_gregorian_spec(year, 1, 1)
            + days_in_gregorian_year(year),
{
    lemma_step_div(year, 4);
    lemma_step_div(year, 100);
    lemma_step_div(year, 400);
    let r = year % 400;
    lemma_fundamental_div_mod(year, 400);
    lemma_mod_bound(year, 400);
    lemma_fundamental_div_mod_converse(year, 4, 100 * (year / 400) + r / 4, r % 4);
    lemma_fundamental_div_mod_converse(year, 100, 4 * (year / 400) + r / 100, r % 100);
}

/// How `(n - 1) / d` steps to `n / d`.
proof fn lemma_step_div(n: int, d: int)
    requires
        d > 0,
    ensures
        n % d == 0 ==> (n - 1) / d == n / d - 1,
        n % d != 0 ==> (n - 1) / d == n / d,
{
    lemma_fundamental_div_mod(n, d);
    lemma_mod_bound(n, d);
    let q = n / d;
    if n % d == 0 {
        assert(n - 1 == (q - 1) * d + (d - 1)) by (nonlinear_arith)
            requires
                n == d * q + n % d,
                n % d == 0,
        ;
        lemma_fundamental_div_mod_converse(n - 1, d, q - 1, d - 1);
    } else {
        assert(n - 1 == q * d + (n % d - 1)) by (nonlinear_arith)
            requires
                n == d * q + n % d,
        ;
        lemma_fundamental_div_mod_converse(n - 1, d, q, n % d - 1);
    }
}

/// New years come in the order of their years.
pub proof fn lemma_gregorian_year_ordering(a: int, b: int)
    requires
        a <= b,
    ensures
        fixed_from_gregorian_spec(a, 1, 1) + 365 * (b - a) <= fixed_from_gregorian_spec(b, 1, 1),
    decreases b - a,
{
    if a < b {
        lemma_gregorian_year_ordering(a, b - 1);
        lemma_gregorian_year_length(b - 1);
    }
}

/// The year found for a fixed day contains it, at the ordinal given.
pub proof fn lemma_gregorian_year_from_fixed(date: int)
    ensures
        ({
            let (year, ordinal) = gregorian_year_from_fixed_spec(date);
            &&& 1 <= ordinal <= days_in_gregorian_year(year)
            &&& date == fixed_from_gregorian_spec(year, 1, 1) + ordinal - 1
        }),
{
    let d0 = date - EPOCH;
    let n400 = d0 / 146097;
    let d1 = d0 % 146097;
    let n100 = d1 / 36524;
    let d2 = d1 % 36524;
    let n4 = d2 / 1461;
    let d3 = d2 % 1461;
    let n1 = d3 / 365;
    let d4 = d3 % 365;
    lemma_fundamental_div_mod(d0, 146097);
    lemma_mod_bound(d0, 146097);
    lemma_fundamental_div_mod(d1, 36524);
    lemma_mod_bound(d1, 36524);
    lemma_fundamental_div_mod(d2, 1461);
    lemma_mod_bound(d2, 1461);
    lemma_fundamental_div_mod(d3, 365);
    lemma_mod_bound(d3, 365);
    let (year, ordinal) = gregorian_year_from_fixed_spec(date);
    let y = year - 1;
    if n100 == 4 {
        assert(y == 400 * n400 + 399);
        lemma_fundamental_div_mod_converse(y, 4, 100 * n400 + 99, 3);
        lemma_fundamental_div_mod_converse(y, 100, 4 * n400 + 3, 99);
        lemma_fundamental_div_mod_converse(y, 400, n400, 399);
        lemma_fundamental_div_mod_converse(year, 4, 100 * n400 + 100, 0);
        lemma_fundamental_div_mod_converse(year, 400, n400 + 1, 0);
    } else {
        let e = if n1 == 4 { 3 } else { n1 };
        assert(y == 400 * n400 + 100 * n100 + 4 * n4 + e);
        lemma_fundamental_div_mod_converse(y, 4, 100 * n400 + 25 * n100 + n4, e);
        lemma_fundamental_div_mod_converse(y, 100, 4 * n400 + n100, 4 * n4 + e);
        lemma_fundamental_div_mod_converse(y, 400, n400, 100 * n100 + 4 * n4 + e);
        if n1 == 4 {
            lemma_fundamental_div_mod_converse(year, 4, 100 * n400 + 25 * n100 + n4 + 1, 0);
            lemma_fundamental_div_mod_converse(year, 400, n400, 100 * n100 + 4 * n4 + 4);
        }
    }
}

/// Year and day-of-year of a fixed day.
pub fn gregorian_year_from_fixed(date: RD) -> (r: (i32, i32))
    requires
        fixed_in_range(date as int),
    ensures
        (r.0 as int, r.1 as int) == gregorian_year_from_fixed_spec(date as int),
        year_in_range(r.0 as int),
        1 <= r.1 <= days_in_gregorian_year(r.0 as int),
        date == fixed_from_gregorian_spec(r.0 as int, 1, 1) + r.1 - 1,
{
    proof {
        lemma_gregorian_year_from_fixed(date as int);
    }
    let d0 = date - EPOCH;
    let (n400, d1) = divide(d0, 146097);
    let (n100, d2) = divide(d1, 36524);
    let (n4, d3) = divide(d2, 1461);
    let (n1, d4) = divide(d3, 365);
    (
        400 * n400 + 100 * n100 + 4 * n4 + n1 + if n100 == 4 || n1 == 4 {
            0
        } else {
            1
        },
        if n1 != 4 && n100 != 4 {
            d4 + 1
        } else {
            366
        },
    )
}

/// The month that holds a day-of-year, as `gregorian_from_fixed` finds it.
pub open spec fn month_from_ordinal(year: int, ordinal: int) -> int {
    let correction = if ordinal - 1 < days_before_month(year, 3) {
        0
    } else if is_leap_year_spec(year) {
        1int
    } else {
        2int
    };
    (12 * (ordinal - 1 + correction) + 373) / 367
}

proof fn lemma_month_from_ordinal(year: int, ordinal: int)
    requires
        1 <= ordinal <= days_in_gregorian_year(year),
    ensures
        ({
            let m = month_from_ordinal(year, ordinal);
            &&& 1 <= m <= 12
            &&& days_before_month(year, m) < ordinal
            &&& ordinal <= days_before_month(year, m) + last_day_of_gregorian_month(year, m)
        }),
{
}

/// Year, month and day of a fixed day.
pub open spec fn gregorian_from_fixed_spec(date: int) -> (int, int, int) {
    let (year, ordinal) = gregorian_year_from_fixed_spec(date);
    let month = month_from_ordinal(year, ordinal);
    (year, month, ordinal - days_before_month(year, month))
}

/// Counting the days of a valid date from its new year lands back on its
/// year and day-of-year.
proof fn lemma_gregorian_year_from_ordinal(year: int, ordinal: int)
    requires
        1 <= ordinal <= days_in_gregorian_year(year),
    ensures
        gregorian_year_from_fixed_spec(fixed_from_gregorian_spec(year, 1, 1) + ordinal - 1) == (
            year,
            ordinal,
        ),
{
    let y = year - 1;
    let a = y / 400;
    let r1 = y % 400;
    let b = r1 / 100;
    let r2 = r1 % 100;
    let c = r2 / 4;
    let e = r2 % 4;
    lemma_fundamental_div_mod(y, 400);
    lemma_mod_bound(y, 400);
    lemma_fundamental_div_mod(r1, 100);
    lemma_mod_bound(r1, 100);
    lemma_fundamental_div_mod(r2, 4);
    lemma_mod_bound(r2, 4);
    lemma_fundamental_div_mod_converse(y, 4, 100 * a + 25 * b + c, e);
    lemma_fundamental_div_mod_converse(y, 100, 4 * a + b, 4 * c + e);
    lemma_fundamental_div_mod_converse(year, 4, 100 * a + 25 * b + c + (e + 1) / 4, (e + 1) % 4);
    lemma_fundamental_div_mod_converse(year, 400, a + (r1 + 1) / 400, (r1 + 1) % 400);
    let date = fixed_from_gregorian_spec(year, 1, 1) + ordinal - 1;
    let d0 = date - EPOCH;
    assert(d0 == 146097 * a + 36524 * b + 1461 * c + 365 * e + ordinal - 1);
    if ordinal <= 365 {
        lemma_fundamental_div_mod_converse(d0, 146097, a, 36524 * b + 1461 * c + 365 * e + ordinal - 1);
        lemma_fundamental_div_mod_converse(36524 * b + 1461 * c + 365 * e + ordinal - 1, 36524, b, 1461 * c + 365 * e + ordinal - 1);
        lemma_fundamental_div_mod_converse(1461 * c + 365 * e + ordinal - 1, 1461, c, 365 * e + ordinal - 1);
        lemma_fundamental_div_mod_converse(365 * e + ordinal - 1, 365, e, ordinal - 1);
    } else if b == 3 && c == 24 {
        lemma_fundamental_div_mod_converse(d0, 146097, a, 146096);
        lemma_fundamental_div_mod_converse(146096, 36524, 4, 0);
    } else {
        lemma_fundamental_div_mod_converse(d0, 146097, a, 36524 * b + 1461 * c + 1460);
        lemma_fundamental_div_mod_converse(36524 * b + 1461 * c + 1460, 36524, b, 1461 * c + 1460);
        lemma_fundamental_div_mod_converse(1461 * c + 1460, 1461, c, 1460);
        lemma_fundamental_div_mod_converse(1460, 365, 4, 0);
    }
}

/// Months follow each other without gap: each starts where the previous
/// one ends, and December ends with the year.
proof fn lemma_gregorian_months(year: int)
    ensures
        forall|m: int|
            1 <= m < 12 ==> #[trigger] days_before_month(year, m + 1) == days_before_month(year, m)
                + last_day_of_gregorian_month(year, m),
        days_before_month(year, 1) == 0,
        days_before_month(year, 12) + 31 == days_in_gregorian_year(year),
{
    assert forall|m: int| 1 <= m < 12 implies #[trigger] days_before_month(year, m + 1)
        == days_before_month(year, m) + last_day_of_gregorian_month(year, m) by {
        assert(m == 1 || m == 2 || m == 3 || m == 4 || m == 5 || m == 6 || m == 7 || m == 8 || m
            == 9 || m == 10 || m == 11);
    }
}

/// Going from a valid date to its fixed day and back gives the same date.
pub proof fn lemma_gregorian_round_trip(date: Gregorian)
    requires
        valid_gregorian(date),
    ensures
        gregorian_from_fixed_spec(
            fixed_from_gregorian_spec(date.year as int, date.month as int, date.day as int),
        ) == (date.year as int, date.month as int, date.day as int),
{
    lemma_gregorian_round_trip_parts(date.year as int, date.month as int, date.day as int);
}

proof fn lemma_gregorian_round_trip_parts(year: int, m: int, day: int)
    requires
        1 <= m <= 12,
        1 <= day <= last_day_of_gregorian_month(year, m),
    ensures
        gregorian_from_fixed_spec(fixed_from_gregorian_spec(year, m, day)) == (year, m, day),
{
    let ordinal = days_before_month(year, m) + day;
    lemma_gregorian_months(year);
    assert(1 <= ordinal <= days_in_gregorian_year(year)) by {
        assert(m == 1 || m == 2 || m == 3 || m == 4 || m == 5 || m == 6 || m == 7 || m == 8 || m
            == 9 || m == 10 || m == 11 || m == 12);
    }
    lemma_gregorian_year_from_ordinal(year, ordinal);
    lemma_month_from_ordinal(year, ordinal);
    assert(month_from_ordinal(year, ordinal) == m) by {
        assert(m == 1 || m == 2 || m == 3 || m == 4 || m == 5 || m == 6 || m == 7 || m == 8 || m
            == 9 || m == 10 || m == 11 || m == 12);
    }
}

/// Going from a fixed day to its date and back gives the same fixed day.
pub proof fn lemma_gregorian_inverse_round_trip(date: int)
    ensures
        ({
            let (y, m, d) = gregorian_from_fixed_spec(date);
            fixed_from_gregorian_spec(y, m, d) == date
        }),
{
    lemma_gregorian_year_from_fixed(date);
    let (year, ordinal) = gregorian_year_from_fixed_spec(date);
    lemma_month_from_ordinal(year, ordinal);
}

/// The Gregorian date of a fixed day.
pub fn gregorian_from_fixed(date: RD) -> (r: Gregorian)
    requires
        fixed_in_range(date as int),
    ensures
        (r.year as int, r.month as int, r.day as int) == gregorian_from_fixed_spec(date as int),
        valid_gregorian(r),
        fixed_from_gregorian_spec(r.year as int, r.month as int, r.day as int) == date,
{
    let (year, days) = gregorian_year_from_fixed(date);
    proof {
        lemma_month_from_ordinal(year as int, days as int);
    }
    let march1 = fixed_from_gregorian(Gregorian { year, month: 3, day: 1 });
    let correction = if date < march1 {
        0
    } else if is_leap_year(year) {
        1
    } else {
        2
    };
    let month = divide(12 * (days - 1 + correction) + 373, 367).0;
    let day = date - fixed_from_gregorian(Gregorian { year, month, day: 1 }) + 1;
    Gregorian { year, month, day }
}

/// `fixed - other`, the number of days from `date2` to `date1`.
pub fn gregorian_date_difference(date1: Gregorian, date2: Gregorian) -> (r: i32)
    requires
        valid_gregorian(date1),
        valid_gregorian(date2),
    ensures
        r == fixed_from_gregorian_spec(date1.year as int, date1.month as int, date1.day as int)
            - fixed_from_gregorian_spec(date2.year as int, date2.month as int, date2.day as int),
{
    fixed_from_gregorian(date1) - fixed_from_gregorian(date2)
}

/// `gregorian_date_difference` of a date and the last day of its year: the
/// days left in the year, counted as a number at most zero.
pub fn days_remaining(date: Gregorian) -> (r: i32)
    requires
        valid_gregorian(date),
    ensures
        r == fixed_from_gregorian_spec(date.year as int, date.month as int, date.day as int)
            - fixed_from_gregorian_spec(date.year as int, 12, 31),
        r <= 0,
{
    proof {
        lemma_gregorian_months(date.year as int);
        assert(days_before_month(date.year as int, date.month as int) + date.day <= days_in_gregorian_year(date.year as int)) by {
            let m = date.month as int;
            assert(m == 1 || m == 2 || m == 3 || m == 4 || m == 5 || m == 6 || m == 7 || m == 8 || m
                == 9 || m == 10 || m == 11 || m == 12);
        }
    }
    gregorian_date_difference(date, Gregorian { year: date.year, month: 12, day: 31 })
}

/// Days from 1 March to `day` of month `m`, months counted from March.
pub open spec fn days_from_march(m: int, day: int) -> int {
    (3 * m - 1) / 5 + 30 * (m - 1) + day
}

/// Fixed day of a Gregorian date counted in a year that starts in March,
/// so that February's irregular length falls at the end.
pub open spec fn alt_fixed_from_gregorian_spec(year: int, month: int, day: int) -> int {
    let y = year + (month + 9) / 12 - 1;
    let m = if (month - 2) % 12 == 0 {
        12
    } else {
        (month - 2) % 12
    };
    EPOCH - 1 - 306 + 365 * y + y / 4 - y / 100 + y / 400 + days_from_march(m, day)
}

/// The two ways of counting agree: the March-based formula gives the fixed
/// day of the direct one for every valid date.
pub proof fn lemma_alt_fixed_from_gregorian(date: Gregorian)
    requires
        valid_gregorian(date),
    ensures
        alt_fixed_from_gregorian_spec(date.year as int, date.month as int, date.day as int)
            == fixed_from_gregorian_spec(date.year as int, date.month as int, date.day as int),
{
    let year = date.year as int;
    let m = date.month as int;
    lemma_gregorian_year_length(year);
    lemma_fundamental_div_mod_converse(m + 9, 12, (m + 9) / 12, (m + 9) % 12);
    assert(m == 1 || m == 2 || m == 3 || m == 4 || m == 5 || m == 6 || m == 7 || m == 8 || m == 9
        || m == 10 || m == 11 || m == 12);
}

/// Fixed day of a Gregorian date, by the March-based count.
pub fn alt_fixed_from_gregorian(date: Gregorian) -> (r: RD)
    requires
        valid_gregorian(date),
    ensures
        r == alt_fixed_from_gregorian_spec(date.year as int, date.month as int, date.day as int),
        r == fixed_from_gregorian_spec(date.year as int, date.month as int, date.day as int),
{
    proof {
        lemma_alt_fixed_from_gregorian(date);
    }
    let y = date.year + divide(date.month + 9, 12).0 - 1;
    let m = alternate_divide(date.month - 2, 12).1;
    EPOCH - 1 - 306 + 365 * y + divide(y, 4).0 - divide(y, 100).0 + divide(y, 400).0 + divide(
        3 * m - 1,
        5,
    ).0 + 30 * (m - 1) + date.day
}

/// Year that holds a fixed day, estimated from the mean year of
/// 146097/400 days and corrected by one comparison with the next new year.
pub open spec fn alt_gregorian_year_spec(date: int) -> int {
    let approx = ((date - EPOCH + 2) * 400) / 146097;
    let start = EPOCH + 365 * approx + approx / 4 - approx / 100 + approx / 400;
    if date < start {
        approx
    } else {
        approx + 1
    }
}

/// A year that holds a fixed day between its new year and the next is the
/// year `gregorian_year_from_fixed` finds.
proof fn lemma_gregorian_year_unique(date: int, year: int)
    requires
        fixed_from_gregorian_spec(year, 1, 1) <= date < fixed_from_gregorian_spec(year + 1, 1, 1),
    ensures
        gregorian_year_from_fixed_spec(date).0 == year,
{
    lemma_gregorian_year_from_fixed(date);
    let found = gregorian_year_from_fixed_spec(date).0;
    lemma_gregorian_year_length(found);
    if found < year {
        lemma_gregorian_year_ordering(found + 1, year);
    } else if found > year {
        lemma_gregorian_year_ordering(year + 1, found);
    }
}

/// The mean-year estimate finds the year of a fixed day.
pub proof fn lemma_alt_gregorian_year(date: int)
    ensures
        alt_gregorian_year_spec(date) == gregorian_year_from_fixed_spec(date).0,
{
    let x = (date - EPOCH + 2) * 400;
    lemma_fundamental_div_mod(x, 146097);
    lemma_mod_bound(x, 146097);
    let approx = x / 146097;
    lemma_gregorian_year_end_bounds(approx - 1);
    lemma_gregorian_year_end_bounds(approx);
    lemma_gregorian_year_end_bounds(approx + 1);
    let year = alt_gregorian_year_spec(date);
    assert(fixed_from_gregorian_spec(year, 1, 1) <= date < fixed_from_gregorian_spec(year + 1, 1, 1));
    lemma_gregorian_year_unique(date, year);
}

/// Year of a fixed day by the mean-year estimate, and the day's ordinal in
/// that year.
pub fn alt_gregorian_year_from_fixed(date: RD) -> (r: (i32, i32))
    requires
        MIN_FIXED <= date <= MAX_FIXED + 306,
    ensures
        r.0 == alt_gregorian_year_spec(date as int),
        r.0 == gregorian_year_from_fixed_spec(date as int).0,
        r.1 == date - fixed_from_gregorian_spec(r.0 as int, 1, 1) + 1,
        year_in_range(r.0 as int),
{
    proof {
        lemma_alt_gregorian_year(date as int);
    }
    let scaled: i64 = (date as i64 - EPOCH as i64 + 2) * 400;
    let approx = (if scaled >= 0 {
        scaled / 146097
    } else {
        -((-scaled + 146096) / 146097)
    }) as i32;
    proof {
        let s = scaled as int;
        if s < 0 {
            lemma_fundamental_div_mod(-s + 146096, 146097);
            lemma_mod_bound(-s + 146096, 146097);
            lemma_fundamental_div_mod(s, 146097);
            lemma_mod_bound(s, 146097);
        }
        assert(approx == s / 146097);
    }
    let start = EPOCH + 365 * approx + divide(approx, 4).0 - divide(approx, 100).0 + divide(
        approx,
        400,
    ).0;
    let year = if date < start {
        approx
    } else {
        approx + 1
    };
    (year, date - alt_fixed_from_gregorian(Gregorian { year, month: 1, day: 1 }) + 1)
}

/// Year, month and day of a fixed day by the March-based count.
pub open spec fn alt_gregorian_from_fixed_spec(date: int) -> (int, int, int) {
    let y = alt_gregorian_year_spec(EPOCH - 1 + date + 306);
    let prior_days = date - fixed_from_gregorian_spec(y - 1, 3, 1);
    let month = if ((5 * prior_days + 2) / 153 + 3) % 12 == 0 {
        12
    } else {
        ((5 * prior_days + 2) / 153 + 3) % 12
    };
    let year = y - (month + 9) / 12;
    (year, month, date - fixed_from_gregorian_spec(year, month, 1) + 1)
}

proof fn lemma_march_month(p: int, leap: bool)
    requires
        0 <= p < 365 + if leap { 1int } else { 0int },
    ensures
        ({
            let k = (5 * p + 2) / 153 + 3;
            let m = if k % 12 == 0 { 12 } else { k % 12 };
            let offset = if m >= 3 { (367 * m - 362) / 12 - 61 } else if m == 1 { 306int } else { 337int };
            let last = if m == 2 {
                if leap { 29int } else { 28int }
            } else if m == 4 || m == 6 || m == 9 || m == 11 {
                30int
            } else {
                31int
            };
            &&& 1 <= m <= 12
            &&& offset <= p < offset + last
        }),
{
}

/// The March-based count finds the same date as the direct one.
pub proof fn lemma_alt_gregorian_from_fixed(date: int)
    ensures
        alt_gregorian_from_fixed_spec(date) == gregorian_from_fixed_spec(date),
{
    let shifted = EPOCH - 1 + date + 306;
    lemma_alt_gregorian_year(shifted);
    lemma_gregorian_year_from_fixed(shifted);
    let y = alt_gregorian_year_spec(shifted);
    lemma_gregorian_year_length(y);
    lemma_gregorian_year_length(y - 1);
    let march1 = fixed_from_gregorian_spec(y - 1, 3, 1);
    assert(fixed_from_gregorian_spec(y, 1, 1) == march1 + 306);
    let p = date - march1;
    lemma_march_month(p, is_leap_year_spec(y));
    let (year, month, day) = alt_gregorian_from_fixed_spec(date);
    assert(fixed_from_gregorian_spec(year, month, 1) == march1 + (if month >= 3 {
        (367 * month - 362) / 12 - 61
    } else if month == 1 {
        306int
    } else {
        337int
    }));
    lemma_gregorian_round_trip_parts(year, month, day);
}

/// The Gregorian date of a fixed day, by the March-based count.
pub fn alt_gregorian_from_fixed(date: RD) -> (r: Gregorian)
    requires
        fixed_in_range(date as int),
    ensures
        (r.year as int, r.month as int, r.day as int) == alt_gregorian_from_fixed_spec(date as int),
        (r.year as int, r.month as int, r.day as int) == gregorian_from_fixed_spec(date as int),
        valid_gregorian(r),
{
    proof {
        lemma_alt_gregorian_from_fixed(date as int);
        lemma_gregorian_inverse_round_trip(date as int);
        lemma_gregorian_year_from_fixed(date as int);
        let (year, ordinal) = gregorian_year_from_fixed_spec(date as int);
        lemma_month_from_ordinal(year, ordinal);
    }
    let (y, _) = alt_gregorian_year_from_fixed(EPOCH - 1 + date + 306);
    let prior_days = date - alt_fixed_from_gregorian(Gregorian { year: y - 1, month: 3, day: 1 });
    let month = alternate_divide(divide(5 * prior_days + 2, 153).0 + 3, 12).1;
    let year = y - divide(month + 9, 12).0;
    let day = date - alt_fixed_from_gregorian(Gregorian { year, month, day: 1 }) + 1;
    Gregorian { year, month, day }
}

/// Fixed days of supported dates stay well inside `i32`.
pub proof fn lemma_gregorian_fixed_bounds(year: int, month: int, day: int)
    requires
        year_in_range(year),
        1 <= month <= 12,
        1 <= day <= 31,
    ensures
        -110_000_000 <= fixed_from_gregorian_spec(year, month, day) <= 110_000_000,
{
}

/// Fixed day of 4 July of a year.
pub fn independence_day(year: i32) -> (r: RD)
    requires
        year_in_range(year as int),
    ensures
        r == fixed_from_gregorian_spec(year as int, 7, 4),
{
    fixed_from_gregorian(Gregorian { year, month: 7, day: 4 })
}

/// The `n`-th weekday `k` after a Gregorian date (`n > 0`), or the `|n|`-th
/// one before it (`n < 0`).
pub fn nth_kday(n: i32, k: i32, date: Gregorian) -> (r: RD)
    requires
        valid_gregorian(date),
        n != 0,
        is_weekday(k as int),
        i32::MIN <= 7 * n <= i32::MAX,
        i32::MIN + 7 <= fixed_from_gregorian_spec(date.year as int, date.month as int, date.day as int)
            + 7 * n <= i32::MAX - 7,
    ensures
        r == nth_kday_spec(
            fixed_from_gregorian_spec(date.year as int, date.month as int, date.day as int),
            n as int,
            k as int,
        ),
        day_of_week(r as int) == k,
{
    proof {
        lemma_gregorian_fixed_bounds(date.year as int, date.month as int, date.day as int);
    }
    base_nth_kday(fixed_from_gregorian(date), n, k)
}

/// The first weekday `k` on or after a Gregorian date.
pub fn first_kday(k: i32, date: Gregorian) -> (r: RD)
    requires
        valid_gregorian(date),
        is_weekday(k as int),
    ensures
        r == nth_kday_spec(
            fixed_from_gregorian_spec(date.year as int, date.month as int, date.day as int),
            1,
            k as int,
        ),
        day_of_week(r as int) == k,
        fixed_from_gregorian_spec(date.year as int, date.month as int, date.day as int) <= r
            < fixed_from_gregorian_spec(date.year as int, date.month as int, date.day as int) + 7,
{
    proof {
        lemma_gregorian_fixed_bounds(date.year as int, date.month as int, date.day as int);
    }
    nth_kday(1, k, date)
}

/// The last weekday `k` on or before a Gregorian date.
pub fn last_kday(k: i32, date: Gregorian) -> (r: RD)
    requires
        valid_gregorian(date),
        is_weekday(k as int),
    ensures
        r == nth_kday_spec(
            fixed_from_gregorian_spec(date.year as int, date.month as int, date.day as int),
            -1,
            k as int,
        ),
        day_of_week(r as int) == k,
        fixed_from_gregorian_spec(date.year as int, date.month as int, date.day as int) - 7 < r
            <= fixed_from_gregorian_spec(date.year as int, date.month as int, date.day as int),
{
    proof {
        lemma_gregorian_fixed_bounds(date.year as int, date.month as int, date.day as int);
    }
    nth_kday(-1, k, date)
}

/// Labor Day: the first Monday of September.
pub fn labor_day(year: i32) -> (r: RD)
    requires
        year_in_range(year as int),
    ensures
        r == nth_kday_spec(fixed_from_gregorian_spec(year as int, 9, 1), 1, 1),
        day_of_week(r as int) == 1,
        fixed_from_gregorian_spec(year as int, 9, 1) <= r < fixed_from_gregorian_spec(year as int, 9, 1) + 7,
{
    first_kday(1, Gregorian { year, month: 9, day: 1 })
}

/// Memorial Day: the last Monday of May.
pub fn memorial_day(year: i32) -> (r: RD)
    requires
        year_in_range(year as int),
    ensures
        r == nth_kday_spec(fixed_from_gregorian_spec(year as int, 5, 31), -1, 1),
        day_of_week(r as int) == 1,
        fixed_from_gregorian_spec(year as int, 5, 31) - 7 < r <= fixed_from_gregorian_spec(year as int, 5, 31),
{
    last_kday(1, Gregorian { year, month: 5, day: 31 })
}

/// Election Day: the first Tuesday after the first Monday of November.
pub fn election_day(year: i32) -> (r: RD)
    requires
        year_in_range(year as int),
    ensures
        r == nth_kday_spec(fixed_from_gregorian_spec(year as int, 11, 2), 1, 2),
        day_of_week(r as int) == 2,
        fixed_from_gregorian_spec(year as int, 11, 2) <= r < fixed_from_gregorian_spec(year as int, 11, 2) + 7,
{
    first_kday(2, Gregorian { year, month: 11, day: 2 })
}

/// Start of daylight saving time: the first Sunday of April.
pub fn daylight_saving_start(year: i32) -> (r: RD)
    requires
        year_in_range(year as int),
    ensures
        r == nth_kday_spec(fixed_from_gregorian_spec(year as int, 4, 1), 1, 0),
        day_of_week(r as int) == 0,
        fixed_from_gregorian_spec(year as int, 4, 1) <= r < fixed_from_gregorian_spec(year as int, 4, 1) + 7,
{
    first_kday(0, Gregorian { year, month: 4, day: 1 })
}

/// End of daylight saving time: the last Sunday of October.
pub fn daylight_saving_end(year: i32) -> (r: RD)
    requires
        year_in_range(year as int),
    ensures
        r == nth_kday_spec(fixed_from_gregorian_spec(year as int, 10, 31), -1, 0),
        day_of_week(r as int) == 0,
        fixed_from_gregorian_spec(year as int, 10, 31) - 7 < r <= fixed_from_gregorian_spec(year as int, 10, 31),
{
    last_kday(0, Gregorian { year, month: 10, day: 31 })
}

} // verus!
