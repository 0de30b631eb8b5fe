use crate::common::{divide, fixed_in_range, year_in_range, RD, MAX_YEAR};
use vstd::arithmetic::div_mod::{lemma_fundamental_div_mod, lemma_fundamental_div_mod_converse, lemma_mod_bound};
use vstd::prelude::*;

verus! {

/// Fixed day of 1 Tishrei of year 1 (7 October 3761 BCE, Julian).
pub const EPOCH: i32 = -1373427;

/// A date of the Hebrew calendar. Months are numbered from Nisan (1); the
/// year begins with Tishrei (7); month 13 is the second Adar of leap
/// years.
#[derive(Clone, Copy, Debug, PartialEq, Eq, Structural)]
pub struct Hebrew {
    pub year: i32,
    pub month: i32,
    pub day: i32,
}

/// The mean new moon of a month: its day, and the hour (from 0), minute
/// and part (1/1080 of an hour, taken here 18 parts to a minute) of it.
#[derive(Clone, Copy, Debug, PartialEq, Eq, Structural)]
pub struct Molad {
    pub date: RD,
    pub hour: i32,
    pub minute: i32,
    pub chalakim: i32,
}

/// Years of the Hebrew calendar that the conversions accept: the bound
/// leaves room for the neighbouring years that the new-year rules consult.
pub open spec fn hebrew_year_in_range(year: int) -> bool {
    -MAX_YEAR + 1 <= year <= MAX_YEAR - 2
}

/// Seven years of each 19-year cycle have a thirteenth month.
pub open spec fn is_hebrew_leap_year_spec(year: int) -> bool {
    (7 * year + 1) % 19 < 7
}

/// The last month of a year: 13 in leap years, else 12.
pub open spec fn last_month_of_hebrew_year_spec(year: int) -> int {
    if is_hebrew_leap_year_spec(year) {
        13
    } else {
        12
    }
}

/// Months elapsed from the epoch's Tishrei to month `month` of `year`.
pub open spec fn months_elapsed(month: int, year: int) -> int {
    month - 7 + (235 * year - 234) / 19
}

/// Parts (1/25920 of a day) past the start of the molad's day.
pub open spec fn molad_parts(month: int, year: int) -> int {
    let m = months_elapsed(month, year);
    (m * 793 - 876 + 12960 * (m % 2)) % 25920
}

/// Days from the epoch to the day of the molad, by mean months of
/// 29 days, 12 hours and 793 parts.
pub open spec fn molad_days(month: int, year: int) -> int {
    let m = months_elapsed(month, year);
    m * 29 + m / 2 + (m * 793 - 876 + 12960 * (m % 2)) / 25920
}

/// The molad of a month.
pub open spec fn molad_spec(month: int, year: int) -> (int, int, int, int) {
    let parts = molad_parts(month, year);
    (EPOCH + molad_days(month, year), parts / 1080, (parts % 1080) / 18, (parts % 1080) % 18)
}

/// Days from the epoch to the new year, after the postponements for a
/// molad at or after noon and for a new year that would fall on Sunday,
/// Wednesday or Friday.
pub open spec fn hebrew_calendar_elapsed_days_spec(year: int) -> int {
    let day = molad_days(7, year) + if molad_parts(7, year) / 1080 >= 12 {
        1int
    } else {
        0int
    };
    if (3 * (day + 1)) % 7 < 3 {
        day + 1
    } else {
        day
    }
}

/// Further postponement that keeps the lengths of this year and the one
/// before it in range.
pub open spec fn hebrew_new_year_delay_spec(year: int) -> int {
    let ny0 = hebrew_calendar_elapsed_days_spec(year - 1);
    let ny1 = hebrew_calendar_elapsed_days_spec(year);
    let ny2 = hebrew_calendar_elapsed_days_spec(year + 1);
    if ny2 - ny1 == 356 {
        2
    } else if ny1 - ny0 == 382 {
        1
    } else {
        0
    }
}

/// Fixed day of 1 Tishrei of a year.
#[verifier::opaque]
pub open spec fn hebrew_new_year_spec(year: int) -> int {
    EPOCH + hebrew_calendar_elapsed_days_spec(year) + hebrew_new_year_delay_spec(year)
}

/// Whether a year has 13 months.
pub fn is_hebrew_leap_year(year: i32) -> (r: bool)
    requires
        year_in_range(year as int),
    ensures
        r == is_hebrew_leap_year_spec(year as int),
{
    divide(7 * year + 1, 19).1 < 7
}

/// The last month of a year: 13 in leap years, else 12.
pub fn last_month_of_hebrew_year(year: i32) -> (r: i32)
    requires
        year_in_range(year as int),
    ensures
        r == last_month_of_hebrew_year_spec(year as int),
{
    if is_hebrew_leap_year(year) {
        13
    } else {
        12
    }
}

/// The mean new moon (molad) of month `month` of `year`.
pub fn molad(month: i32, year: i32) -> (r: Molad)
    requires
        year_in_range(year as int),
        1 <= month <= 13,
    ensures
        (r.date as int, r.hour as int, r.minute as int, r.chalakim as int) == molad_spec(
            month as int,
            year as int,
        ),
        0 <= r.hour < 24,
{
    let months_elapsed = month - 7 + divide(235 * year - 234, 19).0;
    let half_days_elapsed = divide(months_elapsed, 2);
    let m = months_elapsed as i64;
    let scaled: i64 = m * 793 - 876 + 12960 * (half_days_elapsed.1 as i64);
    let parts_day: i64 = if scaled >= 0 {
        scaled / 25920
    } else {
        -((-scaled + 25919) / 25920)
    };
    let parts = scaled - 25920 * parts_day;
    proof {
        let s = scaled as int;
        lemma_fundamental_div_mod(s, 25920);
        lemma_mod_bound(s, 25920);
        if s < 0 {
            lemma_fundamental_div_mod(-s + 25919, 25920);
            lemma_mod_bound(-s + 25919, 25920);
        }
        assert(parts_day == s / 25920);
    }
    let chalakim_elapsed = (parts_day as i32, parts as i32);
    let elapsed_days = months_elapsed * 29 + half_days_elapsed.0 + chalakim_elapsed.0;
    let hours = divide(chalakim_elapsed.1, 1080);
    let minutes = divide(hours.1, 18);
    Molad { date: EPOCH + elapsed_days, hour: hours.0, minute: minutes.0, chalakim: minutes.1 }
}

/// Days from the epoch to the new year, before the delay that keeps year
/// lengths in range.
pub fn hebrew_calendar_elapsed_days(year: i32) -> (r: i32)
    requires
        year_in_range(year as int),
    ensures
        r == hebrew_calendar_elapsed_days_spec(year as int),
{
    let molad = molad(7, year);
    let day = if molad.hour >= 12 {
        molad.date + 1
    } else {
        molad.date
    } - EPOCH;
    if divide(3 * (day + 1), 7).1 < 3 {
        day + 1
    } else {
        day
    }
}

/// The delay of 0, 1 or 2 days applied to the new year of `year`.
pub fn hebrew_new_year_delay(year: i32) -> (r: i32)
    requires
        year_in_range(year - 1),
        year_in_range(year + 1),
    ensures
        r == hebrew_new_year_delay_spec(year as int),
        0 <= r <= 2,
{
    let ny0 = hebrew_calendar_elapsed_days(year - 1);
    let ny1 = hebrew_calendar_elapsed_days(year);
    let ny2 = hebrew_calendar_elapsed_days(year + 1);
    if ny2 - ny1 == 356 {
        2
    } else if ny1 - ny0 == 382 {
        1
    } else {
        0
    }
}

/// Fixed day of 1 Tishrei of `year`.
pub fn hebrew_new_year(year: i32) -> (r: RD)
    requires
        year_in_range(year - 1),
        year_in_range(year + 1),
    ensures
        r == hebrew_new_year_spec(year as int),
{
    proof {
        reveal(hebrew_new_year_spec);
    }
    EPOCH + hebrew_calendar_elapsed_days(year) + hebrew_new_year_delay(year)
}

/// New years keep close to the mean year of 35975351/98496 days: scaled by
/// 492480, the distance of the new year of `year` from `year - 1` mean years
/// lies in a fixed window.
pub proof fn lemma_hebrew_new_year_bounds(year: int)
    ensures
        -13_600_000 <= 492480 * (hebrew_new_year_spec(year) - EPOCH) - 179876755 * (year - 1)
            <= 2_800_000,
{
    reveal(hebrew_new_year_spec);
    lemma_molad_days_bounds(year);
    lemma_elapsed_days_near_molad(year);
    lemma_delay_range(year);
}

proof fn lemma_delay_range(year: int)
    ensures
        0 <= hebrew_new_year_delay_spec(year) <= 2,
{
}

proof fn lemma_elapsed_days_near_molad(year: int)
    ensures
        0 <= hebrew_calendar_elapsed_days_spec(year) - molad_days(7, year) <= 2,
{
}

proof fn lemma_molad_days_bounds(year: int)
    ensures
        -13_600_000 + 179876755 * (year - 1) <= 492480 * molad_days(7, year)
            <= 179876755 * (year - 1) + 2_800_000 - 4 * 492480,
{
    let n = 235 * year - 234;
    let m = months_elapsed(7, year);
    lemma_fundamental_div_mod(n, 19);
    lemma_mod_bound(n, 19);
    let r = n % 19;
    assert(n == 19 * m + r);
    let h = m / 2;
    let p = m % 2;
    lemma_fundamental_div_mod(m, 2);
    lemma_mod_bound(m, 2);
    let x = m * 793 - 876 + 12960 * p;
    let c = x / 25920;
    let e = x % 25920;
    lemma_fundamental_div_mod(x, 25920);
    lemma_mod_bound(x, 25920);
    let ed = molad_days(7, year);
    assert(ed == 29 * m + h + c);
    assert(25920 * ed == 765433 * m - 876 - e);
    assert(492480 * ed == 179876755 * (year - 1) + 748789 - 765433 * r - 19 * e);
}

/// New years follow each other by at least 330 days.
pub proof fn lemma_hebrew_new_year_increasing(year: int)
    ensures
        hebrew_new_year_spec(year) + 330 <= hebrew_new_year_spec(year + 1),
{
    lemma_hebrew_new_year_bounds(year);
    lemma_hebrew_new_year_bounds(year + 1);
    let a = hebrew_new_year_spec(year);
    let b = hebrew_new_year_spec(year + 1);
    assert(492480 * (b - EPOCH) - 179876755 * year >= -13_600_000);
    assert(492480 * (a - EPOCH) - 179876755 * (year - 1) <= 2_800_000);
    assert(492480 * (b - a) >= 179876755 - 16_400_000);
}

/// New years of supported years are fixed days well inside `i32`.
pub proof fn lemma_hebrew_new_year_range(year: int)
    requires
        year_in_range(year),
    ensures
        -120_000_000 <= hebrew_new_year_spec(year) <= 120_000_000,
{
    lemma_hebrew_new_year_bounds(year);
    let a = hebrew_new_year_spec(year);
    assert(492480 * (a - EPOCH) <= 179876755 * (year - 1) + 2_800_000);
    assert(492480 * (a - EPOCH) >= 179876755 * (year - 1) - 13_600_000);
    assert(179876755 * (year - 1) <= 179876755 * 300000);
    assert(179876755 * (year - 1) >= -179876755 * 300001);
}

/// The mean-year estimate `approx` of a fixed day's year is at most one
/// year off: the new year of `approx - 1` is on or before the day and the
/// one of `approx + 2` after it.
pub proof fn lemma_hebrew_year_bracket(date: int, approx: int)
    requires
        35975351 * (approx - 1) <= 98496 * (date - EPOCH) < 35975351 * approx,
    ensures
        hebrew_new_year_spec(approx - 1) <= date < hebrew_new_year_spec(approx + 2),
{
    lemma_hebrew_new_year_bounds(approx - 1);
    lemma_hebrew_new_year_bounds(approx + 2);
    let a = hebrew_new_year_spec(approx - 1);
    let b = hebrew_new_year_spec(approx + 2);
    assert(492480 * (a - EPOCH) <= 179876755 * (approx - 2) + 2_800_000);
    assert(492480 * (b - EPOCH) >= 179876755 * (approx + 1) - 13_600_000);
    assert(492480 * (date - EPOCH) >= 179876755 * (approx - 1));
    assert(492480 * (date - EPOCH) < 179876755 * approx);
}

/// Days from the epoch to the new year for a molad `instant` parts (of
/// 25920 to a day) after the epoch's, before the delay: the day of the
/// molad, one later from noon on, one later again on Sunday, Wednesday or
/// Friday.
pub open spec fn elapsed_days_from_instant(instant: int) -> int {
    let day = (instant + 12960) / 25920;
    if (3 * (day + 1)) % 7 < 3 {
        day + 1
    } else {
        day
    }
}

/// The molad of Tishrei of `year`, in parts after the epoch's midnight.
pub open spec fn molad_instant(year: int) -> int {
    765433 * months_elapsed(7, year) - 876
}

proof fn lemma_elapsed_days_of_instant(year: int)
    ensures
        hebrew_calendar_elapsed_days_spec(year) == elapsed_days_from_instant(molad_instant(year)),
{
    let m = months_elapsed(7, year);
    lemma_fundamental_div_mod(m, 2);
    lemma_mod_bound(m, 2);
    let x = m * 793 - 876 + 12960 * (m % 2);
    lemma_fundamental_div_mod(x, 25920);
    lemma_mod_bound(x, 25920);
    let ed = molad_days(7, year);
    let e = x % 25920;
    assert(25920 * ed == 765433 * m - 876 - e);
    lemma_fundamental_div_mod_converse(
        molad_instant(year) + 12960,
        25920,
        ed + if e >= 12960 { 1int } else { 0int },
        if e >= 12960 { e - 12960 } else { e + 12960 },
    );
}

/// A year has 13 months exactly when 13 months elapse from its Tishrei to
/// the next.
proof fn lemma_months_in_year(year: int)
    ensures
        months_elapsed(7, year + 1) - months_elapsed(7, year) == if is_hebrew_leap_year_spec(year) {
            13int
        } else {
            12int
        },
{
    lemma_fundamental_div_mod(7 * year + 1, 19);
    lemma_mod_bound(7 * year + 1, 19);
    let q = (7 * year + 1) / 19;
    let r = (7 * year + 1) % 19;
    if r < 7 {
        lemma_fundamental_div_mod_converse(235 * year - 234, 19, 12 * year + q - 13, r + 12);
    } else {
        lemma_fundamental_div_mod_converse(235 * year - 234, 19, 12 * year + q - 12, r - 7);
    }
    lemma_fundamental_div_mod_converse(235 * (year + 1) - 234, 19, 12 * year + q, r);
}

/// Whole weeks of parts move the new year by whole weeks.
proof fn lemma_elapsed_days_weekly(x: int, weeks: int)
    ensures
        elapsed_days_from_instant(x + 181440 * weeks) == elapsed_days_from_instant(x) + 7 * weeks,
{
    lemma_fundamental_div_mod(x + 12960, 25920);
    lemma_mod_bound(x + 12960, 25920);
    let d = (x + 12960) / 25920;
    lemma_fundamental_div_mod_converse(x + 181440 * weeks + 12960, 25920, d + 7 * weeks, (x + 12960) % 25920);
    lemma_fundamental_div_mod(3 * (d + 1), 7);
    lemma_mod_bound(3 * (d + 1), 7);
    lemma_fundamental_div_mod_converse(3 * (d + 7 * weeks + 1), 7, (3 * (d + 1)) / 7 + 3 * weeks, (3 * (d + 1)) % 7);
}

/// The length that three consecutive molads give a year, after the delays.
pub open spec fn year_length_from_instants(t0: int, t1: int, t2: int, t3: int) -> int {
    let e0 = elapsed_days_from_instant(t0);
    let e1 = elapsed_days_from_instant(t1);
    let e2 = elapsed_days_from_instant(t2);
    let e3 = elapsed_days_from_instant(t3);
    let delay = if e2 - e1 == 356 { 2int } else if e1 - e0 == 382 { 1int } else { 0int };
    let next_delay = if e3 - e2 == 356 { 2int } else if e2 - e1 == 382 { 1int } else { 0int };
    e2 + next_delay - e1 - delay
}

/// The postponement rules give common years 353 to 355 days and leap years
/// 383 to 385, wherever in the week the molad falls.
proof fn lemma_year_length_in_week(x: int, l0: bool, l1: bool, l2: bool)
    requires
        0 <= x < 181440,
        !(l0 && l1),
        !(l1 && l2),
    ensures
        ({
            let t1 = x + 765433 * (if l0 { 13int } else { 12int });
            let t2 = t1 + 765433 * (if l1 { 13int } else { 12int });
            let t3 = t2 + 765433 * (if l2 { 13int } else { 12int });
            let len = year_length_from_instants(x, t1, t2, t3);
            if l1 {
                383 <= len <= 385
            } else {
                353 <= len <= 355
            }
        }),
{
}

/// No two leap years follow each other.
proof fn lemma_no_consecutive_leap_years(year: int)
    ensures
        !(is_hebrew_leap_year_spec(year) && is_hebrew_leap_year_spec(year + 1)),
{
    lemma_fundamental_div_mod(7 * year + 1, 19);
    lemma_mod_bound(7 * year + 1, 19);
    lemma_fundamental_div_mod(7 * year + 8, 19);
    lemma_mod_bound(7 * year + 8, 19);
}

/// A common year has 353, 354 or 355 days, a leap year 383, 384 or 385.
pub proof fn lemma_hebrew_year_length(year: int)
    ensures
        if is_hebrew_leap_year_spec(year) {
            383 <= days_in_hebrew_year_spec(year) <= 385
        } else {
            353 <= days_in_hebrew_year_spec(year) <= 355
        },
{
    lemma_months_in_year(year - 1);
    lemma_months_in_year(year);
    lemma_months_in_year(year + 1);
    lemma_no_consecutive_leap_years(year - 1);
    lemma_no_consecutive_leap_years(year);
    let l0 = is_hebrew_leap_year_spec(year - 1);
    let l1 = is_hebrew_leap_year_spec(year);
    let l2 = is_hebrew_leap_year_spec(year + 1);
    let t0 = molad_instant(year - 1);
    let o1 = 765433 * (if l0 { 13int } else { 12int });
    let o2 = o1 + 765433 * (if l1 { 13int } else { 12int });
    let o3 = o2 + 765433 * (if l2 { 13int } else { 12int });
    assert(molad_instant(year) == t0 + o1);
    assert(molad_instant(year + 1) == t0 + o2);
    assert(molad_instant(year + 2) == t0 + o3);
    lemma_year_length_of_instants(year);
    lemma_fundamental_div_mod(t0, 181440);
    lemma_mod_bound(t0, 181440);
    let w = t0 / 181440;
    let x = t0 % 181440;
    lemma_year_length_weekly(x, o1, o2, o3, w);
    lemma_year_length_in_week(x, l0, l1, l2);
}

proof fn lemma_year_length_of_instants(year: int)
    ensures
        days_in_hebrew_year_spec(year) == year_length_from_instants(
            molad_instant(year - 1),
            molad_instant(year),
            molad_instant(year + 1),
            molad_instant(year + 2),
        ),
{
    reveal(hebrew_new_year_spec);
    lemma_elapsed_days_of_instant(year - 1);
    lemma_elapsed_days_of_instant(year);
    lemma_elapsed_days_of_instant(year + 1);
    lemma_elapsed_days_of_instant(year + 2);
}

proof fn lemma_year_length_weekly(x: int, o1: int, o2: int, o3: int, weeks: int)
    ensures
        year_length_from_instants(
            x + 181440 * weeks,
            x + 181440 * weeks + o1,
            x + 181440 * weeks + o2,
            x + 181440 * weeks + o3,
        ) == year_length_from_instants(x, x + o1, x + o2, x + o3),
{
    lemma_elapsed_days_weekly(x, weeks);
    lemma_elapsed_days_weekly(x + o1, weeks);
    lemma_elapsed_days_weekly(x + o2, weeks);
    lemma_elapsed_days_weekly(x + o3, weeks);
    assert(x + o1 + 181440 * weeks == x + 181440 * weeks + o1);
    assert(x + o2 + 181440 * weeks == x + 181440 * weeks + o2);
    assert(x + o3 + 181440 * weeks == x + 181440 * weeks + o3);
}

/// Number of days of a year.
pub open spec fn days_in_hebrew_year_spec(year: int) -> int {
    hebrew_new_year_spec(year + 1) - hebrew_new_year_spec(year)
}

/// Whether Marcheshvan (month 8) has 30 days: in complete years.
pub open spec fn is_long_marcheshvan_spec(year: int) -> bool {
    days_in_hebrew_year_spec(year) == 355 || days_in_hebrew_year_spec(year) == 385
}

/// Whether Kislev (month 9) has 29 days: in deficient years.
pub open spec fn is_short_kislev_spec(year: int) -> bool {
    days_in_hebrew_year_spec(year) == 353 || days_in_hebrew_year_spec(year) == 383
}

/// Number of days of a month of a year.
pub open spec fn last_day_of_hebrew_month_spec(month: int, year: int) -> int {
    if month == 2 || month == 4 || month == 6 || month == 10 || month == 13 {
        29
    } else if month == 12 && !is_hebrew_leap_year_spec(year) {
        29
    } else if month == 8 && !is_long_marcheshvan_spec(year) {
        29
    } else if month == 9 && is_short_kislev_spec(year) {
        29
    } else {
        30
    }
}

/// Days in months `from` up to `to - 1` of a year.
pub open spec fn hebrew_months_days(year: int, from: int, to: int) -> int
    decreases to - from,
{
    if from >= to {
        0
    } else {
        last_day_of_hebrew_month_spec(from, year) + hebrew_months_days(year, from + 1, to)
    }
}

/// Fixed day of a Hebrew date: the new year, then the months from Tishrei
/// on, wrapping from the last month to Nisan.
#[verifier::opaque]
pub open spec fn fixed_from_hebrew_spec(year: int, month: int, day: int) -> int {
    hebrew_new_year_spec(year) + day - 1 + if month < 7 {
        hebrew_months_days(year, 7, last_month_of_hebrew_year_spec(year) + 1) + hebrew_months_days(
            year,
            1,
            month,
        )
    } else {
        hebrew_months_days(year, 7, month)
    }
}

/// Number of days of a year.
pub fn days_in_hebrew_year(year: i32) -> (r: i32)
    requires
        hebrew_year_in_range(year as int),
    ensures
        r == days_in_hebrew_year_spec(year as int),
        r >= 330,
{
    proof {
        lemma_hebrew_new_year_increasing(year as int);
        lemma_hebrew_new_year_bounds(year as int);
        lemma_hebrew_new_year_bounds(year + 1);
    }
    hebrew_new_year(year + 1) - hebrew_new_year(year)
}

/// Whether Marcheshvan has 30 days in `year`.
pub fn is_long_marcheshvan(year: i32) -> (r: bool)
    requires
        hebrew_year_in_range(year as int),
    ensures
        r == is_long_marcheshvan_spec(year as int),
{
    match days_in_hebrew_year(year) {
        355 | 385 => true,
        _ => false,
    }
}

/// Whether Kislev has 29 days in `year`.
pub fn is_short_kislev(year: i32) -> (r: bool)
    requires
        hebrew_year_in_range(year as int),
    ensures
        r == is_short_kislev_spec(year as int),
{
    match days_in_hebrew_year(year) {
        353 | 383 => true,
        _ => false,
    }
}

fn month_days(month: i32, leap: bool, year_length: i32) -> (r: i32)
    ensures
        forall|year: int|
            leap == is_hebrew_leap_year_spec(year) && year_length == days_in_hebrew_year_spec(year)
                ==> r == #[trigger] last_day_of_hebrew_month_spec(month as int, year),
        29 <= r <= 30,
{
    match month {
        2 | 4 | 6 | 10 | 13 => 29,
        12 if !leap => 29,
        8 if !(year_length == 355 || year_length == 385) => 29,
        9 if year_length == 353 || year_length == 383 => 29,
        _ => 30,
    }
}

/// Number of days of month `month` of `year`.
pub fn last_day_of_hebrew_month(month: i32, year: i32) -> (r: i32)
    requires
        hebrew_year_in_range(year as int),
    ensures
        r == last_day_of_hebrew_month_spec(month as int, year as int),
{
    month_days(month, is_hebrew_leap_year(year), days_in_hebrew_year(year))
}

fn sum_month_days(from: i32, to: i32, leap: bool, year_length: i32, Ghost(year): Ghost<int>) -> (r: i32)
    requires
        1 <= from <= 14,
        1 <= to <= 14,
        leap == is_hebrew_leap_year_spec(year),
        year_length == days_in_hebrew_year_spec(year),
    ensures
        r == hebrew_months_days(year, from as int, to as int),
        0 <= r <= 30 * 14,
{
    let mut total: i32 = 0;
    let mut month = to;
    while month > from
        invariant
            1 <= from <= 14,
            1 <= to <= 14,
            leap == is_hebrew_leap_year_spec(year),
            year_length == days_in_hebrew_year_spec(year),
            from <= month <= to || (month == to && to < from),
            0 <= total <= 30 * (to - month),
            total == hebrew_months_days(year, month as int, to as int),
        decreases month - from,
    {
        month = month - 1;
        let d = month_days(month, leap, year_length);
        assert(d == last_day_of_hebrew_month_spec(month as int, year));
        total = total + d;
    }
    if to < from {
        assert(hebrew_months_days(year, from as int, to as int) == 0);
    }
    total
}

/// Hebrew date fields for which the day count stays inside `i32`.
pub open spec fn hebrew_parts_in_range(year: int, month: int, day: int) -> bool {
    hebrew_year_in_range(year) && 1 <= month <= 13 && -1000 <= day <= 1000
}

pub(crate) fn fixed_from_hebrew_parts(year: i32, month: i32, day: i32) -> (r: RD)
    requires
        hebrew_parts_in_range(year as int, month as int, day as int),
    ensures
        r == fixed_from_hebrew_spec(year as int, month as int, day as int),
        -121_000_000 <= r <= 121_000_000,
{
    let leap = is_hebrew_leap_year(year);
    let year_length = days_in_hebrew_year(year);
    proof {
        lemma_hebrew_new_year_range(year as int);
    }
    let new_year = hebrew_new_year(year);
    proof {
        reveal(fixed_from_hebrew_spec);
    }
    let months = if month < 7 {
        let last = if leap { 13 } else { 12 };
        sum_month_days(7, last + 1, leap, year_length, Ghost(year as int)) + sum_month_days(
            1,
            month,
            leap,
            year_length,
            Ghost(year as int),
        )
    } else {
        sum_month_days(7, month, leap, year_length, Ghost(year as int))
    };
    new_year + day - 1 + months
}

/// A Hebrew date whose month and day exist, in a supported year.
pub open spec fn valid_hebrew(date: Hebrew) -> bool {
    &&& hebrew_year_in_range(date.year as int)
    &&& 1 <= date.month <= last_month_of_hebrew_year_spec(date.year as int)
    &&& 1 <= date.day <= last_day_of_hebrew_month_spec(date.month as int, date.year as int)
}

/// Fixed day of a Hebrew date.
pub fn fixed_from_hebrew(date: Hebrew) -> (r: RD)
    requires
        valid_hebrew(date),
    ensures
        r == fixed_from_hebrew_spec(date.year as int, date.month as int, date.day as int),
{
    fixed_from_hebrew_parts(date.year, date.month, date.day)
}

fn hebrew_year_from_fixed(date: RD) -> (year: i32)
    requires
        fixed_in_range(date as int),
    ensures
        hebrew_year_in_range(year as int),
        hebrew_year_in_range(year + 1),
        hebrew_new_year_spec(year as int) <= date < hebrew_new_year_spec(year + 1),
{
    let scaled: i64 = 98496 * (date as i64 - EPOCH as i64);
    let quotient: i64 = if scaled >= 0 {
        scaled / 35975351
    } else {
        -((-scaled + 35975350) / 35975351)
    };
    proof {
        let sc = scaled as int;
        lemma_fundamental_div_mod(sc, 35975351);
        lemma_mod_bound(sc, 35975351);
        if sc < 0 {
            lemma_fundamental_div_mod(-sc + 35975350, 35975351);
            lemma_mod_bound(-sc + 35975350, 35975351);
        }
        assert(quotient == sc / 35975351);
    }
    let approx = quotient as i32 + 1;
    proof {
        lemma_hebrew_year_bracket(date as int, approx as int);
    }
    let year = if hebrew_new_year(approx + 1) <= date {
        approx + 1
    } else if hebrew_new_year(approx) <= date {
        approx
    } else {
        approx - 1
    };
    year
}

proof fn lemma_fixed_from_hebrew_day(year: int, month: int, day: int)
    ensures
        fixed_from_hebrew_spec(year, month, day) == fixed_from_hebrew_spec(year, month, 1) + day - 1,
{
    reveal(fixed_from_hebrew_spec);
}

/// The Hebrew year that holds a fixed day: the one whose new year is the
/// last on or before it.
pub open spec fn hebrew_year_of(date: int) -> int {
    choose|year: int| #[trigger] hebrew_new_year_spec(year) <= date < hebrew_new_year_spec(year + 1)
}

/// Only one year brackets a fixed day between its new year and the next.
pub proof fn lemma_hebrew_year_of(date: int, year: int)
    requires
        hebrew_new_year_spec(year) <= date < hebrew_new_year_spec(year + 1),
    ensures
        hebrew_year_of(date) == year,
{
    let other = hebrew_year_of(date);
    assert(hebrew_new_year_spec(other) <= date < hebrew_new_year_spec(other + 1));
    if other != year {
        let (a, b) = if other < year {
            (other, year)
        } else {
            (year, other)
        };
        lemma_hebrew_new_year_bounds(a + 1);
        lemma_hebrew_new_year_bounds(b);
        assert(hebrew_new_year_spec(a + 1) <= hebrew_new_year_spec(b)) by {
            if b > a + 1 {
                assert(492480 * (hebrew_new_year_spec(b) - hebrew_new_year_spec(a + 1)) >= 179876755 * (b - a - 1) - 16_400_000);
            }
        }
    }
}

/// The month in which the search for a fixed day's month starts: Tishrei
/// before the Nisan of its year, Nisan from then on.
pub open spec fn hebrew_start_month(year: int, date: int) -> int {
    if date < fixed_from_hebrew_spec(year, 1, 1) {
        7
    } else {
        1
    }
}

/// The month at which that search stops: the last month of the year, or
/// Elul (6) when it starts at Nisan.
pub open spec fn hebrew_end_month(year: int, date: int) -> int {
    if hebrew_start_month(year, date) == 7 {
        last_month_of_hebrew_year_spec(year)
    } else {
        6
    }
}

/// Whether month `month` of `year` ends before `date`.
pub open spec fn hebrew_month_ends_before(year: int, month: int, date: int) -> bool {
    fixed_from_hebrew_spec(year, month, last_day_of_hebrew_month_spec(month, year)) < date
}

/// The first month from `month` on that does not end before `date`, or
/// `end` if all up to it do.
pub open spec fn first_month_not_ending_before(year: int, date: int, month: int, end: int) -> int
    decreases end - month,
{
    if month >= end || !hebrew_month_ends_before(year, month, date) {
        month
    } else {
        first_month_not_ending_before(year, date, month + 1, end)
    }
}

/// Year, month and day of a fixed day in the Hebrew calendar.
pub open spec fn hebrew_from_fixed_spec(date: int) -> (int, int, int) {
    let year = hebrew_year_of(date);
    let month = first_month_not_ending_before(
        year,
        date,
        hebrew_start_month(year, date),
        hebrew_end_month(year, date),
    );
    (year, month, date - fixed_from_hebrew_spec(year, month, 1) + 1)
}

/// Days from the new year to the first of month `month`, from the lengths
/// of the months before it in the year's order (Tishrei first).
pub open spec fn hebrew_month_offset(year: int, month: int) -> int {
    let l8 = if is_long_marcheshvan_spec(year) { 30int } else { 29int };
    let l9 = if is_short_kislev_spec(year) { 29int } else { 30int };
    let l12 = if is_hebrew_leap_year_spec(year) { 30int } else { 29int };
    let autumn = 89 + l8 + l9 + l12 + if is_hebrew_leap_year_spec(year) { 29int } else { 0int };
    if month == 7 {
        0
    } else if month == 8 {
        30
    } else if month == 9 {
        30 + l8
    } else if month == 10 {
        30 + l8 + l9
    } else if month == 11 {
        59 + l8 + l9
    } else if month == 12 {
        89 + l8 + l9
    } else if month == 13 {
        89 + l8 + l9 + l12
    } else if month == 1 {
        autumn
    } else if month == 2 {
        autumn + 30
    } else if month == 3 {
        autumn + 59
    } else if month == 4 {
        autumn + 89
    } else if month == 5 {
        autumn + 118
    } else {
        autumn + 148
    }
}

proof fn lemma_hebrew_month_offset(year: int, month: int)
    requires
        1 <= month <= 13,
    ensures
        fixed_from_hebrew_spec(year, month, 1) == hebrew_new_year_spec(year) + hebrew_month_offset(
            year,
            month,
        ),
{
    reveal(fixed_from_hebrew_spec);
    reveal_with_fuel(hebrew_months_days, 8);
    assert(month == 1 || month == 2 || month == 3 || month == 4 || month == 5 || month == 6 || month
        == 7 || month == 8 || month == 9 || month == 10 || month == 11 || month == 12 || month == 13);
}

proof fn lemma_first_month_reached(year: int, date: int, month: int, end: int, target: int)
    requires
        month <= target <= end,
        forall|k: int| month <= k < target ==> #[trigger] hebrew_month_ends_before(year, k, date),
        target == end || !hebrew_month_ends_before(year, target, date),
    ensures
        first_month_not_ending_before(year, date, month, end) == target,
    decreases target - month,
{
    if month < target {
        assert(hebrew_month_ends_before(year, month, date));
        lemma_first_month_reached(year, date, month + 1, end, target);
    }
}

/// Going from a valid Hebrew date to its fixed day and back gives the same
/// date.
pub proof fn lemma_hebrew_round_trip(date: Hebrew)
    requires
        valid_hebrew(date),
    ensures
        hebrew_from_fixed_spec(fixed_from_hebrew_spec(date.year as int, date.month as int, date.day as int))
            == (date.year as int, date.month as int, date.day as int),
{
    let y = date.year as int;
    let m = date.month as int;
    let d = date.day as int;
    let f = fixed_from_hebrew_spec(y, m, d);
    lemma_hebrew_year_length(y);
    lemma_fixed_from_hebrew_day(y, m, d);
    lemma_hebrew_month_offset(y, m);
    lemma_hebrew_month_offset(y, 1);
    let ny = hebrew_new_year_spec(y);
    assert(ny <= f < hebrew_new_year_spec(y + 1)) by {
        assert(m == 1 || m == 2 || m == 3 || m == 4 || m == 5 || m == 6 || m == 7 || m == 8 || m
            == 9 || m == 10 || m == 11 || m == 12 || m == 13);
    }
    lemma_hebrew_year_of(f, y);
    let start = hebrew_start_month(y, f);
    let end = hebrew_end_month(y, f);
    assert(start == if m >= 7 { 7int } else { 1int }) by {
        assert(m == 1 || m == 2 || m == 3 || m == 4 || m == 5 || m == 6 || m == 7 || m == 8 || m
            == 9 || m == 10 || m == 11 || m == 12 || m == 13);
    }
    assert forall|k: int| start <= k < m implies #[trigger] hebrew_month_ends_before(y, k, f) by {
        lemma_hebrew_month_offset(y, k);
        lemma_fixed_from_hebrew_day(y, k, last_day_of_hebrew_month_spec(k, y));
        assert(k == 1 || k == 2 || k == 3 || k == 4 || k == 5 || k == 6 || k == 7 || k == 8 || k
            == 9 || k == 10 || k == 11 || k == 12);
        assert(m == 1 || m == 2 || m == 3 || m == 4 || m == 5 || m == 6 || m == 7 || m == 8 || m
            == 9 || m == 10 || m == 11 || m == 12 || m == 13);
    }
    lemma_fixed_from_hebrew_day(y, m, last_day_of_hebrew_month_spec(m, y));
    lemma_first_month_reached(y, f, start, end, m);
}

/// Going from a fixed day to its Hebrew date and back gives the same fixed
/// day.
pub proof fn lemma_hebrew_inverse_round_trip(date: int)
    ensures
        ({
            let (y, m, d) = hebrew_from_fixed_spec(date);
            fixed_from_hebrew_spec(y, m, d) == date
        }),
{
    let approx = (98496 * (date - EPOCH)) / 35975351 + 1;
    lemma_fundamental_div_mod(98496 * (date - EPOCH), 35975351);
    lemma_mod_bound(98496 * (date - EPOCH), 35975351);
    lemma_hebrew_year_bracket(date, approx);
    let year = if hebrew_new_year_spec(approx + 1) <= date {
        approx + 1
    } else if hebrew_new_year_spec(approx) <= date {
        approx
    } else {
        approx - 1
    };
    lemma_hebrew_year_of(date, year);
    let (y, m, d) = hebrew_from_fixed_spec(date);
    lemma_fixed_from_hebrew_day(y, m, d);
}

/// Every day of a year falls in one of its months: the date found for a
/// fixed day exists.
proof fn lemma_hebrew_from_fixed_valid(date: int, year: int)
    requires
        hebrew_year_in_range(year),
        hebrew_new_year_spec(year) <= date < hebrew_new_year_spec(year + 1),
    ensures
        ({
            let (y, m, d) = hebrew_from_fixed_spec(date);
            valid_hebrew(Hebrew { year: y as i32, month: m as i32, day: d as i32 })
                && (y, m, d) == ((y as i32) as int, (m as i32) as int, (d as i32) as int)
        }),
{
    lemma_hebrew_year_length(year);
    let o = date - hebrew_new_year_spec(year);
    let leap = is_hebrew_leap_year_spec(year);
    let last = if leap { 13int } else { 12int };
    let m = if o < hebrew_month_offset(year, 8) {
        7
    } else if o < hebrew_month_offset(year, 9) {
        8
    } else if o < hebrew_month_offset(year, 10) {
        9
    } else if o < hebrew_month_offset(year, 11) {
        10
    } else if o < hebrew_month_offset(year, 12) {
        11
    } else if o < hebrew_month_offset(year, 13) || !leap && o < hebrew_month_offset(year, 1) {
        12
    } else if o < hebrew_month_offset(year, 1) {
        13
    } else if o < hebrew_month_offset(year, 2) {
        1
    } else if o < hebrew_month_offset(year, 3) {
        2
    } else if o < hebrew_month_offset(year, 4) {
        3
    } else if o < hebrew_month_offset(year, 5) {
        4
    } else if o < hebrew_month_offset(year, 6) {
        5
    } else {
        6int
    };
    let d = o - hebrew_month_offset(year, m) + 1;
    lemma_hebrew_month_offset(year, m);
    lemma_fixed_from_hebrew_day(year, m, d);
    let found = Hebrew { year: year as i32, month: m as i32, day: d as i32 };
    assert(valid_hebrew(found));
    lemma_hebrew_round_trip(found);
}

/// The Hebrew date of a fixed day. Its year is the one whose new year is
/// the last on or before the day; its month is the first, from the start
/// month on, that does not end before the day.
pub fn hebrew_from_fixed(date: RD) -> (r: Hebrew)
    requires
        fixed_in_range(date as int),
    ensures
        hebrew_year_in_range(r.year as int),
        hebrew_year_in_range(r.year + 1),
        r.year == hebrew_year_of(date as int),
        hebrew_new_year_spec(r.year as int) <= date < hebrew_new_year_spec(r.year + 1),
        hebrew_start_month(r.year as int, date as int) <= r.month <= hebrew_end_month(
            r.year as int,
            date as int,
        ),
        forall|m: int|
            hebrew_start_month(r.year as int, date as int) <= m < r.month
                ==> #[trigger] hebrew_month_ends_before(r.year as int, m, date as int),
        r.month == hebrew_end_month(r.year as int, date as int) || !hebrew_month_ends_before(
            r.year as int,
            r.month as int,
            date as int,
        ),
        fixed_from_hebrew_spec(r.year as int, r.month as int, r.day as int) == date,
        (r.year as int, r.month as int, r.day as int) == hebrew_from_fixed_spec(date as int),
        valid_hebrew(r),
{
    let year = hebrew_year_from_fixed(date);
    proof {
        lemma_hebrew_year_of(date as int, year as int);
        lemma_hebrew_from_fixed_valid(date as int, year as int);
    }
    let start_month = if date < fixed_from_hebrew_parts(year, 1, 1) {
        7
    } else {
        1
    };
    let end_month = if start_month == 7 {
        last_month_of_hebrew_year(year)
    } else {
        6
    };
    let mut month = start_month;
    while month < end_month && fixed_from_hebrew_parts(
        year,
        month,
        last_day_of_hebrew_month(month, year),
    ) < date
        invariant
            hebrew_year_in_range(year as int),
            start_month == hebrew_start_month(year as int, date as int),
            end_month == hebrew_end_month(year as int, date as int),
            start_month <= month <= end_month,
            end_month <= 13,
            forall|m: int|
                start_month <= m < month ==> #[trigger] hebrew_month_ends_before(
                    year as int,
                    m,
                    date as int,
                ),
            first_month_not_ending_before(year as int, date as int, start_month as int, end_month as int)
                == first_month_not_ending_before(year as int, date as int, month as int, end_month as int),
        decreases end_month - month,
    {
        month = month + 1;
    }
    let first = fixed_from_hebrew_parts(year, month, 1);
    proof {
        lemma_hebrew_new_year_range(year as int);
        reveal(fixed_from_hebrew_spec);
    }
    let day = date - first + 1;
    proof {
        lemma_fixed_from_hebrew_day(year as int, month as int, day as int);
    }
    Hebrew { year, month, day }
}

} // verus!
