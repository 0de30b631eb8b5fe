use crate::common::{alternate_divide, divide, fixed_in_range, RD};
use vstd::arithmetic::div_mod::{lemma_fundamental_div_mod, lemma_fundamental_div_mod_converse, lemma_mod_bound};
use vstd::prelude::*;

verus! {

/// Fixed day of the Long Count date 0.0.0.0.0 (6 September 3114 BCE,
/// Julian).
pub const EPOCH: RD = -1137142;

/// Fixed day from which the Haab count runs: its position 0 falls 348 days
/// before the Long Count epoch.
pub const HAAB_EPOCH: RD = -1137490;

/// Fixed day from which the Tzolkin count runs: 159 days before the Long
/// Count epoch.
pub const TZOLKIN_EPOCH: RD = -1137301;

/// A Long Count date: days counted in a mixed radix of 144000 (baktun),
/// 7200 (katun), 360 (tun), 20 (uinal) and 1 (kin).
#[derive(Clone, Copy, Debug, PartialEq, Eq, Structural)]
pub struct LongCount {
    pub baktun: i32,
    pub katun: i32,
    pub tun: i32,
    pub uinal: i32,
    pub kin: i32,
}

/// Each digit below its radix, and the baktun in the supported range.
pub open spec fn valid_long_count(date: LongCount) -> bool {
    &&& -800 <= date.baktun <= 800
    &&& 0 <= date.katun < 20
    &&& 0 <= date.tun < 20
    &&& 0 <= date.uinal < 18
    &&& 0 <= date.kin < 20
}

/// Fixed day of a Long Count date.
pub open spec fn fixed_from_long_count_spec(date: LongCount) -> int {
    EPOCH + date.baktun * 144000 + date.katun * 7200 + date.tun * 360 + date.uinal * 20 + date.kin
}

/// Digits of the days elapsed since the epoch.
pub open spec fn long_count_from_fixed_spec(date: int) -> (int, int, int, int, int) {
    let days = date - EPOCH;
    (
        days / 144000,
        (days % 144000) / 7200,
        (days % 144000 % 7200) / 360,
        (days % 144000 % 7200 % 360) / 20,
        days % 144000 % 7200 % 360 % 20,
    )
}

/// Fixed day of a Long Count date.
pub fn fixed_from_long_count(date: LongCount) -> (r: RD)
    requires
        valid_long_count(date),
    ensures
        r == fixed_from_long_count_spec(date),
{
    EPOCH + date.baktun * 144000 + date.katun * 7200 + date.tun * 360 + date.uinal * 20 + date.kin
}

proof fn lemma_long_count_digits(days: int)
    ensures
        ({
            let b = days / 144000;
            let k = (days % 144000) / 7200;
            let t = (days % 144000 % 7200) / 360;
            let u = (days % 144000 % 7200 % 360) / 20;
            let n = days % 144000 % 7200 % 360 % 20;
            &&& days == b * 144000 + k * 7200 + t * 360 + u * 20 + n
            &&& 0 <= k < 20 && 0 <= t < 20 && 0 <= u < 18 && 0 <= n < 20
        }),
{
    lemma_fundamental_div_mod(days, 144000);
    lemma_mod_bound(days, 144000);
    let r1 = days % 144000;
    lemma_fundamental_div_mod(r1, 7200);
    lemma_mod_bound(r1, 7200);
    let r2 = r1 % 7200;
    lemma_fundamental_div_mod(r2, 360);
    lemma_mod_bound(r2, 360);
    let r3 = r2 % 360;
    lemma_fundamental_div_mod(r3, 20);
    lemma_mod_bound(r3, 20);
}

/// The Long Count date of a fixed day.
pub fn long_count_from_fixed(date: RD) -> (r: LongCount)
    requires
        fixed_in_range(date as int),
    ensures
        (r.baktun as int, r.katun as int, r.tun as int, r.uinal as int, r.kin as int)
            == long_count_from_fixed_spec(date as int),
        valid_long_count(r),
        fixed_from_long_count_spec(r) == date,
{
    proof {
        lemma_long_count_digits(date - EPOCH);
    }
    let long_count = date - EPOCH;
    let (baktun, day_of_baktun) = divide(long_count, 144000);
    let (katun, day_of_katun) = divide(day_of_baktun, 7200);
    let (tun, day_of_tun) = divide(day_of_katun, 360);
    let (uinal, kin) = divide(day_of_tun, 20);
    LongCount { baktun, katun, tun, uinal, kin }
}

/// Going from a valid Long Count date to its fixed day and back gives the
/// same date.
pub proof fn lemma_long_count_round_trip(date: LongCount)
    requires
        valid_long_count(date),
    ensures
        long_count_from_fixed_spec(fixed_from_long_count_spec(date)) == (
            date.baktun as int,
            date.katun as int,
            date.tun as int,
            date.uinal as int,
            date.kin as int,
        ),
{
    let days = fixed_from_long_count_spec(date) - EPOCH;
    let r1 = date.katun * 7200 + date.tun * 360 + date.uinal * 20 + date.kin;
    let r2 = date.tun * 360 + date.uinal * 20 + date.kin;
    let r3 = date.uinal * 20 + date.kin;
    lemma_fundamental_div_mod_converse(days, 144000, date.baktun as int, r1);
    lemma_fundamental_div_mod_converse(r1, 7200, date.katun as int, r2);
    lemma_fundamental_div_mod_converse(r2, 360, date.tun as int, r3);
    lemma_fundamental_div_mod_converse(r3, 20, date.uinal as int, date.kin as int);
}

/// Going from a fixed day to its Long Count date and back gives the same
/// fixed day.
pub proof fn lemma_long_count_inverse_round_trip(date: int)
    ensures
        ({
            let (b, k, t, u, n) = long_count_from_fixed_spec(date);
            EPOCH + b * 144000 + k * 7200 + t * 360 + u * 20 + n == date
        }),
{
    lemma_long_count_digits(date - EPOCH);
}

/// A date of the Haab, the 365-day cycle of 18 months of 20 days (days 0 to
/// 19) and a short 19th month of 5 days.
#[derive(Clone, Copy, Debug, PartialEq, Eq, Structural)]
pub struct Haab {
    pub month: i32,
    pub day: i32,
}

/// A Haab date that exists.
pub open spec fn valid_haab(date: Haab) -> bool {
    &&& 1 <= date.month <= 19
    &&& 0 <= date.day <= 19
    &&& date.month == 19 ==> date.day <= 4
}

/// Position of a Haab date in its cycle.
pub open spec fn haab_ordinal_spec(date: Haab) -> int {
    (date.month - 1) * 20 + date.day
}

/// Haab month and day of a fixed day.
pub open spec fn haab_from_fixed_spec(date: int) -> (int, int) {
    let count = (date - HAAB_EPOCH) % 365;
    (count / 20 + 1, count % 20)
}

/// The latest fixed day on or before `date` with the Haab date `haab`.
pub open spec fn haab_on_or_before_spec(haab: Haab, date: int) -> int {
    date - (date - HAAB_EPOCH - haab_ordinal_spec(haab)) % 365
}

/// Position of a Haab date in its cycle, from 0 to 364.
pub fn mayan_haab_ordinal(date: Haab) -> (r: i32)
    requires
        valid_haab(date),
    ensures
        r == haab_ordinal_spec(date),
        0 <= r < 365,
{
    (date.month - 1) * 20 + date.day
}

/// The Haab date of a fixed day.
pub fn mayan_haab_from_fixed(date: RD) -> (r: Haab)
    requires
        fixed_in_range(date as int),
    ensures
        (r.month as int, r.day as int) == haab_from_fixed_spec(date as int),
        valid_haab(r),
{
    let count = divide(date - HAAB_EPOCH, 365).1;
    let (elapsed_months, day) = divide(count, 20);
    Haab { month: elapsed_months + 1, day }
}

/// The latest fixed day on or before `date` with the Haab date `haab`.
pub fn mayan_haab_on_or_before(haab: Haab, date: RD) -> (r: RD)
    requires
        valid_haab(haab),
        fixed_in_range(date as int),
    ensures
        r == haab_on_or_before_spec(haab, date as int),
        date - 365 < r <= date,
        haab_from_fixed_spec(r as int) == (haab.month as int, haab.day as int),
{
    let r = date - divide(date - HAAB_EPOCH - mayan_haab_ordinal(haab), 365).1;
    proof {
        let x = date - HAAB_EPOCH - haab_ordinal_spec(haab);
        lemma_fundamental_div_mod(x, 365);
        lemma_mod_bound(x, 365);
        lemma_fundamental_div_mod_converse(r - HAAB_EPOCH, 365, x / 365, haab_ordinal_spec(haab));
        lemma_fundamental_div_mod_converse(
            haab_ordinal_spec(haab),
            20,
            haab.month - 1,
            haab.day as int,
        );
    }
    r
}

/// The Haab date of a fixed day, searched for on or before that day, is
/// found on the day itself.
pub proof fn lemma_haab_round_trip(date: int)
    ensures
        ({
            let (month, day) = haab_from_fixed_spec(date);
            haab_on_or_before_spec(Haab { month: month as i32, day: day as i32 }, date) == date
        }),
{
    let x = date - HAAB_EPOCH;
    lemma_fundamental_div_mod(x, 365);
    lemma_mod_bound(x, 365);
    let count = x % 365;
    lemma_fundamental_div_mod(count, 20);
    lemma_mod_bound(count, 20);
    lemma_fundamental_div_mod_converse(x - count, 365, x / 365, 0);
}

/// A date of the Tzolkin, the 260-day cycle formed by a number running
/// from 1 to 13 and a name running from 1 to 20 side by side.
#[derive(Clone, Copy, Debug, PartialEq, Eq, Structural)]
pub struct Tzolkin {
    pub number: i32,
    pub name: i32,
}

/// A Tzolkin date that exists.
pub open spec fn valid_tzolkin(date: Tzolkin) -> bool {
    1 <= date.number <= 13 && 1 <= date.name <= 20
}

/// Position of a Tzolkin date in its cycle: the one position whose
/// remainders by 13 and by 20 give the number and the name.
pub open spec fn tzolkin_ordinal_spec(date: Tzolkin) -> int {
    (date.number - 1 + 39 * (date.number - date.name)) % 260
}

/// Tzolkin number and name of a fixed day.
pub open spec fn tzolkin_from_fixed_spec(date: int) -> (int, int) {
    let count = date - TZOLKIN_EPOCH + 1;
    (
        if count % 13 == 0 {
            13
        } else {
            count % 13
        },
        if count % 20 == 0 {
            20
        } else {
            count % 20
        },
    )
}

/// The latest fixed day on or before `date` with the Tzolkin date `tzolkin`.
pub open spec fn tzolkin_on_or_before_spec(tzolkin: Tzolkin, date: int) -> int {
    date - (date - TZOLKIN_EPOCH - tzolkin_ordinal_spec(tzolkin)) % 260
}

/// Position of a Tzolkin date in its cycle, from 0 to 259.
pub fn mayan_tzolkin_ordinal(date: Tzolkin) -> (r: i32)
    requires
        valid_tzolkin(date),
    ensures
        r == tzolkin_ordinal_spec(date),
        0 <= r < 260,
{
    divide(date.number - 1 + 39 * (date.number - date.name), 260).1
}

/// The Tzolkin date of a fixed day.
pub fn mayan_tzolkin_from_fixed(date: RD) -> (r: Tzolkin)
    requires
        fixed_in_range(date as int),
    ensures
        (r.number as int, r.name as int) == tzolkin_from_fixed_spec(date as int),
        valid_tzolkin(r),
{
    let count = date - TZOLKIN_EPOCH + 1;
    let number = alternate_divide(count, 13).1;
    let name = alternate_divide(count, 20).1;
    Tzolkin { number, name }
}

/// The latest fixed day on or before `date` with the Tzolkin date `tzolkin`.
pub fn mayan_tzolkin_on_or_before(tzolkin: Tzolkin, date: RD) -> (r: RD)
    requires
        valid_tzolkin(tzolkin),
        fixed_in_range(date as int),
    ensures
        r == tzolkin_on_or_before_spec(tzolkin, date as int),
        date - 260 < r <= date,
        tzolkin_from_fixed_spec(r as int) == (tzolkin.number as int, tzolkin.name as int),
{
    proof {
        lemma_tzolkin_on_or_before_finds(tzolkin, date as int);
    }
    date - divide(date - TZOLKIN_EPOCH - mayan_tzolkin_ordinal(tzolkin), 260).1
}

/// The Tzolkin date of a fixed day, searched for on or before that day,
/// is found on the day itself.
pub proof fn lemma_tzolkin_round_trip(date: int)
    ensures
        ({
            let (number, name) = tzolkin_from_fixed_spec(date);
            tzolkin_on_or_before_spec(Tzolkin { number: number as i32, name: name as i32 }, date)
                == date
        }),
{
    let c = date - TZOLKIN_EPOCH + 1;
    lemma_fundamental_div_mod(c, 13);
    lemma_mod_bound(c, 13);
    lemma_fundamental_div_mod(c, 20);
    lemma_mod_bound(c, 20);
    let (number, name) = tzolkin_from_fixed_spec(date);
    let a = if c % 13 == 0 { c / 13 - 1 } else { c / 13 };
    let b = if c % 20 == 0 { c / 20 - 1 } else { c / 20 };
    assert(number == c - 13 * a);
    assert(name == c - 20 * b);
    let x = number - 1 + 39 * (number - name);
    assert(x == c - 1 + 260 * (3 * b - 2 * a));
    lemma_fundamental_div_mod(x, 260);
    lemma_mod_bound(x, 260);
    let ord = x % 260;
    lemma_fundamental_div_mod_converse(date - TZOLKIN_EPOCH - ord, 260, 2 * a - 3 * b + x / 260, 0);
}

/// A fixed day whose place in the 260-day count is the position of a
/// Tzolkin date has that date.
pub proof fn lemma_tzolkin_of_position(tzolkin: Tzolkin, date: int)
    requires
        valid_tzolkin(tzolkin),
        (date - TZOLKIN_EPOCH - tzolkin_ordinal_spec(tzolkin)) % 260 == 0,
    ensures
        tzolkin_from_fixed_spec(date) == (tzolkin.number as int, tzolkin.name as int),
{
    let x = tzolkin.number - 1 + 39 * (tzolkin.number - tzolkin.name);
    lemma_fundamental_div_mod(x, 260);
    lemma_mod_bound(x, 260);
    let y = date - TZOLKIN_EPOCH - x % 260;
    lemma_fundamental_div_mod(y, 260);
    let c = date - TZOLKIN_EPOCH + 1;
    let k = y / 260 - x / 260;
    assert(c == x + 1 + 260 * k);
    if tzolkin.number == 13 {
        lemma_fundamental_div_mod_converse(c, 13, 40 - 3 * tzolkin.name + 20 * k, 0);
    } else {
        lemma_fundamental_div_mod_converse(c, 13, 3 * (tzolkin.number - tzolkin.name) + 20 * k, tzolkin.number as int);
    }
    if tzolkin.name == 20 {
        lemma_fundamental_div_mod_converse(c, 20, 2 * tzolkin.number - 39 + 13 * k, 0);
    } else {
        lemma_fundamental_div_mod_converse(c, 20, 2 * tzolkin.number - 2 * tzolkin.name + 13 * k, tzolkin.name as int);
    }
}

/// The day that `mayan_tzolkin_on_or_before` finds has the Tzolkin date
/// sought.
pub proof fn lemma_tzolkin_on_or_before_finds(tzolkin: Tzolkin, date: int)
    requires
        valid_tzolkin(tzolkin),
    ensures
        tzolkin_from_fixed_spec(tzolkin_on_or_before_spec(tzolkin, date)) == (
            tzolkin.number as int,
            tzolkin.name as int,
        ),
{
    let ord = tzolkin_ordinal_spec(tzolkin);
    let y = date - TZOLKIN_EPOCH - ord;
    lemma_fundamental_div_mod(y, 260);
    lemma_mod_bound(y, 260);
    let r = tzolkin_on_or_before_spec(tzolkin, date);
    lemma_fundamental_div_mod_converse(r - TZOLKIN_EPOCH - ord, 260, y / 260, 0);
    lemma_tzolkin_of_position(tzolkin, r);
}

/// Whether a Haab date and a Tzolkin date ever fall on the same day: the
/// two cycles share the factor 5, so their positions must agree modulo 5.
pub open spec fn calendar_round_exists(haab: Haab, tzolkin: Tzolkin) -> bool {
    ((tzolkin_ordinal_spec(tzolkin) + TZOLKIN_EPOCH) - (haab_ordinal_spec(haab) + HAAB_EPOCH)) % 5
        == 0
}

/// When a Haab date and a Tzolkin date disagree modulo 5, no fixed day has
/// both: the calendar round search has no solution to miss.
pub proof fn lemma_calendar_round_unsatisfiable(haab: Haab, tzolkin: Tzolkin, date: int)
    requires
        valid_haab(haab),
        valid_tzolkin(tzolkin),
        !calendar_round_exists(haab, tzolkin),
    ensures
        !(haab_from_fixed_spec(date) == (haab.month as int, haab.day as int)
            && tzolkin_from_fixed_spec(date) == (tzolkin.number as int, tzolkin.name as int)),
{
    if haab_from_fixed_spec(date) == (haab.month as int, haab.day as int)
        && tzolkin_from_fixed_spec(date) == (tzolkin.number as int, tzolkin.name as int) {
        let count = (date - HAAB_EPOCH) % 365;
        lemma_fundamental_div_mod(date - HAAB_EPOCH, 365);
        lemma_mod_bound(date - HAAB_EPOCH, 365);
        lemma_fundamental_div_mod(count, 20);
        lemma_mod_bound(count, 20);
        let qa = (date - HAAB_EPOCH) / 365;
        assert(date - HAAB_EPOCH == 365 * qa + haab_ordinal_spec(haab));
        let t = date - TZOLKIN_EPOCH + 1;
        lemma_fundamental_div_mod(t, 20);
        lemma_mod_bound(t, 20);
        let qb = t / 20;
        let r20 = if tzolkin.name == 20 { 0 } else { tzolkin.name as int };
        assert(t == 20 * qb + r20);
        let x = tzolkin.number - 1 + 39 * (tzolkin.number - tzolkin.name);
        lemma_fundamental_div_mod(x, 260);
        let qc = x / 260;
        let k = 8 * tzolkin.number - 8 * tzolkin.name - 52 * qc - 4 * qb + (if tzolkin.name == 20 {
            4int
        } else {
            0int
        }) + 73 * qa;
        assert((tzolkin_ordinal_spec(tzolkin) + TZOLKIN_EPOCH) - (haab_ordinal_spec(haab)
            + HAAB_EPOCH) == k * 5);
        vstd::arithmetic::div_mod::lemma_mod_multiples_basic(k, 5);
    }
}

/// The latest day on or before `date` of the 18980-day calendar round
/// that has both dates, when they can meet.
pub open spec fn calendar_round_on_or_before_spec(haab: Haab, tzolkin: Tzolkin, date: int) -> int {
    let haab_count = haab_ordinal_spec(haab) + HAAB_EPOCH;
    let diff = tzolkin_ordinal_spec(tzolkin) + TZOLKIN_EPOCH - haab_count;
    date - (date - haab_count - 365 * diff) % 18980
}

/// The day that the calendar round search finds has both dates.
pub proof fn lemma_calendar_round_finds(haab: Haab, tzolkin: Tzolkin, date: int)
    requires
        valid_haab(haab),
        valid_tzolkin(tzolkin),
        calendar_round_exists(haab, tzolkin),
    ensures
        haab_from_fixed_spec(calendar_round_on_or_before_spec(haab, tzolkin, date)) == (
            haab.month as int,
            haab.day as int,
        ),
        tzolkin_from_fixed_spec(calendar_round_on_or_before_spec(haab, tzolkin, date)) == (
            tzolkin.number as int,
            tzolkin.name as int,
        ),
{
    let h = haab_ordinal_spec(haab);
    let t = tzolkin_ordinal_spec(tzolkin);
    let haab_count = h + HAAB_EPOCH;
    let diff = t + TZOLKIN_EPOCH - haab_count;
    lemma_fundamental_div_mod(diff, 5);
    let e = diff / 5;
    let y = date - haab_count - 365 * diff;
    lemma_fundamental_div_mod(y, 18980);
    lemma_mod_bound(y, 18980);
    let q = y / 18980;
    let r = calendar_round_on_or_before_spec(haab, tzolkin, date);
    assert(r - HAAB_EPOCH - h == 365 * (52 * q + diff));
    lemma_fundamental_div_mod_converse(r - HAAB_EPOCH, 365, 52 * q + diff, h);
    lemma_fundamental_div_mod_converse(h, 20, haab.month - 1, haab.day as int);
    assert(r - TZOLKIN_EPOCH - t == 260 * (73 * q + 7 * e));
    lemma_fundamental_div_mod_converse(r - TZOLKIN_EPOCH - t, 260, 73 * q + 7 * e, 0);
    lemma_tzolkin_of_position(tzolkin, r);
}

/// The latest fixed day on or before `date` that has both the Haab date
/// `haab` and the Tzolkin date `tzolkin`, or `None` when the two never
/// fall on the same day.
pub fn mayan_calendar_round_on_or_before(haab: Haab, tzolkin: Tzolkin, date: RD) -> (r: Option<RD>)
    requires
        valid_haab(haab),
        valid_tzolkin(tzolkin),
        fixed_in_range(date as int),
    ensures
        r.is_some() == calendar_round_exists(haab, tzolkin),
        r matches Some(d) ==> d == calendar_round_on_or_before_spec(haab, tzolkin, date as int),
        r matches Some(d) ==> date - 18980 < d <= date,
        r matches Some(d) ==> haab_from_fixed_spec(d as int) == (haab.month as int, haab.day as int)
            && tzolkin_from_fixed_spec(d as int) == (tzolkin.number as int, tzolkin.name as int),
{
    let haab_count = mayan_haab_ordinal(haab) + HAAB_EPOCH;
    let tzolkin_count = mayan_tzolkin_ordinal(tzolkin) + TZOLKIN_EPOCH;
    let diff = tzolkin_count - haab_count;
    if divide(diff, 5).1 == 0 {
        let r = date - divide(date - haab_count - 365 * diff, 18980).1;
        proof {
            lemma_calendar_round_finds(haab, tzolkin, date as int);
        }
        Some(r)
    } else {
        None
    }
}

} // verus!
