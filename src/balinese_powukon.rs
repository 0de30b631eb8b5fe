use crate::common::{alternate_divide, divide, fixed_in_range, RD};
use vstd::arithmetic::div_mod::{lemma_fundamental_div_mod, lemma_fundamental_div_mod_converse, lemma_mod_bound};
use vstd::prelude::*;

verus! {

/// Fixed day of the start of a Pawukon cycle (day 146 of the Julian Day
/// count).
pub const EPOCH: i32 = -1721279;

/// A day of the Balinese Pawukon: its position in each of the simultaneous
/// cycles of 2 to 10 days, and whether it is luang.
#[derive(Clone, Copy, Debug, PartialEq, Eq, Structural)]
pub struct BaliPowukon {
    pub luang: bool,
    pub dwiwara: i32,
    pub triwara: i32,
    pub caturwara: i32,
    pub pancawara: i32,
    pub sadwara: i32,
    pub saptawara: i32,
    pub asatawara: i32,
    pub sangawara: i32,
    pub dasawara: i32,
}

/// Position of a fixed day in the 210-day cycle, from 0.
pub open spec fn bali_day_spec(date: int) -> int {
    (date - EPOCH) % 210
}

/// Position in the 3-day cycle, from 1.
pub open spec fn triwara_spec(date: int) -> int {
    bali_day_spec(date) % 3 + 1
}

/// Position in the 6-day cycle, from 1.
pub open spec fn sadwara_spec(date: int) -> int {
    bali_day_spec(date) % 6 + 1
}

/// Position in the 7-day cycle, from 1.
pub open spec fn saptawara_spec(date: int) -> int {
    bali_day_spec(date) % 7 + 1
}

/// Position in the 5-day cycle, from 1; it runs one day ahead of the 210-day count.
pub open spec fn pancawara_spec(date: int) -> int {
    (bali_day_spec(date) + 1) % 5 + 1
}

/// Weight of a position of the 5-day cycle in the 10-day one.
pub open spec fn pancawara_weight(i: int) -> int {
    if i == 0 {
        5
    } else if i == 1 {
        9
    } else if i == 2 {
        7
    } else if i == 3 {
        4
    } else {
        8
    }
}

/// Weight of a position of the 7-day cycle in the 10-day one.
pub open spec fn saptawara_weight(j: int) -> int {
    if j == 0 {
        5
    } else if j == 1 {
        4
    } else if j == 2 {
        3
    } else if j == 3 {
        7
    } else if j == 4 {
        8
    } else if j == 5 {
        6
    } else {
        9
    }
}

/// The 10-day cycle, derived from the 5- and 7-day ones by their weights.
pub open spec fn dasawara_spec(date: int) -> int {
    (pancawara_weight(pancawara_spec(date) - 1) + saptawara_weight(saptawara_spec(date) - 1) + 1)
        % 10
}

/// Position in the 9-day cycle, from 1; its first position is held over the first four days of the 210-day cycle.
pub open spec fn sangawara_spec(date: int) -> int {
    let d = bali_day_spec(date) - 3;
    (if d > 0 {
        d
    } else {
        0
    }) % 9 + 1
}

/// Position in the 8-day cycle, from 1; one position is held over two extra days around day 70 of the 210-day cycle.
pub open spec fn asatawara_spec(date: int) -> int {
    let a = 4 + (bali_day_spec(date) - 70) % 210;
    (if a > 6 {
        a
    } else {
        6
    }) % 8 + 1
}

/// The value of `x` counted in `1..=y` rather than `0..y`.
pub open spec fn amod_spec(x: int, y: int) -> int {
    if x % y == 0 {
        y
    } else {
        x % y
    }
}

/// All cycle positions of a fixed day.
pub open spec fn bali_powukon_spec(date: int) -> BaliPowukon {
    BaliPowukon {
        luang: dasawara_spec(date) % 2 == 0,
        dwiwara: amod_spec(dasawara_spec(date), 2) as i32,
        triwara: triwara_spec(date) as i32,
        caturwara: amod_spec(asatawara_spec(date), 4) as i32,
        pancawara: pancawara_spec(date) as i32,
        sadwara: sadwara_spec(date) as i32,
        saptawara: saptawara_spec(date) as i32,
        asatawara: asatawara_spec(date) as i32,
        sangawara: sangawara_spec(date) as i32,
        dasawara: dasawara_spec(date) as i32,
    }
}

/// Position of a fixed day in the 210-day cycle, from 0 to 209.
pub fn bali_day_from_fixed(date: RD) -> (r: i32)
    requires
        fixed_in_range(date as int),
    ensures
        r == bali_day_spec(date as int),
        0 <= r < 210,
{
    divide(date - EPOCH, 210).1
}

/// Position in the 3-day cycle, from 1.
pub fn bali_triwara_from_fixed(date: RD) -> (r: i32)
    requires
        fixed_in_range(date as int),
    ensures
        r == triwara_spec(date as int),
        1 <= r <= 3,
{
    divide(bali_day_from_fixed(date), 3).1 + 1
}

/// Position in the 6-day cycle, from 1.
pub fn bali_sadwara_from_fixed(date: RD) -> (r: i32)
    requires
        fixed_in_range(date as int),
    ensures
        r == sadwara_spec(date as int),
        1 <= r <= 6,
{
    divide(bali_day_from_fixed(date), 6).1 + 1
}

/// Position in the 7-day cycle, from 1.
pub fn bali_saptawara_from_fixed(date: RD) -> (r: i32)
    requires
        fixed_in_range(date as int),
    ensures
        r == saptawara_spec(date as int),
        1 <= r <= 7,
{
    divide(bali_day_from_fixed(date), 7).1 + 1
}

/// Position in the 5-day cycle, from 1.
pub fn bali_pancawara_from_fixed(date: RD) -> (r: i32)
    requires
        fixed_in_range(date as int),
    ensures
        r == pancawara_spec(date as int),
        1 <= r <= 5,
{
    divide(bali_day_from_fixed(date) + 1, 5).1 + 1
}

/// Week of the 210-day cycle, from 1 to 30.
pub fn bali_week_from_fixed(date: RD) -> (r: i32)
    requires
        fixed_in_range(date as int),
    ensures
        r == bali_day_spec(date as int) / 7 + 1,
        1 <= r <= 30,
{
    divide(bali_day_from_fixed(date), 7).0 + 1
}

fn pancawara_weight_of(i: i32) -> (r: i32)
    ensures
        r == pancawara_weight(i as int),
{
    match i {
        0 => 5,
        1 => 9,
        2 => 7,
        3 => 4,
        _ => 8,
    }
}

fn saptawara_weight_of(j: i32) -> (r: i32)
    ensures
        r == saptawara_weight(j as int),
{
    match j {
        0 => 5,
        1 => 4,
        2 => 3,
        3 => 7,
        4 => 8,
        5 => 6,
        _ => 9,
    }
}

/// Position in the 10-day cycle, from 0 to 9.
pub fn bali_dasawara_from_fixed(date: RD) -> (r: i32)
    requires
        fixed_in_range(date as int),
    ensures
        r == dasawara_spec(date as int),
        0 <= r <= 9,
{
    let i = bali_pancawara_from_fixed(date) - 1;
    let j = bali_saptawara_from_fixed(date) - 1;
    divide(pancawara_weight_of(i) + saptawara_weight_of(j) + 1, 10).1
}

/// Position in the 2-day cycle, from 1.
pub fn bali_dwiwara_from_fixed(date: RD) -> (r: i32)
    requires
        fixed_in_range(date as int),
    ensures
        r == amod_spec(dasawara_spec(date as int), 2),
        1 <= r <= 2,
{
    alternate_divide(bali_dasawara_from_fixed(date), 2).1
}

/// Whether a day is luang: its position in the 10-day cycle is even.
pub fn is_day_luang(date: RD) -> (r: bool)
    requires
        fixed_in_range(date as int),
    ensures
        r == (dasawara_spec(date as int) % 2 == 0),
{
    divide(bali_dasawara_from_fixed(date), 2).1 == 0
}

/// Position in the 9-day cycle, from 1; its first day is repeated over the
/// first four days of the 210-day cycle.
pub fn bali_sangawara_from_fixed(date: RD) -> (r: i32)
    requires
        fixed_in_range(date as int),
    ensures
        r == sangawara_spec(date as int),
        1 <= r <= 9,
{
    let d = bali_day_from_fixed(date) - 3;
    divide(if d > 0 {
        d
    } else {
        0
    }, 9).1 + 1
}

/// Position in the 8-day cycle, from 1; one position is repeated around
/// day 70 of the 210-day cycle to make it fit.
pub fn bali_asatawara_from_fixed(date: RD) -> (r: i32)
    requires
        fixed_in_range(date as int),
    ensures
        r == asatawara_spec(date as int),
        1 <= r <= 8,
{
    let day = bali_day_from_fixed(date);
    let a = 4 + divide(day - 70, 210).1;
    divide(if a > 6 {
        a
    } else {
        6
    }, 8).1 + 1
}

/// Position in the 4-day cycle, from 1, derived from the 8-day one.
pub fn bali_caturwara_from_fixed(date: RD) -> (r: i32)
    requires
        fixed_in_range(date as int),
    ensures
        r == amod_spec(asatawara_spec(date as int), 4),
        1 <= r <= 4,
{
    alternate_divide(bali_asatawara_from_fixed(date), 4).1
}

/// All Pawukon cycle positions of a fixed day.
pub fn bali_powukon_from_fixed(date: RD) -> (r: BaliPowukon)
    requires
        fixed_in_range(date as int),
    ensures
        r == bali_powukon_spec(date as int),
{
    BaliPowukon {
        luang: is_day_luang(date),
        dwiwara: bali_dwiwara_from_fixed(date),
        triwara: bali_triwara_from_fixed(date),
        caturwara: bali_caturwara_from_fixed(date),
        pancawara: bali_pancawara_from_fixed(date),
        sadwara: bali_sadwara_from_fixed(date),
        saptawara: bali_saptawara_from_fixed(date),
        asatawara: bali_asatawara_from_fixed(date),
        sangawara: bali_sangawara_from_fixed(date),
        dasawara: bali_dasawara_from_fixed(date),
    }
}

/// Position in the 210-day cycle of the day with the given 5-, 6- and
/// 7-day positions: the 35-day position from the 5- and 7-day ones, then
/// the 210-day one from that and the 6-day one.
pub open spec fn bali_cycle_position(pancawara: int, sadwara: int, saptawara: int) -> int {
    let a5 = pancawara - 1;
    let a6 = sadwara - 1;
    let b7 = saptawara - 1;
    let b35 = (a5 + 14 + 15 * (b7 - a5)) % 35;
    a6 + 36 * (b35 - a6)
}

/// The latest fixed day on or before `date` with the 5-, 6- and 7-day
/// positions of `bali_powukon`.
pub open spec fn bali_on_or_before_spec(bali_powukon: BaliPowukon, date: int) -> int {
    let days = bali_cycle_position(
        bali_powukon.pancawara as int,
        bali_powukon.sadwara as int,
        bali_powukon.saptawara as int,
    );
    date - (date + bali_day_spec(0) - days) % 210
}

/// Cycle positions inside their ranges.
pub open spec fn valid_bali_positions(b: BaliPowukon) -> bool {
    1 <= b.pancawara <= 5 && 1 <= b.sadwara <= 6 && 1 <= b.saptawara <= 7
}

/// The latest fixed day on or before `date` with the 5-, 6- and 7-day
/// positions of `bali_powukon`.
pub fn bali_on_or_before(bali_powukon: BaliPowukon, date: RD) -> (r: RD)
    requires
        valid_bali_positions(bali_powukon),
        fixed_in_range(date as int),
    ensures
        r == bali_on_or_before_spec(bali_powukon, date as int),
        date - 210 < r <= date,
        pancawara_spec(r as int) == bali_powukon.pancawara,
        sadwara_spec(r as int) == bali_powukon.sadwara,
        saptawara_spec(r as int) == bali_powukon.saptawara,
{
    proof {
        lemma_bali_on_or_before_finds(bali_powukon, date as int);
    }
    let a5 = bali_powukon.pancawara - 1;
    let a6 = bali_powukon.sadwara - 1;
    let b7 = bali_powukon.saptawara - 1;
    let b35 = divide(a5 + 14 + 15 * (b7 - a5), 35).1;
    let days = a6 + 36 * (b35 - a6);
    let delta = bali_day_from_fixed(0);
    date - divide(date + delta - days, 210).1
}

/// The day that `bali_on_or_before` finds has the 5-, 6- and 7-day
/// positions sought.
pub proof fn lemma_bali_on_or_before_finds(bali_powukon: BaliPowukon, date: int)
    requires
        valid_bali_positions(bali_powukon),
    ensures
        ({
            let r = bali_on_or_before_spec(bali_powukon, date);
            &&& pancawara_spec(r) == bali_powukon.pancawara
            &&& sadwara_spec(r) == bali_powukon.sadwara
            &&& saptawara_spec(r) == bali_powukon.saptawara
        }),
{
    let a5 = bali_powukon.pancawara - 1;
    let a6 = bali_powukon.sadwara - 1;
    let b7 = bali_powukon.saptawara - 1;
    let y = a5 + 14 + 15 * (b7 - a5);
    lemma_fundamental_div_mod(y, 35);
    lemma_mod_bound(y, 35);
    let b35 = y % 35;
    let z = y / 35;
    let days = a6 + 36 * (b35 - a6);
    lemma_fundamental_div_mod(-EPOCH, 210);
    lemma_mod_bound(-EPOCH, 210);
    let delta = bali_day_spec(0);
    let x = date + delta - days;
    lemma_fundamental_div_mod(x, 210);
    lemma_mod_bound(x, 210);
    let r = bali_on_or_before_spec(bali_powukon, date);
    // r - EPOCH = days + 210 * n
    let n = x / 210 + (-EPOCH) / 210;
    assert(r - EPOCH == days + 210 * n);
    lemma_fundamental_div_mod(r - EPOCH, 210);
    lemma_mod_bound(r - EPOCH, 210);
    let b = bali_day_spec(r);
    let g = (r - EPOCH) / 210;
    assert(b == days + 210 * (n - g));
    let k = n - g;
    lemma_fundamental_div_mod_converse(b + 1, 5, 7 * b35 - 7 * a6 + 42 * k + 3 - 3 * a5 + 3 * b7 - 7 * z, a5);
    lemma_fundamental_div_mod_converse(b, 6, 6 * b35 - 6 * a6 + 35 * k, a6);
    lemma_fundamental_div_mod_converse(b, 7, 5 * b35 - 5 * a6 + 30 * k - 2 * a5 + 2 * b7 + 2 - 5 * z, b7);
}

/// The Pawukon day of a fixed day, searched for on or before that day, is
/// found on the day itself: the 5-, 6- and 7-day positions fix the place
/// in the 210-day cycle.
pub proof fn lemma_bali_round_trip(date: int)
    ensures
        bali_on_or_before_spec(bali_powukon_spec(date), date) == date,
{
    lemma_fundamental_div_mod(date - EPOCH, 210);
    lemma_mod_bound(date - EPOCH, 210);
    lemma_fundamental_div_mod(-EPOCH, 210);
    lemma_mod_bound(-EPOCH, 210);
    let b = bali_day_spec(date);
    lemma_fundamental_div_mod(b + 1, 5);
    lemma_mod_bound(b + 1, 5);
    lemma_fundamental_div_mod(b, 6);
    lemma_mod_bound(b, 6);
    lemma_fundamental_div_mod(b, 7);
    lemma_mod_bound(b, 7);
    let a5 = (b + 1) % 5;
    let b7 = b % 7;
    let y = a5 + 14 + 15 * (b7 - a5);
    lemma_fundamental_div_mod(y, 35);
    lemma_mod_bound(y, 35);
    let u = (b + 1) / 5;
    let v = b / 6;
    let w = b / 7;
    let z = y / 35;
    let p = bali_powukon_spec(date);
    let days = bali_cycle_position(p.pancawara as int, p.sadwara as int, p.saptawara as int);
    assert(days - b == 210 * (12 * u - 18 * w - 6 * z + v));
    let s = (date - EPOCH) / 210;
    let s0 = (-EPOCH) / 210;
    assert(date + bali_day_spec(0) - days == 210 * (s - s0 - (12 * u - 18 * w - 6 * z + v)));
    lemma_fundamental_div_mod_converse(
        date + bali_day_spec(0) - days,
        210,
        s - s0 - (12 * u - 18 * w - 6 * z + v),
        0,
    );
}

} // verus!
