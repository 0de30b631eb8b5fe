use crate::common::{alternate_divide, fixed_in_range, year_in_range, RD};
use crate::julian::{
    fixed_from_julian_parts, fixed_from_julian_spec, is_julian_leap_year, is_julian_leap_year_spec,
    julian_from_fixed, julian_from_fixed_spec, Julian, lemma_julian_next_month, last_day_of_julian_month,
    next_julian_month, lemma_julian_round_trip,
};
use vstd::prelude::*;

verus! {

/// The three named days of a Roman month that other days count down to.
#[derive(Clone, Copy, Debug, PartialEq, Eq, Structural)]
pub enum Event {
    Kalends,
    Nones,
    Ides,
}

/// A day named in the Roman way: `count` days (counted inclusively) before
/// `event` of `month` of `year`; `leap` marks the repeated day inserted in
/// leap years before the Kalends of March.
#[derive(Clone, Copy, Debug, PartialEq, Eq, Structural)]
pub struct Roman {
    pub year: i32,
    pub month: i32,
    pub event: Event,
    pub count: i32,
    pub leap: bool,
}

/// Day of the Ides: the 15th in March, May, July and October, else the 13th.
pub open spec fn ides_of_month_spec(month: int) -> int {
    if month == 3 || month == 5 || month == 7 || month == 10 {
        15
    } else {
        13
    }
}

/// Day of the Nones: eight days before the Ides.
pub open spec fn nones_of_month_spec(month: int) -> int {
    ides_of_month_spec(month) - 8
}

/// Day of the Ides of a month.
pub fn ides_of_month(month: i32) -> (r: i32)
    ensures
        r == ides_of_month_spec(month as int),
{
    match month {
        3 | 5 | 7 | 10 => 15,
        _ => 13,
    }
}

/// Day of the Nones of a month.
pub fn nones_of_month(month: i32) -> (r: i32)
    ensures
        r == nones_of_month_spec(month as int),
{
    ides_of_month(month) - 8
}

/// A Roman date whose fields lie in the ranges the naming uses.
pub open spec fn valid_roman(date: Roman) -> bool {
    &&& year_in_range(date.year as int)
    &&& date.year != 0
    &&& 1 <= date.month <= 12
    &&& 1 <= date.count <= 31
}

/// Fixed day of a Roman date. In a leap year the days from the 6th to the
/// 16th before the Kalends of March count one day less, as the leap day is
/// their repeated 6th.
pub open spec fn fixed_from_roman_spec(date: Roman) -> int {
    let start = match date.event {
        Event::Kalends => fixed_from_julian_spec(date.year as int, date.month as int, 1),
        Event::Nones => fixed_from_julian_spec(
            date.year as int,
            date.month as int,
            nones_of_month_spec(date.month as int),
        ),
        Event::Ides => fixed_from_julian_spec(
            date.year as int,
            date.month as int,
            ides_of_month_spec(date.month as int),
        ),
    };
    start - date.count + (if is_julian_leap_year_spec(date.year as int) && date.month == 3
        && date.event == Event::Kalends && 6 <= date.count <= 16 {
        0int
    } else {
        1int
    }) + (if date.leap {
        1int
    } else {
        0int
    })
}

/// Fixed day of a Roman date.
pub fn fixed_from_roman(date: Roman) -> (r: i32)
    requires
        valid_roman(date),
    ensures
        r == fixed_from_roman_spec(date),
{
    let start = match date.event {
        Event::Kalends => fixed_from_julian_parts(date.year, date.month, 1),
        Event::Nones => fixed_from_julian_parts(date.year, date.month, nones_of_month(date.month)),
        Event::Ides => fixed_from_julian_parts(date.year, date.month, ides_of_month(date.month)),
    };
    start - date.count + if is_julian_leap_year(date.year) && date.month == 3 && date.event
        == Event::Kalends && 6 <= date.count && date.count <= 16 {
        0
    } else {
        1
    } + if date.leap {
        1
    } else {
        0
    }
}

/// The Roman name of a fixed day, from its Julian date: the Kalends itself,
/// a count down to the Nones or the Ides, or a count down to the Kalends of
/// the next month, where the 24th and 25th of February of a leap year share
/// one count and the 25th carries the leap mark.
pub open spec fn roman_from_fixed_spec(rd: int) -> (int, int, Event, int, bool) {
    let (year, month, day) = julian_from_fixed_spec(rd);
    let next_month = if (month + 1) % 12 == 0 {
        12
    } else {
        (month + 1) % 12
    };
    let next_year = if next_month != 1 {
        year
    } else if year == -1 {
        1
    } else {
        year + 1
    };
    if day == 1 {
        (year, month, Event::Kalends, 1, false)
    } else if day <= nones_of_month_spec(month) {
        (year, month, Event::Nones, nones_of_month_spec(month) - day + 1, false)
    } else if day <= ides_of_month_spec(month) {
        (year, month, Event::Ides, ides_of_month_spec(month) - day + 1, false)
    } else if month != 2 || !is_julian_leap_year_spec(year) {
        let kalends = fixed_from_roman_spec(
            Roman { year: next_year as i32, month: next_month as i32, event: Event::Kalends, count: 1, leap: false },
        );
        (next_year, next_month, Event::Kalends, kalends - rd + 1, false)
    } else if day < 25 {
        (year, 3, Event::Kalends, 30 - day, false)
    } else {
        (year, 3, Event::Kalends, 31 - day, day == 25)
    }
}

/// The month before `month` of `year`, and its year: there is no year 0.
pub open spec fn previous_julian_month(year: int, month: int) -> (int, int) {
    if month > 1 {
        (year, month - 1)
    } else if year == 1 {
        (-1, 12)
    } else {
        (year - 1, 12)
    }
}

/// A Roman name that some day bears: the Kalends themselves, a count of 2
/// up to the day after the Ides of the month before (one less before a
/// leap-year March, whose 6th day is the one that carries the leap mark),
/// or a count down to the Nones or the Ides from the day after the named
/// day before them.
pub open spec fn valid_roman_name(date: Roman) -> bool {
    let (py, pm) = previous_julian_month(date.year as int, date.month as int);
    let leap_february = pm == 2 && is_julian_leap_year_spec(py);
    &&& year_in_range(date.year as int)
    &&& year_in_range(py)
    &&& date.year != 0
    &&& 1 <= date.month <= 12
    &&& match date.event {
        Event::Nones => !date.leap && 1 <= date.count <= nones_of_month_spec(date.month as int) - 1,
        Event::Ides => !date.leap && 1 <= date.count <= 8,
        Event::Kalends => if date.count == 1 {
            !date.leap
        } else {
            &&& 2 <= date.count <= last_day_of_julian_month(py, pm) - ides_of_month_spec(pm) + 1 - (
            if leap_february {
                1int
            } else {
                0int
            })
            &&& date.leap ==> leap_february && date.count == 6
        },
    }
}

/// Going from a Roman name that some day bears to its fixed day and back
/// gives the same name.
pub proof fn lemma_roman_round_trip(date: Roman)
    requires
        valid_roman_name(date),
    ensures
        roman_from_fixed_spec(fixed_from_roman_spec(date)) == (
            date.year as int,
            date.month as int,
            date.event,
            date.count as int,
            date.leap,
        ),
{
    let y = date.year as int;
    let m = date.month as int;
    let c = date.count as int;
    if date.event == Event::Kalends && c != 1 {
        lemma_roman_round_trip_before_kalends(date);
    } else {
        let day = match date.event {
            Event::Kalends => 1,
            Event::Nones => nones_of_month_spec(m) - c + 1,
            Event::Ides => ides_of_month_spec(m) - c + 1,
        };
        assert(fixed_from_roman_spec(date) == fixed_from_julian_spec(y, m, day));
        lemma_julian_round_trip(Julian { year: y as i32, month: m as i32, day: day as i32 });
    }
}

proof fn lemma_roman_round_trip_before_kalends(date: Roman)
    requires
        valid_roman_name(date),
        date.event == Event::Kalends,
        date.count != 1,
    ensures
        roman_from_fixed_spec(fixed_from_roman_spec(date)) == (
            date.year as int,
            date.month as int,
            date.event,
            date.count as int,
            date.leap,
        ),
{
    let y = date.year as int;
    let m = date.month as int;
    let f = fixed_from_roman_spec(date);
    let (py, pm) = previous_julian_month(y, m);
    lemma_julian_next_month(py, pm);
    assert(next_julian_month(py, pm) == (y, m));
    let start = fixed_from_julian_spec(py, pm, 1);
    assert(fixed_from_julian_spec(y, m, 1) == start + last_day_of_julian_month(py, pm));
    let day = f - start + 1;
    assert(fixed_from_julian_spec(py, pm, day) == f);
    lemma_julian_round_trip(Julian { year: py as i32, month: pm as i32, day: day as i32 });
}

/// The Roman name of a fixed day names it again.
proof fn lemma_roman_from_fixed(rd: int, year: int, month: int, day: int)
    requires
        (year, month, day) == julian_from_fixed_spec(rd),
        year != 0,
        1 <= month <= 12,
        1 <= day <= last_day_of_julian_month(year, month),
        fixed_from_julian_spec(year, month, day) == rd,
        year_in_range(year),
    ensures
        ({
            let (y, m, e, c, l) = roman_from_fixed_spec(rd);
            let r = Roman { year: y as i32, month: m as i32, event: e, count: c as i32, leap: l };
            &&& (r.year as int, r.month as int, r.event, r.count as int, r.leap) == (y, m, e, c, l)
            &&& 1 <= c <= 31
            &&& fixed_from_roman_spec(r) == rd
        }),
{
    lemma_julian_next_month(year, month);
    let (ny, nm) = next_julian_month(year, month);
    assert(fixed_from_julian_spec(year, month, day) == fixed_from_julian_spec(year, month, 1) + day - 1);
    assert(fixed_from_julian_spec(year, month, nones_of_month_spec(month)) == fixed_from_julian_spec(year, month, 1) + nones_of_month_spec(month) - 1);
    assert(fixed_from_julian_spec(year, month, ides_of_month_spec(month)) == fixed_from_julian_spec(year, month, 1) + ides_of_month_spec(month) - 1);
}

/// The Roman name of a fixed day.
#[verifier::rlimit(40)]
pub fn roman_from_fixed(rd: RD) -> (r: Roman)
    requires
        fixed_in_range(rd as int),
    ensures
        (r.year as int, r.month as int, r.event, r.count as int, r.leap) == roman_from_fixed_spec(
            rd as int,
        ),
        valid_roman(r),
        fixed_from_roman_spec(r) == rd,
{
    proof {
        let (y, m, d) = julian_from_fixed_spec(rd as int);
        lemma_roman_from_fixed(rd as int, y, m, d);
    }
    let Julian { year, month, day } = julian_from_fixed(rd);
    let next_month = alternate_divide(month + 1, 12).1;
    let adjusted_year = if next_month != 1 {
        year
    } else if year == -1 {
        1
    } else {
        year + 1
    };
    if day == 1 {
        Roman { year, month, event: Event::Kalends, count: 1, leap: false }
    } else if day <= nones_of_month(month) {
        Roman { year, month, event: Event::Nones, count: nones_of_month(month) - day + 1, leap: false }
    } else if day <= ides_of_month(month) {
        Roman { year, month, event: Event::Ides, count: ides_of_month(month) - day + 1, leap: false }
    } else if month != 2 || !is_julian_leap_year(year) {
        let kalends = fixed_from_roman(
            Roman { year: adjusted_year, month: next_month, event: Event::Kalends, count: 1, leap: false },
        );
        Roman {
            year: adjusted_year,
            month: next_month,
            event: Event::Kalends,
            count: kalends - rd + 1,
            leap: false,
        }
    } else if day < 25 {
        Roman { year, month: 3, event: Event::Kalends, count: 30 - day, leap: false }
    } else {
        Roman { year, month: 3, event: Event::Kalends, count: 31 - day, leap: day == 25 }
    }
}

} // verus!
