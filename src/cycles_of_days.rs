use crate::common::{divide, fixed_in_range, MAX_FIXED, MIN_FIXED, RD};
use vstd::arithmetic::div_mod::{lemma_fundamental_div_mod, lemma_mod_bound, lemma_mod_multiples_basic};
use vstd::prelude::*;

verus! {

/// Day of the week of a fixed day, 0 being the weekday of fixed day 0
/// (a Sunday).
pub open spec fn day_of_week(date: int) -> int {
    date % 7
}

/// The latest day on or before `date` whose weekday is `k`.
pub open spec fn kday_on_or_before_spec(date: int, k: int) -> int {
    date - day_of_week(date - k)
}

/// A weekday number.
pub open spec fn is_weekday(k: int) -> bool {
    0 <= k <= 6
}

/// Day of the week of `date`, in `0..7`.
pub fn day_of_week_from_fixed(date: RD) -> (r: i32)
    ensures
        r == day_of_week(date as int),
        0 <= r < 7,
{
    divide(date, 7).1
}

/// Weekday periodicity: shifting a day by whole weeks keeps its weekday.
pub proof fn lemma_day_of_week_periodic(date: int, n: int)
    ensures
        day_of_week(date + 7 * n) == day_of_week(date),
{
    vstd::arithmetic::div_mod::lemma_mod_multiples_vanish(n, date, 7);
}

/// The latest day on or before `date` that falls on weekday `k`.
pub fn kday_on_or_before(date: RD, k: i32) -> (r: RD)
    requires
        date >= i32::MIN + 6,
        is_weekday(k as int),
    ensures
        r == kday_on_or_before_spec(date as int, k as int),
        date - 7 < r <= date,
        day_of_week(r as int) == k,
{
    proof {
        let x = date as int - k as int;
        assert((date - (x % 7)) % 7 == k) by {
            vstd::arithmetic::div_mod::lemma_fundamental_div_mod(x, 7);
            vstd::arithmetic::div_mod::lemma_mod_multiples_vanish(x / 7, k as int, 7);
        }
    }
    date - day_of_week_from_fixed(date - k)
}

/// The earliest day on or after `date` that falls on weekday `k`.
pub fn kday_on_or_after(date: RD, k: i32) -> (r: RD)
    requires
        i32::MIN + 6 <= date <= i32::MAX - 6,
        is_weekday(k as int),
    ensures
        r == kday_on_or_before_spec(date + 6, k as int),
        date <= r < date + 7,
        day_of_week(r as int) == k,
{
    kday_on_or_before(date + 6, k)
}

/// The day nearest to `date` that falls on weekday `k`.
pub fn kday_nearest(date: RD, k: i32) -> (r: RD)
    requires
        i32::MIN + 6 <= date <= i32::MAX - 3,
        is_weekday(k as int),
    ensures
        r == kday_on_or_before_spec(date + 3, k as int),
        date - 3 <= r <= date + 3,
        day_of_week(r as int) == k,
{
    kday_on_or_before(date + 3, k)
}

/// The latest day strictly before `date` that falls on weekday `k`.
pub fn kday_before(date: RD, k: i32) -> (r: RD)
    requires
        date >= i32::MIN + 7,
        is_weekday(k as int),
    ensures
        r == kday_on_or_before_spec(date - 1, k as int),
        date - 7 <= r < date,
        day_of_week(r as int) == k,
{
    kday_on_or_before(date - 1, k)
}

/// The earliest day strictly after `date` that falls on weekday `k`.
pub fn kday_after(date: RD, k: i32) -> (r: RD)
    requires
        i32::MIN + 6 <= date <= i32::MAX - 7,
        is_weekday(k as int),
    ensures
        r == kday_on_or_before_spec(date + 7, k as int),
        date < r <= date + 7,
        day_of_week(r as int) == k,
{
    kday_on_or_before(date + 7, k)
}

/// The `n`-th weekday `k` counted from `date`: for `n > 0` the `n`-th one
/// after `date`, for `n < 0` the `|n|`-th one before it.
pub open spec fn nth_kday_spec(date: int, n: int, k: int) -> int {
    7 * n + if n > 0 {
        kday_on_or_before_spec(date - 1, k)
    } else {
        kday_on_or_before_spec(date + 7, k)
    }
}

/// The `n`-th day of weekday `k` after `date` (`n > 0`), or the `|n|`-th one
/// before it (`n < 0`). A day equal to `date` counts as the first in both
/// directions.
pub fn nth_kday(date: RD, n: i32, k: i32) -> (r: RD)
    requires
        n != 0,
        i32::MIN + 7 <= date <= i32::MAX - 7,
        i32::MIN + 7 <= date + 7 * n <= i32::MAX - 7,
        i32::MIN <= 7 * n <= i32::MAX,
        is_weekday(k as int),
    ensures
        r == nth_kday_spec(date as int, n as int, k as int),
        day_of_week(r as int) == k,
        n > 0 ==> date + 7 * (n - 1) <= r < date + 7 * n,
        n < 0 ==> date + 7 * n < r <= date + 7 * (n + 1),
{
    let base = if n > 0 {
        kday_before(date, k)
    } else {
        kday_after(date, k)
    };
    proof {
        lemma_day_of_week_periodic(base as int, n as int);
    }
    7 * n + base
}

/// First day of a cycle of length `cycle_length` in `[start, end]` that has
/// position `day_number`, where `delta` is the position of fixed day 0.
pub open spec fn first_in_cycle(day_number: int, cycle_length: int, delta: int, start: int) -> int {
    start + (day_number - start - delta - 1) % cycle_length
}

/// How many days of `[start, end]` have position `day_number` in the cycle.
pub open spec fn count_in_cycle(
    day_number: int,
    cycle_length: int,
    delta: int,
    start: int,
    end: int,
) -> int {
    let first = first_in_cycle(day_number, cycle_length, delta, start);
    if first > end {
        0
    } else {
        (end - first) / cycle_length + 1
    }
}

/// The days of `[start, end]` that have position `day_number` in a cycle of
/// length `cycle_length`, where `delta` is the position of fixed day 0, in
/// ascending order.
pub fn positions_in_cycle(day_number: i32, cycle_length: i32, delta: i32, start: RD, end: RD) -> (r:
    Vec<RD>)
    requires
        0 < cycle_length <= MAX_FIXED,
        fixed_in_range(day_number as int),
        fixed_in_range(delta as int),
        fixed_in_range(start as int),
        fixed_in_range(end as int),
    ensures
        r@.len() == count_in_cycle(
            day_number as int,
            cycle_length as int,
            delta as int,
            start as int,
            end as int,
        ),
        forall|i: int|
            0 <= i < r@.len() ==> #[trigger] r@[i] == first_in_cycle(
                day_number as int,
                cycle_length as int,
                delta as int,
                start as int,
            ) + i * cycle_length,
{
    let first = start + divide(day_number - start - delta - 1, cycle_length).1;
    let mut days: Vec<RD> = Vec::new();
    let mut pos = first;
    let ghost count = count_in_cycle(
        day_number as int,
        cycle_length as int,
        delta as int,
        start as int,
        end as int,
    );
    assert(days@.len() == 0);
    assert(pos == first + (days@.len() as int) * (cycle_length as int));
    let ghost span: int = end - first;
    let ghost cl: int = cycle_length as int;
    proof {
        vstd::arithmetic::div_mod::lemma_fundamental_div_mod(span, cl);
        vstd::arithmetic::div_mod::lemma_mod_bound(span, cl);
    }
    while pos <= end
        invariant
            0 < cycle_length <= MAX_FIXED,
            fixed_in_range(end as int),
            first == first_in_cycle(day_number as int, cycle_length as int, delta as int, start as int),
            pos == first + (days@.len() as int) * cl,
            first <= end ==> count == span / cl + 1,
            first <= end ==> span == cl * (span / cl) + span % cl,
            first <= end ==> 0 <= span % cl < cycle_length,
            first > end ==> count == 0,
            days@.len() <= count,
            pos <= end ==> days@.len() < count,
            span == end - first,
            cl == cycle_length,
            forall|i: int|
                0 <= i < days@.len() ==> #[trigger] days@[i] == first + i * cl,
        decreases end + cycle_length - pos,
    {
        days.push(pos);
        proof {
            assert(pos + cl == first + (days@.len() as int) * cl) by (nonlinear_arith)
                requires
                    pos == first + (days@.len() as int - 1) * cl,
            ;
            if first <= end && pos + cycle_length <= end {
                let len = days@.len() as int;
                assert((span / cl + 1) * cl == cl * (span / cl) + cl) by (nonlinear_arith);
                assert(len * cl == pos + cl - first) by (nonlinear_arith)
                    requires
                        pos + cl == first + len * cl,
                ;
                vstd::arithmetic::mul::lemma_mul_strict_inequality_converse(len, count, cl);
            }
        }
        pos = pos + cycle_length;
    }
    proof {
        if first <= end {
            let len = days@.len() as int;
            assert((count - 1) * cl == cl * (span / cl)) by (nonlinear_arith)
                requires
                    count == span / cl + 1,
            ;
            vstd::arithmetic::mul::lemma_mul_strict_inequality_converse(count - 1, len, cl);
        }
    }
    days
}

/// The days of `[start, end]` that have one position in a cycle, handed
/// out one at a time in ascending order.
pub struct PositionsInCycle {
    day_number: i32,
    cycle_length: i32,
    delta: i32,
    pos: RD,
    end: RD,
}

impl PositionsInCycle {
    /// The cycle, the position sought, and where the search stands.
    pub closed spec fn well_formed(&self) -> bool {
        &&& 0 < self.cycle_length <= MAX_FIXED
        &&& fixed_in_range(self.day_number as int)
        &&& fixed_in_range(self.delta as int)
        &&& fixed_in_range(self.end as int)
        &&& MIN_FIXED <= self.pos <= self.end + self.cycle_length
        &&& (self.pos <= self.end + 1 || self.candidate() == self.pos)
    }

    /// The day from which the next search starts.
    pub closed spec fn position(&self) -> int {
        self.pos as int
    }

    /// The last day of the range.
    pub closed spec fn last(&self) -> int {
        self.end as int
    }

    /// The next day the search finds from the current position, in range
    /// or not.
    pub closed spec fn candidate(&self) -> int {
        first_in_cycle(
            self.day_number as int,
            self.cycle_length as int,
            self.delta as int,
            self.pos as int,
        )
    }

    /// A search over `[start, end]` for the days with position `day_number`
    /// in a cycle of length `cycle_length`, where `delta` is the position
    /// of fixed day 0.
    pub fn new(day_number: i32, cycle_length: i32, delta: i32, start: RD, end: RD) -> (r: Self)
        requires
            0 < cycle_length <= MAX_FIXED,
            fixed_in_range(day_number as int),
            fixed_in_range(delta as int),
            fixed_in_range(start as int),
            fixed_in_range(end as int),
            start <= end + 1,
        ensures
            r.well_formed(),
            r.position() == start,
            r.last() == end,
            r.candidate() == first_in_cycle(
                day_number as int,
                cycle_length as int,
                delta as int,
                start as int,
            ),
    {
        PositionsInCycle { day_number, cycle_length, delta, pos: start, end }
    }

    /// The next day of the range with the position sought, or `None` once
    /// the search has passed the end of the range.
    pub fn next(&mut self) -> (r: Option<i32>)
        requires
            old(self).well_formed(),
        ensures
            final(self).well_formed(),
            final(self).last() == old(self).last(),
            old(self).candidate() > old(self).last() ==> r.is_none() && final(self).position()
                == old(self).candidate(),
            old(self).candidate() <= old(self).last() ==> r == Some(old(self).candidate() as i32)
                && final(self).position() == old(self).candidate() + 1,
    {
        proof {
            let x = self.day_number - self.pos - self.delta - 1;
            let c = self.cycle_length as int;
            lemma_fundamental_div_mod(x, c);
            lemma_mod_bound(x, c);
            lemma_mod_multiples_basic(x / c, c);
            assert(self.day_number - (self.pos + x % c) - self.delta - 1 == (x / c) * c);
        }
        self.pos = self.pos + divide(
            self.day_number - self.pos - self.delta - 1,
            self.cycle_length,
        ).1;
        if self.pos > self.end {
            None
        } else {
            self.pos = self.pos + 1;
            Some(self.pos - 1)
        }
    }
}

} // verus!
