use vstd::arithmetic::div_mod::{lemma_fundamental_div_mod, lemma_fundamental_div_mod_converse};
use vstd::prelude::*;

verus! {

/// A day on the linear day count: day 1 is 1 January of year 1 of the
/// proleptic Gregorian calendar.
pub type RD = i32;

/// Smallest fixed day that the converters accept. The range, about 270000
/// years either side of the epoch, keeps every intermediate quantity of the
/// conversions inside `i32`.
pub const MIN_FIXED: i32 = -100_000_000;

/// Largest fixed day that the converters accept.
pub const MAX_FIXED: i32 = 100_000_000;

/// Largest magnitude of a calendar year that the converters accept: a
/// little more than the years that the range of fixed days reaches.
pub const MAX_YEAR: i32 = 300_000;

/// A fixed day inside the supported range.
pub open spec fn fixed_in_range(f: int) -> bool {
    MIN_FIXED <= f <= MAX_FIXED
}

/// A year inside the supported range.
pub open spec fn year_in_range(y: int) -> bool {
    -MAX_YEAR <= y <= MAX_YEAR
}

/// `floor(x / y)`, for a divisor of either sign.
pub open spec fn floor_div(x: int, y: int) -> int
    recommends
        y != 0,
{
    if y > 0 {
        x / y
    } else {
        (-x) / (-y)
    }
}

/// The remainder that goes with `floor_div`: it has the sign of `y`.
pub open spec fn floor_mod(x: int, y: int) -> int
    recommends
        y != 0,
{
    x - y * floor_div(x, y)
}

/// The remainder of `x` by `y` taken in `1..=y` instead of `0..y`.
pub open spec fn amod(x: int, y: int) -> int
    recommends
        y != 0,
{
    if floor_mod(x, y) == 0 {
        y
    } else {
        floor_mod(x, y)
    }
}

proof fn lemma_floor_div_unique(x: int, y: int, q: int, r: int)
    requires
        y != 0,
        x == y * q + r,
        y > 0 ==> 0 <= r < y,
        y < 0 ==> y < r <= 0,
    ensures
        q == floor_div(x, y),
        r == floor_mod(x, y),
{
    if y > 0 {
        assert(x == q * y + r) by (nonlinear_arith)
            requires
                x == y * q + r,
        ;
        lemma_fundamental_div_mod_converse(x, y, q, r);
    } else {
        assert(-x == q * (-y) + (-r)) by (nonlinear_arith)
            requires
                x == y * q + r,
        ;
        lemma_fundamental_div_mod_converse(-x, -y, q, -r);
    }
}

proof fn lemma_truncated_div(x: int, y: int)
    requires
        y != 0,
    ensures
        ({
            let q = if x >= 0 { x / y } else { -((-x) / y) };
            let m = if x >= 0 { x % y } else { -((-x) % y) };
            &&& x == y * q + m
            &&& x >= 0 ==> 0 <= m
            &&& x < 0 ==> m <= 0
            &&& y > 0 ==> -y < m < y
            &&& y < 0 ==> y < m < -y
            &&& -(if x >= 0 { x } else { -x }) <= q <= (if x >= 0 { x } else { -x })
            &&& (y == -1 || y == 1 || 2 * (if q >= 0 { q } else { -q }) <= (if x >= 0 { x } else { -x }))
        }),
{
    let ax = if x >= 0 { x } else { -x };
    lemma_fundamental_div_mod(ax, y);
    assert(0 <= ax % y < if y > 0 { y } else { -y }) by (nonlinear_arith)
        requires
            y != 0,
    ;
    let aq = ax / y;
    assert(-ax <= aq <= ax && (y == -1 || y == 1 || 2 * (if aq >= 0 { aq } else { -aq }) <= ax))
        by (nonlinear_arith)
        requires
            ax >= 0,
            y != 0,
            ax == y * aq + ax % y,
            0 <= ax % y < if y > 0 { y } else { -y },
    ;
    if x < 0 {
        assert(x == y * (-((-x) / y)) + -((-x) % y)) by (nonlinear_arith)
            requires
                -x == y * ((-x) / y) + ((-x) % y),
        ;
    }
}

/// Division that rounds the quotient down and gives the remainder the sign
/// of the divisor, so that `0 <= sign(y) * r < |y|`.
pub fn divide(x: i32, y: i32) -> (r: (i32, i32))
    requires
        y != 0,
        !(x == i32::MIN && y == -1),
    ensures
        r.0 == floor_div(x as int, y as int),
        r.1 == floor_mod(x as int, y as int),
        y > 0 ==> r.0 == x as int / y as int && r.1 == x as int % y as int,
        y > 0 ==> 0 <= r.1 < y,
        y < 0 ==> y < r.1 <= 0,
        x == y * r.0 + r.1,
{
    proof {
        lemma_truncated_div(x as int, y as int);
        lemma_fundamental_div_mod(x as int, y as int);
    }
    let q = x / y;
    let m = x % y;
    proof {
        let xi = x as int;
        let yi = y as int;
        assert(q == if xi >= 0 { xi / yi } else { -((-xi) / yi) });
        assert(m == if xi >= 0 { xi % yi } else { -((-xi) % yi) });
    }
    if m != 0 && ((m < 0) != (y < 0)) {
        proof {
            assert(x == y * (q - 1) + (m + y)) by (nonlinear_arith)
                requires
                    x == y * q + m,
            ;
            lemma_floor_div_unique(x as int, y as int, q - 1, m + y);
        }
        (q - 1, m + y)
    } else {
        proof {
            lemma_floor_div_unique(x as int, y as int, q as int, m as int);
        }
        (q, m)
    }
}

/// `divide` with the remainder taken in `1..=y` (or `y..=-1`) instead of
/// starting at zero: an exact multiple gives `y`, the last position of a
/// cycle numbered from 1. The quotient is the same floor as in `divide`.
pub fn alternate_divide(x: i32, y: i32) -> (r: (i32, i32))
    requires
        y != 0,
        !(x == i32::MIN && y == -1),
    ensures
        r.0 == floor_div(x as int, y as int),
        r.1 == amod(x as int, y as int),
        y > 0 ==> 1 <= r.1 <= y,
        y > 0 ==> r.1 == (if x as int % y as int == 0 { y as int } else { x as int % y as int }),
{
    let d = divide(x, y);
    (d.0, if d.1 == 0 {
        y
    } else {
        d.1
    })
}

/// `floor(n / d)` on wide integers, for a positive divisor.
pub fn floor_div_wide(n: i128, d: i128) -> (r: i128)
    requires
        0 < d <= 1_000_000_000_000_000_000_000_000_000_000,
        -1_000_000_000_000_000_000_000_000_000_000 <= n <= 1_000_000_000_000_000_000_000_000_000_000,
    ensures
        r == n as int / d as int,
        -1_000_000_000_000_000_000_000_000_000_000 <= r <= 1_000_000_000_000_000_000_000_000_000_000,
{
    proof {
        let ni = n as int;
        let di = d as int;
        lemma_fundamental_div_mod(ni, di);
        vstd::arithmetic::div_mod::lemma_mod_bound(ni, di);
        let qi = ni / di;
        assert(-1_000_000_000_000_000_000_000_000_000_000 <= qi <= 1_000_000_000_000_000_000_000_000_000_000) by (nonlinear_arith)
            requires
                ni == di * qi + ni % di,
                0 <= ni % di < di,
                di >= 1,
                -1_000_000_000_000_000_000_000_000_000_000 <= ni <= 1_000_000_000_000_000_000_000_000_000_000,
        ;
    }
    let q = if n >= 0 {
        n / d
    } else {
        -((-n + d - 1) / d)
    };
    proof {
        let ni = n as int;
        let di = d as int;
        lemma_fundamental_div_mod(ni, di);
        vstd::arithmetic::div_mod::lemma_mod_bound(ni, di);
        if ni < 0 {
            lemma_fundamental_div_mod(-ni + di - 1, di);
            vstd::arithmetic::div_mod::lemma_mod_bound(-ni + di - 1, di);
            let k = (-ni + di - 1) / di;
            let m = (-ni + di - 1) % di;
            assert(ni == di * (-k) + (di - 1 - m)) by (nonlinear_arith)
                requires
                    -ni + di - 1 == di * k + m,
            ;
            lemma_fundamental_div_mod_converse(ni, di, -k, di - 1 - m);
        }
    }
    q
}

/// An optional fixed day, seen as an optional integer.
pub open spec fn option_int(r: Option<i32>) -> Option<int> {
    match r {
        Some(v) => Some(v as int),
        None => None,
    }
}

/// A sequence of fixed days, seen as a sequence of integers.
pub open spec fn seq_int(r: Seq<i32>) -> Seq<int> {
    r.map_values(|v: i32| v as int)
}

/// `seq![day]` when `day` lies in `[first, last]`, else the empty sequence:
/// one candidate of a search within a range of days.
pub open spec fn keep_in_range(day: int, first: int, last: int) -> Seq<int> {
    if first <= day <= last {
        seq![day]
    } else {
        Seq::empty()
    }
}

/// Appends `day` to `days` when it lies in `[first, last]`.
pub fn push_in_range(days: &mut Vec<RD>, day: RD, first: RD, last: RD)
    ensures
        seq_int(final(days)@) == seq_int(old(days)@) + keep_in_range(day as int, first as int, last as int),
{
    if first <= day && day <= last {
        days.push(day);
        assert(seq_int(days@) =~= seq_int(old(days)@) + seq![day as int]);
    } else {
        assert(seq_int(days@) =~= seq_int(old(days)@) + Seq::<int>::empty());
    }
}

/// An exact rational number `dividend / divisor`, the form in which the
/// mean motions of the astronomical calendars are given.
pub struct Ratio {
    pub dividend: i32,
    pub divisor: i32,
}

} // verus!
