use calendars::common::{alternate_divide, divide};
use calendars::cycles_of_days::{
    day_of_week_from_fixed, kday_after, kday_before, kday_nearest, kday_on_or_after,
    kday_on_or_before, nth_kday, positions_in_cycle, PositionsInCycle,
};

#[test]
fn divide_rounds_down() {
    assert_eq!((2, 1), divide(7, 3));
    assert_eq!((-3, 2), divide(-7, 3));
    assert_eq!((-3, -2), divide(7, -3));
    assert_eq!((2, -1), divide(-7, -3));
    assert_eq!((-1, 6), divide(-1, 7));
    assert_eq!((0, 0), divide(0, 5));
    assert_eq!((i32::MIN, 0), divide(i32::MIN, 1));
}

#[test]
fn alternate_divide_counts_from_one() {
    assert_eq!((2, 7), alternate_divide(14, 7));
    assert_eq!((2, 1), alternate_divide(15, 7));
    assert_eq!((-1, 7), alternate_divide(-7, 7));
    assert_eq!((-1, 1), alternate_divide(-6, 7));
}

#[test]
fn weekdays() {
    assert_eq!(0, day_of_week_from_fixed(0));
    assert_eq!(1, day_of_week_from_fixed(710347));
    assert_eq!(6, day_of_week_from_fixed(-1));
    for n in [-5000, -3, -1, 0, 1, 2, 1000] {
        assert_eq!(day_of_week_from_fixed(710347), day_of_week_from_fixed(710347 + 7 * n));
    }
}

#[test]
fn kday_searches() {
    // 710347 is a Monday.
    assert_eq!(710346, kday_on_or_before(710347, 0));
    assert_eq!(710347, kday_on_or_before(710347, 1));
    assert_eq!(710353, kday_on_or_after(710347, 0));
    assert_eq!(710347, kday_on_or_after(710347, 1));
    assert_eq!(710346, kday_nearest(710347, 0));
    assert_eq!(710350, kday_nearest(710347, 4));
    assert_eq!(710340, kday_before(710347, 1));
    assert_eq!(710354, kday_after(710347, 1));
    assert_eq!(710346, kday_before(710347, 0));
    assert_eq!(710353, kday_after(710347, 0));
}

#[test]
fn nth_kday_counts_weeks() {
    assert_eq!(710347, nth_kday(710347, 1, 1));
    assert_eq!(710354, nth_kday(710347, 2, 1));
    assert_eq!(710347, nth_kday(710347, -1, 1));
    assert_eq!(710340, nth_kday(710347, -2, 1));
    assert_eq!(710353, nth_kday(710347, 1, 0));
    assert_eq!(710346, nth_kday(710347, -1, 0));
}

#[test]
fn positions_in_cycle_ascending() {
    let days = positions_in_cycle(3, 10, 0, 0, 50);
    assert_eq!(vec![2, 12, 22, 32, 42], days);
    assert_eq!(Vec::<i32>::new(), positions_in_cycle(3, 10, 0, 3, 11));
    assert_eq!(vec![12], positions_in_cycle(3, 10, 0, 3, 12));
    assert_eq!(vec![-8, 2], positions_in_cycle(3, 10, 0, -10, 5));
    assert_eq!(vec![1, 11], positions_in_cycle(3, 10, 1, 0, 20));
}

#[test]
fn positions_in_cycle_one_at_a_time() {
    let mut search = PositionsInCycle::new(3, 10, 0, 0, 50);
    let mut found = Vec::new();
    while let Some(day) = search.next() {
        found.push(day);
    }
    assert_eq!(positions_in_cycle(3, 10, 0, 0, 50), found);
    assert_eq!(None, search.next());
}

#[test]
fn positions_in_empty_range() {
    assert_eq!(Vec::<i32>::new(), positions_in_cycle(0, 7, 0, 10, 9));
    let mut search = PositionsInCycle::new(0, 7, 0, 10, 9);
    assert_eq!(None, search.next());
}
