use calendars::ecclesiastical::{alt_orthodox_easter, easter, orthodox_easter};
use calendars::gregorian::{
    days_remaining, daylight_saving_end, daylight_saving_start, election_day, first_kday,
    fixed_from_gregorian, gregorian_date_difference, independence_day, labor_day, last_kday,
    memorial_day, nth_kday, Gregorian,
};
use calendars::hebrew::Hebrew;
use calendars::hebrew_holidays::{
    birkath_hachama, hebrew_birthday, hebrew_birthday_in_gregorian, hebrew_in_gregorian, omer,
    passover, purim, sheela, taanit_esther, tisha_bav, tzom_tevet, yahrtzeit,
    yahrtzeit_in_gregorian, yom_hashoa, yom_hazikaron, yom_kippur, Omer,
};
use calendars::islamic::islamic_in_gregorian;

fn g(year: i32, month: i32, day: i32) -> i32 {
    fixed_from_gregorian(Gregorian { year, month, day })
}

#[test]
fn easter_dates() {
    assert_eq!(g(2024, 3, 31), easter(2024));
    assert_eq!(g(2025, 4, 20), easter(2025));
    assert_eq!(g(2000, 4, 23), easter(2000));
    assert_eq!(g(2024, 5, 5), orthodox_easter(2024));
    assert_eq!(g(2025, 4, 20), orthodox_easter(2025));
    assert_eq!(g(2024, 5, 5), alt_orthodox_easter(2024));
    assert_eq!(g(2025, 4, 20), alt_orthodox_easter(2025));
}

#[test]
fn american_holidays() {
    assert_eq!(g(2024, 7, 4), independence_day(2024));
    assert_eq!(g(2024, 9, 2), labor_day(2024));
    assert_eq!(g(2024, 5, 27), memorial_day(2024));
    assert_eq!(g(2024, 11, 5), election_day(2024));
    assert_eq!(g(2024, 4, 7), daylight_saving_start(2024));
    assert_eq!(g(2024, 10, 27), daylight_saving_end(2024));
}

#[test]
fn gregorian_weekday_counts() {
    let date = Gregorian { year: 2024, month: 11, day: 1 };
    assert_eq!(g(2024, 11, 28), nth_kday(4, 4, date));
    assert_eq!(g(2024, 11, 3), first_kday(0, date));
    assert_eq!(g(2024, 10, 27), last_kday(0, date));
}

#[test]
fn date_differences() {
    let a = Gregorian { year: 2024, month: 3, day: 1 };
    let b = Gregorian { year: 2024, month: 2, day: 1 };
    assert_eq!(29, gregorian_date_difference(a, b));
    assert_eq!(-30, days_remaining(Gregorian { year: 2024, month: 12, day: 1 }));
    assert_eq!(0, days_remaining(Gregorian { year: 2023, month: 12, day: 31 }));
    assert_eq!(-365, days_remaining(Gregorian { year: 2024, month: 1, day: 1 }));
}

#[test]
fn hebrew_holidays_2024() {
    assert_eq!(g(2024, 10, 12), yom_kippur(2024));
    assert_eq!(g(2024, 4, 23), passover(2024));
    assert_eq!(g(2024, 3, 24), purim(2024));
    assert_eq!(g(2024, 3, 21), taanit_esther(2024));
    assert_eq!(g(2024, 8, 13), tisha_bav(2024));
    assert_eq!(g(2024, 5, 6), yom_hashoa(2024));
    assert_eq!(g(2024, 5, 12), yom_hazikaron(2024));
}

#[test]
fn hebrew_holidays_moved_by_weekday() {
    // 9 Av 5775 fell on the Sabbath, 4 Iyyar on a Thursday.
    assert_eq!(g(2015, 7, 26), tisha_bav(2015));
    assert_eq!(g(2015, 4, 22), yom_hazikaron(2015));
}

#[test]
fn omer_count() {
    assert_eq!(Some(Omer { week: 1, day: 1 }), omer(g(2024, 5, 1)));
    assert_eq!(None, omer(passover(2024)));
    assert_eq!(Some(Omer { week: 0, day: 1 }), omer(passover(2024) + 1));
    assert_eq!(Some(Omer { week: 7, day: 0 }), omer(passover(2024) + 49));
    assert_eq!(None, omer(passover(2024) + 50));
}

#[test]
fn hebrew_dates_in_gregorian_year() {
    assert_eq!(vec![g(2023, 1, 3), g(2023, 12, 22)], tzom_tevet(2023));
    assert_eq!(Vec::<i32>::new(), tzom_tevet(2024));
    assert_eq!(vec![g(2024, 10, 12)], hebrew_in_gregorian(7, 10, 2024));
}

#[test]
fn islamic_dates_in_gregorian_year() {
    assert_eq!(vec![733051, 733405], islamic_in_gregorian(1, 1, 2008));
    assert_eq!(vec![739075], islamic_in_gregorian(1, 1, 2024));
}

#[test]
fn coptic_based_hebrew_days() {
    assert_eq!(g(2024, 12, 5), sheela(2024));
    assert_eq!(None, birkath_hachama(2024));
    assert_eq!(Some(g(2009, 4, 8)), birkath_hachama(2009));
}

#[test]
fn birthdays_and_yahrtzeits() {
    let born_in_adar_ii = Hebrew { year: 5700, month: 13, day: 15 };
    assert_eq!(738970, hebrew_birthday(born_in_adar_ii, 5784));
    assert_eq!(vec![738970], hebrew_birthday_in_gregorian(born_in_adar_ii, 2024));
    let died_30_marcheshvan = Hebrew { year: 5760, month: 8, day: 30 };
    assert_eq!(738838, yahrtzeit(died_30_marcheshvan, 5784));
    assert_eq!(vec![739222], yahrtzeit_in_gregorian(died_30_marcheshvan, 2024));
    let died_in_adar_ii = Hebrew { year: 5763, month: 13, day: 10 };
    assert_eq!(739320, yahrtzeit(died_in_adar_ii, 5785));
    assert_eq!(738965, yahrtzeit(died_in_adar_ii, 5784));
}
