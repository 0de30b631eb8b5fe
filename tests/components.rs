use calendars::balinese_powukon::{
    bali_asatawara_from_fixed, bali_caturwara_from_fixed, bali_dasawara_from_fixed,
    bali_day_from_fixed, bali_dwiwara_from_fixed, bali_pancawara_from_fixed,
    bali_sadwara_from_fixed, bali_sangawara_from_fixed, bali_saptawara_from_fixed,
    bali_triwara_from_fixed, bali_week_from_fixed, is_day_luang,
};
use calendars::hebrew::{
    hebrew_calendar_elapsed_days, hebrew_new_year, hebrew_new_year_delay, is_long_marcheshvan,
    is_short_kislev, EPOCH as HEBREW_EPOCH,
};
use calendars::hindu::{hindu_day_count, is_lunisolar_leap_year, jovian_year};
use calendars::islamic::{
    is_islamic_birashk_leap_year, is_islamic_leap_year, is_islamic_leap_year_with,
    islamic_in_gregorian, IslamicConvention,
};
use calendars::julian::is_julian_leap_year;
use calendars::mayan::{mayan_haab_ordinal, mayan_tzolkin_ordinal, Haab, Tzolkin};
use calendars::roman::{ides_of_month, nones_of_month};

#[test]
fn pawukon_cycles() {
    let day = 710347;
    assert_eq!(bali_day_from_fixed(day), (day + 1721279) % 210);
    assert_eq!(1, bali_triwara_from_fixed(day));
    assert_eq!(1, bali_sadwara_from_fixed(day));
    assert_eq!(2, bali_saptawara_from_fixed(day));
    assert_eq!(3, bali_pancawara_from_fixed(day));
    assert_eq!(2, bali_dasawara_from_fixed(day));
    assert_eq!(2, bali_dwiwara_from_fixed(day));
    assert!(is_day_luang(day));
    assert_eq!(7, bali_sangawara_from_fixed(day));
    assert_eq!(5, bali_asatawara_from_fixed(day));
    assert_eq!(1, bali_caturwara_from_fixed(day));
    assert_eq!(bali_day_from_fixed(day) / 7 + 1, bali_week_from_fixed(day));
}

#[test]
fn pawukon_cycle_start() {
    let start = -1721279;
    assert_eq!(0, bali_day_from_fixed(start));
    assert_eq!(1, bali_week_from_fixed(start));
    assert_eq!(1, bali_sangawara_from_fixed(start + 3));
    assert_eq!(2, bali_sangawara_from_fixed(start + 4));
    assert_eq!(30, bali_week_from_fixed(start + 209));
}

#[test]
fn hebrew_new_year_rules() {
    assert_eq!(hebrew_new_year(5785) - HEBREW_EPOCH, hebrew_calendar_elapsed_days(5785) + hebrew_new_year_delay(5785));
    assert!(is_long_marcheshvan(5785));
    assert!(!is_short_kislev(5785));
    assert!(is_short_kislev(5784));
    assert!(!is_long_marcheshvan(5784));
    for year in 5000..6000 {
        let delay = hebrew_new_year_delay(year);
        assert!(delay >= 0 && delay <= 2);
    }
}

#[test]
fn hindu_counts() {
    assert_eq!(710347 + 1132959, hindu_day_count(710347));
    let jovian = jovian_year(710347);
    assert!(jovian >= 1 && jovian <= 60);
    assert_eq!(jovian_year(-1132959), 1);
    let leap_years = (5000..5100).filter(|&y| is_lunisolar_leap_year(y)).count();
    assert_eq!(36, leap_years);
    assert!(is_lunisolar_leap_year(5018));
    assert!(!is_lunisolar_leap_year(5019));
}

#[test]
fn leap_rules() {
    assert!(is_julian_leap_year(1900));
    assert!(is_julian_leap_year(-1));
    assert!(!is_julian_leap_year(-4));
    assert!(is_islamic_leap_year(2));
    assert!(!is_islamic_leap_year(15));
    assert!(is_islamic_birashk_leap_year(15));
    assert!(is_islamic_leap_year_with(16, IslamicConvention::Arithmetic));
    assert!(!is_islamic_leap_year_with(16, IslamicConvention::Birashk));
}

#[test]
fn islamic_date_once_or_twice_a_year() {
    // An Islamic year of 354 or 355 days puts each date in every Gregorian
    // year once, or twice.
    for year in 1990..2030 {
        let days = islamic_in_gregorian(9, 1, year);
        assert!(days.len() >= 1 && days.len() <= 2);
    }
}

#[test]
fn mayan_ordinals() {
    assert_eq!(348, mayan_haab_ordinal(Haab { month: 18, day: 8 }));
    assert_eq!(0, mayan_haab_ordinal(Haab { month: 1, day: 0 }));
    assert_eq!(364, mayan_haab_ordinal(Haab { month: 19, day: 4 }));
    assert_eq!(159, mayan_tzolkin_ordinal(Tzolkin { number: 4, name: 20 }));
    assert_eq!(0, mayan_tzolkin_ordinal(Tzolkin { number: 1, name: 1 }));
}

#[test]
fn roman_named_days() {
    assert_eq!(15, ides_of_month(3));
    assert_eq!(13, ides_of_month(1));
    assert_eq!(7, nones_of_month(10));
    assert_eq!(5, nones_of_month(12));
}
