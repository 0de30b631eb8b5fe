use calendars::balinese_powukon::{bali_on_or_before, bali_powukon_from_fixed, BaliPowukon};
use calendars::coptic_ethiopic::{
    coptic_from_fixed, coptic_in_gregorian, ethiopic_from_fixed, ethiopic_in_gregorian,
    fixed_from_coptic, fixed_from_ethiopic, is_coptic_leap_year, is_ethiopic_leap_year,
    CopticEthiopic,
};
use calendars::gregorian::{
    alt_fixed_from_gregorian, alt_gregorian_from_fixed, alt_gregorian_year_from_fixed,
    fixed_from_gregorian, gregorian_from_fixed, gregorian_year_from_fixed, is_leap_year, Gregorian,
};
use calendars::hebrew::{
    days_in_hebrew_year, fixed_from_hebrew, hebrew_from_fixed, hebrew_new_year,
    is_hebrew_leap_year, last_day_of_hebrew_month, last_month_of_hebrew_year, molad, Hebrew, Molad,
};
use calendars::hindu::{
    fixed_from_hindu_lunisolar, fixed_from_hindu_solar, hindu_lunisolar_from_fixed,
    hindu_solar_from_fixed, HinduLunisolar, HinduSolar,
};
use calendars::islamic::{
    fixed_from_islamic, fixed_from_islamic_birashk, fixed_from_islamic_with,
    islamic_birashk_from_fixed, islamic_from_fixed, islamic_from_fixed_with, Islamic,
    IslamicConvention,
};
use calendars::iso::{fixed_from_iso, iso_from_fixed, Iso};
use calendars::julian::{fixed_from_julian, julian_from_fixed, julian_in_gregorian, Julian};
use calendars::julian_day::{fixed_from_mjd, mjd_from_fixed};
use calendars::mayan::{
    fixed_from_long_count, long_count_from_fixed, mayan_calendar_round_on_or_before,
    mayan_haab_from_fixed, mayan_haab_on_or_before, mayan_tzolkin_from_fixed,
    mayan_tzolkin_on_or_before, Haab, LongCount, Tzolkin,
};
use calendars::roman::{fixed_from_roman, roman_from_fixed, Event, Roman};

const FIXED: i32 = 710347;

#[test]
fn gregorian_vector() {
    let date = gregorian_from_fixed(FIXED);
    assert_eq!(Gregorian { year: 1945, month: 11, day: 12 }, date);
    assert_eq!(FIXED, fixed_from_gregorian(date));
}

#[test]
fn alt_gregorian_vector() {
    let date = alt_gregorian_from_fixed(FIXED);
    assert_eq!(Gregorian { year: 1945, month: 11, day: 12 }, date);
    assert_eq!(FIXED, alt_fixed_from_gregorian(date));
}

#[test]
fn julian_vector() {
    let date = julian_from_fixed(FIXED);
    assert_eq!(Julian { year: 1945, month: 10, day: 30 }, date);
    assert_eq!(FIXED, fixed_from_julian(date));
}

#[test]
fn roman_vector() {
    let date = roman_from_fixed(FIXED);
    assert_eq!(Roman { year: 1945, month: 11, event: Event::Kalends, count: 3, leap: false }, date);
    assert_eq!(FIXED, fixed_from_roman(date));
}

#[test]
fn mjd_vector() {
    assert_eq!(31771, mjd_from_fixed(FIXED));
    assert_eq!(FIXED, fixed_from_mjd(31771));
}

#[test]
fn coptic_vector() {
    let date = coptic_from_fixed(FIXED);
    assert_eq!(CopticEthiopic { year: 1662, month: 3, day: 3 }, date);
    assert_eq!(FIXED, fixed_from_coptic(date));
}

#[test]
fn ethiopic_vector() {
    let date = ethiopic_from_fixed(FIXED);
    assert_eq!(CopticEthiopic { year: 1938, month: 3, day: 3 }, date);
    assert_eq!(FIXED, fixed_from_ethiopic(date));
}

#[test]
fn iso_vector() {
    let date = iso_from_fixed(FIXED);
    assert_eq!(Iso { year: 1945, week: 46, day: 1 }, date);
    assert_eq!(FIXED, fixed_from_iso(date));
}

#[test]
fn islamic_vector() {
    let date = islamic_from_fixed(FIXED);
    assert_eq!(Islamic { year: 1364, month: 12, day: 6 }, date);
    assert_eq!(FIXED, fixed_from_islamic(date));
}

#[test]
fn hebrew_vector() {
    let date = hebrew_from_fixed(FIXED);
    assert_eq!(Hebrew { year: 5706, month: 9, day: 7 }, date);
    assert_eq!(FIXED, fixed_from_hebrew(date));
}

#[test]
fn hindu_solar_vector() {
    let date = hindu_solar_from_fixed(FIXED);
    assert_eq!(HinduSolar { year: 5046, month: 7, day: 29 }, date);
    assert_eq!(FIXED, fixed_from_hindu_solar(date));
}

#[test]
fn hindu_lunisolar_vector() {
    let date = hindu_lunisolar_from_fixed(FIXED);
    assert_eq!(HinduLunisolar { year: 5046, month: 8, leap_month: false, day: 8 }, date);
    assert_eq!(FIXED, fixed_from_hindu_lunisolar(date));
}

#[test]
fn long_count_vector() {
    let date = long_count_from_fixed(FIXED);
    assert_eq!(LongCount { baktun: 12, katun: 16, tun: 11, uinal: 16, kin: 9 }, date);
    assert_eq!(FIXED, fixed_from_long_count(date));
}

#[test]
fn haab_vector() {
    let date = mayan_haab_from_fixed(FIXED);
    assert_eq!(Haab { month: 11, day: 7 }, date);
    assert_eq!(FIXED, mayan_haab_on_or_before(date, FIXED));
}

#[test]
fn tzolkin_vector() {
    let date = mayan_tzolkin_from_fixed(FIXED);
    assert_eq!(Tzolkin { number: 11, name: 9 }, date);
    assert_eq!(FIXED, mayan_tzolkin_on_or_before(date, FIXED));
}

#[test]
fn calendar_round_vector() {
    assert_eq!(
        Some(FIXED),
        mayan_calendar_round_on_or_before(Haab { month: 11, day: 7 }, Tzolkin { number: 11, name: 9 }, FIXED)
    );
}

#[test]
fn calendar_round_without_solution() {
    // Moving the Tzolkin name by one breaks the agreement modulo 5.
    assert_eq!(
        None,
        mayan_calendar_round_on_or_before(Haab { month: 11, day: 7 }, Tzolkin { number: 11, name: 10 }, FIXED)
    );
    assert_eq!(
        None,
        mayan_calendar_round_on_or_before(Haab { month: 1, day: 0 }, Tzolkin { number: 1, name: 1 }, 0)
    );
}

#[test]
fn calendar_round_finds_both_dates() {
    let haab = Haab { month: 11, day: 7 };
    let tzolkin = Tzolkin { number: 11, name: 9 };
    let day = mayan_calendar_round_on_or_before(haab, tzolkin, FIXED + 10000).unwrap();
    assert!(day <= FIXED + 10000 && day > FIXED + 10000 - 18980);
    assert_eq!(haab, mayan_haab_from_fixed(day));
    assert_eq!(tzolkin, mayan_tzolkin_from_fixed(day));
}

#[test]
fn bali_vector() {
    let date = bali_powukon_from_fixed(FIXED);
    assert_eq!(
        BaliPowukon {
            luang: true,
            dwiwara: 2,
            triwara: 1,
            caturwara: 1,
            pancawara: 3,
            sadwara: 1,
            saptawara: 2,
            asatawara: 5,
            sangawara: 7,
            dasawara: 2
        },
        date
    );
    assert_eq!(FIXED, bali_on_or_before(date, FIXED));
}

#[test]
fn leap_year_rules() {
    assert!(is_leap_year(2000));
    assert!(!is_leap_year(1900));
    assert!(is_leap_year(2024));
    assert!(!is_leap_year(2023));
    assert!(is_leap_year(-400));
    assert!(is_coptic_leap_year(1739));
    assert!(!is_coptic_leap_year(1740));
    assert!(is_ethiopic_leap_year(2015));
    assert!(is_hebrew_leap_year(5784));
    assert!(!is_hebrew_leap_year(5785));
    assert_eq!(13, last_month_of_hebrew_year(5784));
    assert_eq!(12, last_month_of_hebrew_year(5785));
}

#[test]
fn gregorian_year_and_ordinal() {
    assert_eq!((1945, 316), gregorian_year_from_fixed(FIXED));
    assert_eq!((2000, 366), gregorian_year_from_fixed(fixed_from_gregorian(Gregorian { year: 2000, month: 12, day: 31 })));
    assert_eq!((1, 1), gregorian_year_from_fixed(1));
    assert_eq!((0, 366), gregorian_year_from_fixed(0));
    assert_eq!((1945, 316), alt_gregorian_year_from_fixed(FIXED));
}

#[test]
fn gregorian_round_trips_over_centuries() {
    let mut fixed = fixed_from_gregorian(Gregorian { year: 1595, month: 1, day: 1 });
    let last = fixed_from_gregorian(Gregorian { year: 2405, month: 12, day: 31 });
    while fixed <= last {
        let date = gregorian_from_fixed(fixed);
        assert_eq!(fixed, fixed_from_gregorian(date));
        assert_eq!(date, alt_gregorian_from_fixed(fixed));
        fixed += 1;
    }
}

#[test]
fn gregorian_dual_forms_agree() {
    for year in [-401, -400, -1, 0, 1, 4, 100, 1600, 1700, 1899, 1900, 2000, 2024, 2100, 2400] {
        for month in 1..=12 {
            let last = match month {
                2 => if is_leap_year(year) { 29 } else { 28 },
                4 | 6 | 9 | 11 => 30,
                _ => 31,
            };
            for day in 1..=last {
                let date = Gregorian { year, month, day };
                assert_eq!(fixed_from_gregorian(date), alt_fixed_from_gregorian(date));
            }
        }
    }
}

#[test]
fn round_trips_over_negative_days() {
    let mut fixed = -800_000;
    while fixed <= 800_000 {
        assert_eq!(fixed, fixed_from_gregorian(gregorian_from_fixed(fixed)));
        assert_eq!(fixed, fixed_from_julian(julian_from_fixed(fixed)));
        assert_eq!(fixed, fixed_from_coptic(coptic_from_fixed(fixed)));
        assert_eq!(fixed, fixed_from_ethiopic(ethiopic_from_fixed(fixed)));
        assert_eq!(fixed, fixed_from_islamic(islamic_from_fixed(fixed)));
        assert_eq!(fixed, fixed_from_islamic_birashk(islamic_birashk_from_fixed(fixed)));
        assert_eq!(fixed, fixed_from_iso(iso_from_fixed(fixed)));
        assert_eq!(fixed, fixed_from_roman(roman_from_fixed(fixed)));
        assert_eq!(fixed, fixed_from_long_count(long_count_from_fixed(fixed)));
        assert_eq!(fixed, fixed_from_hindu_solar(hindu_solar_from_fixed(fixed)));
        assert_eq!(fixed, fixed_from_hindu_lunisolar(hindu_lunisolar_from_fixed(fixed)));
        assert_eq!(fixed, mayan_haab_on_or_before(mayan_haab_from_fixed(fixed), fixed));
        assert_eq!(fixed, mayan_tzolkin_on_or_before(mayan_tzolkin_from_fixed(fixed), fixed));
        assert_eq!(fixed, bali_on_or_before(bali_powukon_from_fixed(fixed), fixed));
        fixed += 997;
    }
}

#[test]
fn hebrew_round_trips() {
    let mut fixed = -400_000;
    while fixed <= 900_000 {
        let date = hebrew_from_fixed(fixed);
        assert!(date.month >= 1 && date.month <= last_month_of_hebrew_year(date.year));
        assert!(date.day >= 1 && date.day <= last_day_of_hebrew_month(date.month, date.year));
        assert_eq!(fixed, fixed_from_hebrew(date));
        fixed += 331;
    }
}

#[test]
fn hebrew_year_lengths() {
    assert_eq!(383, days_in_hebrew_year(5784));
    assert_eq!(355, days_in_hebrew_year(5785));
    assert_eq!(fixed_from_gregorian(Gregorian { year: 2024, month: 10, day: 3 }), hebrew_new_year(5785));
    assert_eq!(30, last_day_of_hebrew_month(12, 5784));
    assert_eq!(29, last_day_of_hebrew_month(12, 5785));
    assert_eq!(29, last_day_of_hebrew_month(9, 5784));
    assert_eq!(30, last_day_of_hebrew_month(8, 5785));
}

#[test]
fn molad_of_tishrei() {
    assert_eq!(Molad { date: 739162, hour: 3, minute: 21, chalakim: 13 }, molad(7, 5785));
}

#[test]
fn islamic_conventions_differ() {
    let date = Islamic { year: 1364, month: 12, day: 6 };
    assert_eq!(FIXED, fixed_from_islamic_with(date, IslamicConvention::Arithmetic));
    assert_eq!(FIXED, fixed_from_islamic_birashk(date));
    assert_eq!(date, islamic_from_fixed_with(FIXED, IslamicConvention::Birashk));
    // Year 15 of the cycle is leap in one convention only, year 16 in the other.
    let start = Islamic { year: 15, month: 1, day: 1 };
    let next = Islamic { year: 16, month: 1, day: 1 };
    let after = Islamic { year: 17, month: 1, day: 1 };
    assert_eq!(354, fixed_from_islamic(next) - fixed_from_islamic(start));
    assert_eq!(355, fixed_from_islamic_birashk(next) - fixed_from_islamic_birashk(start));
    assert_eq!(355, fixed_from_islamic(after) - fixed_from_islamic(next));
    assert_eq!(354, fixed_from_islamic_birashk(after) - fixed_from_islamic_birashk(next));
}

#[test]
fn coptic_and_julian_in_gregorian_year() {
    assert_eq!(Some(fixed_from_gregorian(Gregorian { year: 2024, month: 1, day: 7 })), julian_in_gregorian(12, 25, 2024));
    assert_eq!(Some(fixed_from_gregorian(Gregorian { year: 2023, month: 9, day: 12 })), coptic_in_gregorian(1, 1, 2023));
    assert_eq!(Some(fixed_from_gregorian(Gregorian { year: 2023, month: 9, day: 12 })), ethiopic_in_gregorian(1, 1, 2023));
}

#[test]
fn hebrew_dates_round_trip() {
    for year in [5700, 5703, 5706, 5784, 5785, 5786, 6000, 3000] {
        let last_month = last_month_of_hebrew_year(year);
        for month in 1..=last_month {
            for day in 1..=last_day_of_hebrew_month(month, year) {
                let date = Hebrew { year, month, day };
                assert_eq!(date, hebrew_from_fixed(fixed_from_hebrew(date)));
            }
        }
    }
}

#[test]
fn hebrew_year_length_is_sum_of_months() {
    for year in 5600..5900 {
        let mut total = 0;
        for month in 1..=last_month_of_hebrew_year(year) {
            total += last_day_of_hebrew_month(month, year);
        }
        assert_eq!(days_in_hebrew_year(year), total);
    }
}

#[test]
fn calendar_dates_round_trip() {
    for year in [-1000, -5, -1, 1, 2, 3, 4, 1945, 2000, 2023, 2024] {
        for month in 1..=12 {
            for day in 1..=28 {
                let julian = Julian { year, month, day };
                assert_eq!(julian, julian_from_fixed(fixed_from_julian(julian)));
                let islamic = Islamic { year: year.abs(), month, day };
                assert_eq!(islamic, islamic_from_fixed(fixed_from_islamic(islamic)));
                let coptic = CopticEthiopic { year, month, day };
                assert_eq!(coptic, coptic_from_fixed(fixed_from_coptic(coptic)));
            }
        }
        for week in 1..=52 {
            for day in 1..=7 {
                let iso = Iso { year, week, day };
                assert_eq!(iso, iso_from_fixed(fixed_from_iso(iso)));
            }
        }
    }
}

#[test]
fn hindu_dates_round_trip() {
    let mut fixed = 700_000;
    while fixed < 740_000 {
        let solar = hindu_solar_from_fixed(fixed);
        assert_eq!(solar, hindu_solar_from_fixed(fixed_from_hindu_solar(solar)));
        let lunisolar = hindu_lunisolar_from_fixed(fixed);
        assert_eq!(lunisolar, hindu_lunisolar_from_fixed(fixed_from_hindu_lunisolar(lunisolar)));
        fixed += 1;
    }
}

#[test]
fn roman_leap_day_is_repeated() {
    // 24 and 25 February of a Julian leap year share the count 6.
    let feb24 = fixed_from_julian(Julian { year: 2024, month: 2, day: 24 });
    let first = roman_from_fixed(feb24);
    let second = roman_from_fixed(feb24 + 1);
    assert_eq!(Roman { year: 2024, month: 3, event: Event::Kalends, count: 6, leap: false }, first);
    assert_eq!(Roman { year: 2024, month: 3, event: Event::Kalends, count: 6, leap: true }, second);
    assert_eq!(feb24, fixed_from_roman(first));
    assert_eq!(feb24 + 1, fixed_from_roman(second));
    let march1 = fixed_from_julian(Julian { year: 2024, month: 3, day: 1 });
    assert_eq!(Roman { year: 2024, month: 3, event: Event::Kalends, count: 1, leap: false }, roman_from_fixed(march1));
    assert_eq!(march1, fixed_from_roman(roman_from_fixed(march1)));
}

#[test]
fn roman_year_before_one() {
    // The Kalends of January after December of 1 BCE fall in 1 CE.
    let dec20 = fixed_from_julian(Julian { year: -1, month: 12, day: 20 });
    let roman = roman_from_fixed(dec20);
    assert_eq!(Roman { year: 1, month: 1, event: Event::Kalends, count: 13, leap: false }, roman);
    assert_eq!(dec20, fixed_from_roman(roman));
}
