//! Conversions between a linear day count ("fixed day") and a collection of
//! historical, religious and civil calendars, with the holidays built on them.
pub mod common;
pub mod cycles_of_days;
pub mod gregorian;
pub mod julian;
pub mod roman;
pub mod iso;
pub mod coptic_ethiopic;
pub mod islamic;
pub mod hebrew;
pub mod hebrew_holidays;
pub mod mayan;
pub mod balinese_powukon;
pub mod ecclesiastical;
pub mod julian_day;
pub mod hindu;
