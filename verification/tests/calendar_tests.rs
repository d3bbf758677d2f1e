use devcap::calendar::{civil_from_days, days_in_month, leap_year, year_and_day, Date};

fn date(year: i64, month: u8, day: u8) -> Date {
    Date { year, month, day }
}

#[test]
fn day_zero_is_the_first_of_january_1970() {
    assert_eq!(civil_from_days(0), date(1970, 1, 1));
}

#[test]
fn days_before_the_epoch_count_backwards() {
    assert_eq!(civil_from_days(-1), date(1969, 12, 31));
    assert_eq!(civil_from_days(-25508), date(1900, 3, 1));
    assert_eq!(civil_from_days(-25509), date(1900, 2, 28));
    assert_eq!(civil_from_days(-134774), date(1601, 1, 1));
    assert_eq!(civil_from_days(-134775), date(1600, 12, 31));
    assert_eq!(civil_from_days(-719162), date(1, 1, 1));
    assert_eq!(civil_from_days(-719528), date(0, 1, 1));
}

#[test]
fn leap_days_are_dates() {
    assert_eq!(civil_from_days(19782), date(2024, 2, 29));
    assert_eq!(civil_from_days(19783), date(2024, 3, 1));
    assert_eq!(civil_from_days(11016), date(2000, 2, 29));
}

#[test]
fn year_ends_are_found() {
    assert_eq!(civil_from_days(19722), date(2023, 12, 31));
    assert_eq!(civil_from_days(19723), date(2024, 1, 1));
    assert_eq!(civil_from_days(20088), date(2024, 12, 31));
    assert_eq!(civil_from_days(47846), date(2100, 12, 31));
    assert_eq!(civil_from_days(2932896), date(9999, 12, 31));
}

#[test]
fn the_largest_and_smallest_day_numbers_have_dates() {
    assert_eq!(civil_from_days(i64::MAX), date(25252734927768524, 7, 27));
    assert_eq!(civil_from_days(i64::MIN), date(-25252734927764585, 6, 7));
    assert_eq!(civil_from_days(106751991167300), date(292277026596, 12, 4));
    assert_eq!(civil_from_days(-106751991167301), date(-292277022657, 1, 27));
}

#[test]
fn consecutive_days_have_consecutive_dates() {
    let mut expected = date(2023, 1, 1);
    let mut n: i64 = 19358;
    while n < 19358 + 800 {
        assert_eq!(civil_from_days(n), expected);
        let len = days_in_month(leap_year(expected.year), expected.month);
        if expected.day < len {
            expected.day += 1;
        } else if expected.month < 12 {
            expected.month += 1;
            expected.day = 1;
        } else {
            expected.year += 1;
            expected.month = 1;
            expected.day = 1;
        }
        n += 1;
    }
}

#[test]
fn year_and_day_counts_from_the_first_of_january() {
    let first = year_and_day(19723);
    assert_eq!((first.year, first.day_of_year), (2024, 0));
    let last = year_and_day(20088);
    assert_eq!((last.year, last.day_of_year), (2024, 365));
    let eve = year_and_day(19722);
    assert_eq!((eve.year, eve.day_of_year), (2023, 364));
    let march = year_and_day(19797);
    assert_eq!((march.year, march.day_of_year), (2024, 74));
}

#[test]
fn leap_years_follow_the_gregorian_rule() {
    assert!(leap_year(2024));
    assert!(leap_year(2000));
    assert!(leap_year(1600));
    assert!(leap_year(0));
    assert!(leap_year(-4));
    assert!(leap_year(-400));
    assert!(!leap_year(2023));
    assert!(!leap_year(1900));
    assert!(!leap_year(2100));
    assert!(!leap_year(-1));
    assert!(!leap_year(-100));
    assert!(!leap_year(i64::MAX));
    assert!(leap_year(i64::MIN));
}

#[test]
fn months_have_their_lengths() {
    let plain: Vec<u8> = (1..=12).map(|m| days_in_month(false, m)).collect();
    assert_eq!(plain, vec![31, 28, 31, 30, 31, 30, 31, 31, 30, 31, 30, 31]);
    let leap: Vec<u8> = (1..=12).map(|m| days_in_month(true, m)).collect();
    assert_eq!(leap, vec![31, 29, 31, 30, 31, 30, 31, 31, 30, 31, 30, 31]);
}
