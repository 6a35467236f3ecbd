use timezone_data::calendar::{
    days_before, is_leap_year, jan1_weekday, unix_to_yday_sec, year_of, year_to_unix,
};

#[test]
fn leap_years() {
    assert!(is_leap_year(2024));
    assert!(is_leap_year(2000));
    assert!(is_leap_year(0));
    assert!(is_leap_year(-4));
    assert!(!is_leap_year(1900));
    assert!(!is_leap_year(2023));
    assert!(!is_leap_year(2100));
}

#[test]
fn year_starts() {
    assert_eq!(days_before(1970), 0);
    assert_eq!(days_before(1969), -365);
    assert_eq!(days_before(1971), 365);
    assert_eq!(days_before(2000), 10_957);
    assert_eq!(days_before(1900), -25_567);
    assert_eq!(year_to_unix(1970), 0);
    assert_eq!(year_to_unix(2024), 1_704_067_200);
    assert_eq!(year_to_unix(2000), 946_684_800);
    assert_eq!(year_to_unix(1900), -2_208_988_800);
    assert_eq!(year_to_unix(1), -62_135_596_800);
}

#[test]
fn instants_to_year_day_second() {
    assert_eq!(unix_to_yday_sec(0), (1970, 0, 0));
    assert_eq!(unix_to_yday_sec(-1), (1969, 364, 86_399));
    // 2000-02-29 00:00:00 UTC.
    assert_eq!(unix_to_yday_sec(951_782_400), (2000, 59, 0));
    // 2024-12-31 23:59:59 UTC, the last second of a leap year.
    assert_eq!(unix_to_yday_sec(1_735_689_599), (2024, 365, 86_399));
    assert_eq!(unix_to_yday_sec(1_735_689_600), (2025, 0, 0));
    assert_eq!(year_of(1_700_000_000), 2023);
    assert_eq!(year_of(-2_208_988_801), 1899);
}

#[test]
fn year_start_round_trip() {
    for year in [-1000, 1, 1600, 1899, 1969, 1970, 2024, 2100, 9999, 100_000] {
        let start = year_to_unix(year);
        assert_eq!(unix_to_yday_sec(start), (year, 0, 0));
        assert_eq!(year_of(start - 1), year - 1);
    }
}

#[test]
fn weekday_of_january_first() {
    assert_eq!(jan1_weekday(1970), 4); // Thursday
    assert_eq!(jan1_weekday(2000), 6); // Saturday
    assert_eq!(jan1_weekday(2024), 1); // Monday
    assert_eq!(jan1_weekday(1900), 1); // Monday
    assert_eq!(jan1_weekday(1969), 3); // Wednesday
}
