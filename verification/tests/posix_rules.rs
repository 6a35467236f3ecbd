use timezone_data::{parse_posix_tz, Error, RuleKind};

fn reason(s: &str) -> &'static str {
    match parse_posix_tz(s) {
        Err(Error::BadPosixTz(m)) => m,
        Err(e) => panic!("{s:?}: unexpected error {e:?}"),
        Ok(p) => panic!("{s:?}: parsed as {p:?}"),
    }
}

#[test]
fn posix_parse_errors() {
    assert_eq!(reason(""), "empty standard timezone name");
    assert_eq!(reason("5"), "empty standard timezone name");
    assert_eq!(reason("<EST5"), "unterminated '<' in TZ name");
    assert_eq!(reason("EST"), "expected offset");
    assert_eq!(reason("EST+"), "expected digit");
    assert_eq!(reason("EST168"), "number out of range");
    assert_eq!(reason("EST5:60"), "number out of range");
    assert_eq!(reason("EST5<>,M3.2.0,M11.1.0"), "empty DST timezone name");
    assert_eq!(reason("EST5EDT4;M3.2.0,M11.1.0"), "expected ',' before transition rules");
    assert_eq!(reason("EST5EDT,"), "empty transition rule");
    assert_eq!(reason("EST5EDT,M3.2.0"), "expected ',' between transition rules");
    assert_eq!(reason("EST5EDT,M3.2.0,"), "empty transition rule");
    assert_eq!(reason("EST5EDT,M3"), "expected '.' after month in rule");
    assert_eq!(reason("EST5EDT,M3.2"), "expected '.' after week in rule");
    assert_eq!(reason("EST5EDT,M13.2.0,M11.1.0"), "number out of range");
    assert_eq!(reason("EST5EDT,M3.6.0,M11.1.0"), "number out of range");
    assert_eq!(reason("EST5EDT,M3.2.7,M11.1.0"), "number out of range");
    assert_eq!(reason("EST5EDT,J0,J300"), "number out of range");
    assert_eq!(reason("EST5EDT,366,300"), "number out of range");
    assert_eq!(reason("EST5EDT,X,Y"), "expected digit");
    // An over-long digit run is out of range, not a wrapped value.
    assert_eq!(reason("EST99999999999999999999"), "number out of range");
}

#[test]
fn posix_offsets_with_minutes_and_seconds() {
    let p = parse_posix_tz("ABC-5:30").unwrap();
    assert_eq!(p.std_offset, 5 * 3600 + 30 * 60);
    let p = parse_posix_tz("ABC+3:15:07").unwrap();
    assert_eq!(p.std_offset, -(3 * 3600 + 15 * 60 + 7));
    let p = parse_posix_tz("<+0330>-3:30").unwrap();
    assert_eq!((p.std_abbrev, p.std_offset), ("+0330", 12600));
    // An explicit DST offset.
    let p = parse_posix_tz("AAA3BBB2,M3.2.0,M11.1.0").unwrap();
    assert_eq!((p.std_offset, p.dst_offset), (-3 * 3600, -2 * 3600));
}

#[test]
fn posix_default_rules_when_dst_has_none() {
    // DST without rules follows the US rules M3.2.0,M11.1.0.
    let p = parse_posix_tz("EST5EDT").unwrap();
    assert_eq!(p.start.kind, RuleKind::MonthWeekDay);
    assert_eq!((p.start.mon, p.start.week, p.start.day, p.start.time), (3, 2, 0, 7200));
    assert_eq!((p.end.mon, p.end.week, p.end.day, p.end.time), (11, 1, 0, 7200));
    assert_eq!(p.transitions_for_year(2024), Some((1_710_054_000, 1_730_613_600)));
}

#[test]
fn posix_julian_rules() {
    // Jn counts 1..=365 and never counts February 29.
    let p = parse_posix_tz("UTC0DST,J60/0,J300/0").unwrap();
    assert_eq!(p.start.kind, RuleKind::Julian);
    assert_eq!((p.start.day, p.start.time), (60, 0));
    // 2024 (leap): J60 is March 1; J300 is October 27, ending at 00:00 DST.
    assert_eq!(p.transitions_for_year(2024), Some((1_709_251_200, 1_729_983_600)));
    // 2023: J60 is March 1 too.
    assert_eq!(p.transitions_for_year(2023).unwrap().0, 1_677_628_800);
    assert_eq!(p.to_string(), "UTC0DST,J60/0,J300/0");
}

#[test]
fn posix_day_of_year_rules() {
    // n counts 0..=365 and does count February 29.
    let p = parse_posix_tz("UTC0DST,59/0,300/0").unwrap();
    assert_eq!(p.start.kind, RuleKind::DayOfYear);
    // 2024: day 59 is February 29.
    assert_eq!(p.transitions_for_year(2024), Some((1_709_164_800, 1_729_983_600)));
    // 2023: day 59 is March 1.
    assert_eq!(p.transitions_for_year(2023).unwrap().0, 1_677_628_800);
}

#[test]
fn posix_fifth_week_means_last() {
    // M3.5.0 is the last Sunday of March: 2024-03-31 01:00 UTC for CET.
    let p = parse_posix_tz("CET-1CEST,M3.5.0,M10.5.0/3").unwrap();
    assert_eq!(p.transitions_for_year(2024), Some((1_711_846_800, 1_729_990_800)));
}

#[test]
fn posix_southern_hemisphere_lookup() {
    let p = parse_posix_tz("AEST-10AEDT,M10.1.0,M4.1.0/3").unwrap();
    // January is summer: DST.
    assert_eq!(p.lookup(1_705_320_000), ("AEDT", 11 * 3600, true));
    // July is winter: standard time.
    assert_eq!(p.lookup(1_721_044_800), ("AEST", 10 * 3600, false));
    let (start, end) = p.transitions_for_year(2024).unwrap();
    assert!(end < start);
    // Each side of each transition.
    assert!(!p.lookup(start - 1).2 && p.lookup(start).2);
    assert!(p.lookup(end - 1).2 && !p.lookup(end).2);
}

#[test]
fn posix_lookup_matches_year_transitions() {
    let p = parse_posix_tz("EST5EDT,M3.2.0,M11.1.0").unwrap();
    for year in [1900, 1970, 2000, 2024, 2100, 2400] {
        let (start, end) = p.transitions_for_year(year).unwrap();
        assert!(!p.lookup(start - 1).2, "{year}");
        assert!(p.lookup(start).2, "{year}");
        assert!(p.lookup(end - 1).2, "{year}");
        assert!(!p.lookup(end).2, "{year}");
    }
}

#[test]
fn posix_format_round_trip_of_parsed_rules() {
    for s in [
        "<-03>3",
        "<+0545>-5:45",
        "<-0330>3:30<-0230>,M3.2.0,M11.1.0",
        "IST-1GMT0,M10.5.0,M3.5.0/1",
        "ABC3:15:07DEF,J1/-1,365/25:30:15",
        "AAA3BBB2,M3.2.0/-2,M11.1.0/167",
    ] {
        let p = parse_posix_tz(s).unwrap();
        let text = p.to_string();
        let q = parse_posix_tz(&text).unwrap();
        assert_eq!(p, q, "{s:?} -> {text:?}");
    }
    // The default one-hour DST offset and 02:00 times are left out.
    let p = parse_posix_tz("EST5EDT4,M3.2.0/2,M11.1.0/2:00").unwrap();
    assert_eq!(p.to_string(), "EST5EDT,M3.2.0,M11.1.0");
    // Names that are not all letters are quoted.
    let p = parse_posix_tz("<UTC+1>-1").unwrap();
    assert_eq!(p.to_string(), "<UTC+1>-1");
}
