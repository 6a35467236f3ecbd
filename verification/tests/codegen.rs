use timezone_data::codegen::{emit_extend, emit_rule, generate, rule_kind};
use timezone_data::{load, parse, parse_posix_tz, RuleKind};

const HEADER: &str = "// @generated by `cargo run -p xtask` from zoneinfo.zip \u{2014} do not edit.\nuse crate::{PosixTz, RuleKind, Transition, TransitionRule, Zone, ZoneType};\n\n";

#[test]
fn codegen_rule_kinds_and_rules() {
    assert_eq!(rule_kind(RuleKind::Julian), "Julian");
    assert_eq!(rule_kind(RuleKind::DayOfYear), "DayOfYear");
    assert_eq!(rule_kind(RuleKind::MonthWeekDay), "MonthWeekDay");
    let p = parse_posix_tz("CET-1CEST,M3.5.0,M10.5.0/3").unwrap();
    assert_eq!(
        emit_rule(p.end),
        "TransitionRule { kind: RuleKind::MonthWeekDay, day: 0, week: 5, mon: 10, time: 10800 }"
    );
    let p = parse_posix_tz("XYZ3ABC,J60/-1,300").unwrap();
    assert_eq!(
        emit_rule(p.start),
        "TransitionRule { kind: RuleKind::Julian, day: 60, week: 0, mon: 0, time: -3600 }"
    );
}

#[test]
fn codegen_extend() {
    assert_eq!(emit_extend(&None), "None");
    let p = parse_posix_tz("<-03>3").unwrap();
    assert_eq!(
        emit_extend(&Some(p)),
        "Some(PosixTz { std_abbrev: \"-03\", std_offset: -10800, dst_abbrev: \"\", dst_offset: 0, \
         start: TransitionRule { kind: RuleKind::MonthWeekDay, day: 0, week: 0, mon: 0, time: 7200 }, \
         end: TransitionRule { kind: RuleKind::MonthWeekDay, day: 0, week: 0, mon: 0, time: 7200 } })"
    );
}

#[test]
fn codegen_table_of_utc() {
    let z = load("UTC").unwrap();
    assert!(z.transitions().is_empty());
    let rule = "TransitionRule { kind: RuleKind::MonthWeekDay, day: 0, week: 0, mon: 0, time: 7200 }";
    let want = format!(
        "{HEADER}static TY_0: [ZoneType; 1] = [ZoneType {{ abbrev: \"UTC\", offset: 0, is_dst: false }},];\n\
         \npub static ENTRIES: &[(&str, Zone)] = &[\n    \
         (\"UTC\", Zone {{ name: \"UTC\", version: {}, types: &TY_0, transitions: &[], leap_seconds: &[], \
         extend: Some(PosixTz {{ std_abbrev: \"UTC\", std_offset: 0, dst_abbrev: \"\", dst_offset: 0, \
         start: {rule}, end: {rule} }}), extend_raw: \"UTC0\" }}),\n];\n",
        z.version()
    );
    assert_eq!(generate(&[z]), want);
}

#[test]
fn codegen_empty_table() {
    assert_eq!(generate(&[]), format!("{HEADER}\npub static ENTRIES: &[(&str, Zone)] = &[\n];\n"));
}

#[test]
fn codegen_several_zones() {
    let ny = load("America/New_York").unwrap();
    let tokyo = load("Asia/Tokyo").unwrap();
    let n = ny.transitions().len();
    let first = ny.transitions()[0];
    let out = generate(&[ny, tokyo]);
    assert!(out.contains(&format!("static TR_0: [Transition; {n}] = [")));
    assert!(out.contains(&format!(
        "Transition {{ when: {}, type_idx: {}, is_std: {}, is_ut: {} }},",
        first.when, first.type_idx, first.is_std, first.is_ut
    )));
    assert!(out.contains("static TY_1: ["));
    assert!(out.contains("(\"Asia/Tokyo\", Zone { name: \"Asia/Tokyo\", "));
    assert!(out.contains("types: &TY_1, transitions: &TR_1,"));
    assert!(out.contains("extend_raw: \"EST5EDT,M3.2.0,M11.1.0\" }),\n"));
    assert_eq!(out.matches("Zone { name: ").count(), 2);
}

#[test]
fn codegen_quotes_names() {
    let utc = load("UTC").unwrap();
    let z = parse("Odd\"Name\\", utc.raw_data()).unwrap();
    let out = generate(&[z]);
    assert!(out.contains("(\"Odd\\\"Name\\\\\", Zone { name: \"Odd\\\"Name\\\\\","));
}
