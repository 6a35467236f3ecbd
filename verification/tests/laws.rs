use timezone_data::{load, names, parse_posix_tz};

const Y1990: i64 = 631_152_000;
const Y2040: i64 = 2_208_988_800;

#[test]
fn range_is_chronological_in_every_zone() {
    for name in names() {
        let z = load(name).unwrap();
        let trans = z.transitions_for_range(Y1990, Y2040).collect();
        for w in trans.windows(2) {
            assert!(w[0].when < w[1].when, "{name}: {} then {}", w[0].when, w[1].when);
        }
        for t in &trans {
            assert!(Y1990 <= t.when && t.when < Y2040, "{name}");
        }
    }
}

#[test]
fn range_count_matches_collect() {
    let z = load("Europe/Paris").unwrap();
    let n = z.transitions_for_range(Y1990, Y2040).count();
    assert_eq!(n, z.transitions_for_range(Y1990, Y2040).collect().len());
    // Two transitions a year, 1990 through 2039.
    assert_eq!(n, 100);
}

#[test]
fn range_joins_stored_and_generated_transitions() {
    let z = load("America/New_York").unwrap();
    let last = z.transitions().last().unwrap().when;
    let trans = z.transitions_for_range(last - 86_400, last + 3 * 366 * 86_400).collect();
    assert_eq!(trans[0].when, last);
    assert!(trans.len() >= 6);
    for w in trans.windows(2) {
        assert_ne!(w[0].zone_type.is_dst, w[1].zone_type.is_dst);
    }
}

#[test]
fn lookup_follows_the_latest_stored_transition() {
    for name in ["America/New_York", "Europe/Paris", "Australia/Sydney", "Asia/Kolkata"] {
        let z = load(name).unwrap();
        let tr = z.transitions();
        for i in 0..tr.len().saturating_sub(1) {
            if tr[i + 1].when > tr[i].when {
                let want = z.types()[tr[i].type_idx];
                assert_eq!(z.lookup(tr[i].when), want, "{name} #{i}");
                assert_eq!(z.lookup(tr[i + 1].when - 1), want, "{name} #{i}");
            }
        }
    }
}

#[test]
fn lookup_past_the_last_transition_uses_the_rule() {
    let z = load("America/New_York").unwrap();
    let rule = z.extend().unwrap();
    for unix in [2_000_000_000, 2_100_000_000, 3_000_000_000, 4_102_444_800] {
        let (abbrev, offset, is_dst) = rule.lookup(unix);
        let zt = z.lookup(unix);
        assert_eq!((zt.abbrev, zt.offset, zt.is_dst), (abbrev, offset, is_dst));
    }
}

#[test]
fn footer_rules_format_and_parse_back() {
    let mut checked = 0;
    for name in names() {
        let z = load(name).unwrap();
        if let Some(rule) = z.extend() {
            let text = rule.to_string();
            assert_eq!(parse_posix_tz(&text).unwrap(), *rule, "{name}: {text}");
            checked += 1;
        }
    }
    assert!(checked > 300);
}

#[test]
fn generated_transitions_match_lookup() {
    for name in ["America/New_York", "Europe/Paris", "Australia/Sydney", "America/Santiago"] {
        let z = load(name).unwrap();
        let last = z.transitions().last().map(|t| t.when).unwrap_or(i64::MIN);
        for t in z.transitions_for_range(Y1990, Y2040).collect() {
            if t.when > last {
                assert_eq!(z.lookup(t.when), t.zone_type, "{name} at {}", t.when);
            }
        }
    }
}

#[test]
fn range_count_is_bounded() {
    for name in ["America/New_York", "Europe/Paris", "Asia/Tokyo", "Australia/Sydney"] {
        let z = load(name).unwrap();
        let stored = z.transitions().iter().filter(|t| Y1990 <= t.when && t.when < Y2040).count();
        let per_year = if z.extend().map(|e| e.has_dst()).unwrap_or(false) { 2 * 51 } else { 0 };
        let n = z.transitions_for_range(Y1990, Y2040).count();
        assert!(n <= stored + per_year, "{name}: {n} > {stored} + {per_year}");
    }
}

#[test]
fn rules_without_dst_answer_every_instant() {
    let p = parse_posix_tz("JST-9").unwrap();
    for u in [i64::MIN, -1, 0, 1_705_320_000, i64::MAX] {
        assert_eq!(p.lookup(u), ("JST", 9 * 3600, false));
    }
    assert_eq!(p.transitions_for_year(i32::MAX), None);
    let z = load("Asia/Tokyo").unwrap();
    assert_eq!(z.lookup(i64::MAX).abbrev, "JST");
}
