use timezone_data::{load, meta, parse_iso6709};

/// An excerpt of `zone1970.tab`.
const ZONE1970: &str = "# tzdb timezone descriptions\n\
#\n\
# This file is in the public domain.\n\
AE,OM,RE,SC,TF\t+2518+05518\tAsia/Dubai\tCrozet\n\
AU\t-3352+15113\tAustralia/Sydney\tNew South Wales (most areas)\n\
FR,MC\t+4852+00220\tEurope/Paris\n\
JP,AU\t+353916+1394441\tAsia/Tokyo\tEyre Bird Observatory\n\
US\t+404251-0740023\tAmerica/New_York\tEastern (most areas)\n\
US\t+340308-1181434\tAmerica/Los_Angeles\tPacific\n";

/// An excerpt of `iso3166.tab`.
const ISO3166: &str = "# ISO 3166 alpha-2 country codes\n\
#\n\
AE\tUnited Arab Emirates\n\
AU\tAustralia\n\
FR\tFrance\n\
JP\tJapan\n\
MC\tMonaco\n\
OM\tOman\n\
RE\tR\u{e9}union\n\
SC\tSeychelles\n\
TF\tFrench S. Terr.\n\
US\tUnited States\n";

fn degrees(e4: i64) -> f64 {
    e4 as f64 / 10000.0
}

#[test]
fn meta_new_york() {
    let z = load("America/New_York").unwrap();
    let m = z.meta(ZONE1970).expect("meta is None");
    let countries: Vec<_> = m.countries(ISO3166);
    assert!(!countries.is_empty());
    assert_eq!(countries[0].code, "US");
    assert!(!countries[0].name.is_empty());
    let (lat, lon) = (degrees(m.lat_e4), degrees(m.lon_e4));
    assert!((lat - 40.7142).abs() < 0.5, "lat = {}", lat);
    assert!((lon - (-74.0060)).abs() < 0.5, "lon = {}", lon);
}

#[test]
fn meta_tokyo() {
    let z = load("Asia/Tokyo").unwrap();
    let m = z.meta(ZONE1970).expect("meta is None");
    assert_eq!(m.countries(ISO3166)[0].code, "JP");
    let lat = degrees(m.lat_e4);
    assert!(lat > 35.0 && lat < 36.0, "lat = {}", lat);
}

#[test]
fn meta_multiple_countries() {
    // Asia/Dubai covers AE,OM,RE,SC,TF.
    let z = load("Asia/Dubai").unwrap();
    let m = z.meta(ZONE1970).expect("meta is None");
    let countries: Vec<_> = m.countries(ISO3166);
    assert!(countries.len() >= 2, "len = {}", countries.len());
    assert_eq!(countries[0].code, "AE");
}

#[test]
fn meta_utc() {
    let z = load("UTC").unwrap();
    // UTC has no zone1970.tab entry.
    assert!(z.meta(ZONE1970).is_none());
}

#[test]
fn parse_iso6709_cases() {
    let cases = [
        ("+4030-07400", 40.5, -74.0),
        ("+3431+06912", 34.5167, 69.2),
        ("+352439+1394744", 35.4108, 139.7956),
    ];
    for (s, want_lat, want_lon) in cases {
        let (lat, lon) = parse_iso6709(s);
        let (lat, lon) = (degrees(lat), degrees(lon));
        assert!((lat - want_lat).abs() < 0.01, "{s}: lat = {lat}");
        assert!((lon - want_lon).abs() < 0.01, "{s}: lon = {lon}");
    }
}

#[test]
fn parse_iso6709_exact_values() {
    // 40°30' = 40.5°, 74°00' = 74.0°.
    assert_eq!(parse_iso6709("+4030-07400"), (405000, -740000));
    // 34°31' = 34.51666..° rounds to 34.5167°.
    assert_eq!(parse_iso6709("+3431+06912"), (345167, 692000));
    // 35°24'39" = 35.410833..°, 139°47'44" = 139.795555..°.
    assert_eq!(parse_iso6709("+352439+1394744"), (354108, 1397956));
    // A southern latitude and an eastern longitude.
    assert_eq!(parse_iso6709("-3352+15113"), (-338667, 1512167));
}

#[test]
fn parse_iso6709_malformed() {
    // No second sign: no coordinates.
    assert_eq!(parse_iso6709("+4030"), (0, 0));
    assert_eq!(parse_iso6709(""), (0, 0));
    // Too short to hold degrees and minutes: that half is zero.
    assert_eq!(parse_iso6709("+40-07400"), (0, -740000));
}

#[test]
fn meta_fields() {
    let m = meta(ZONE1970, "America/Los_Angeles").unwrap();
    assert_eq!(m.commentary, "Pacific");
    // 34°03'08" N, 118°14'34" W.
    assert_eq!((m.lat_e4, m.lon_e4), (340522, -1182428));
    let c = m.countries(ISO3166);
    assert_eq!(c.len(), 1);
    assert_eq!((c[0].code, c[0].name), ("US", "United States"));
}

#[test]
fn meta_without_commentary() {
    let m = meta(ZONE1970, "Europe/Paris").unwrap();
    assert_eq!(m.commentary, "");
    let c = m.countries(ISO3166);
    let codes: Vec<_> = c.iter().map(|c| (c.code, c.name)).collect();
    assert_eq!(codes, vec![("FR", "France"), ("MC", "Monaco")]);
}

#[test]
fn meta_country_names_and_missing_codes() {
    let m = meta(ZONE1970, "Asia/Dubai").unwrap();
    let names: Vec<_> = m.countries(ISO3166).iter().map(|c| c.name).collect();
    assert_eq!(
        names,
        vec!["United Arab Emirates", "Oman", "R\u{e9}union", "Seychelles", "French S. Terr."]
    );
    // Against a table that lacks the codes, every name is empty.
    let bare: Vec<_> = m.countries("# nothing here\n").iter().map(|c| c.name).collect();
    assert_eq!(bare, vec![""; 5]);
}

#[test]
fn meta_names_must_match_exactly() {
    assert!(meta(ZONE1970, "asia/tokyo").is_none());
    assert!(meta(ZONE1970, "Asia/Tokyo ").is_none());
    assert!(meta(ZONE1970, "").is_none());
    assert!(meta("", "Asia/Tokyo").is_none());
}

#[test]
fn meta_line_without_tab_ends_the_scan() {
    // A line with no tab before the entry stops the scan with no result.
    let table = "garbage line\nJP\t+353916+1394441\tAsia/Tokyo\n";
    assert!(meta(table, "Asia/Tokyo").is_none());
    // A line with one tab (no zone name) is passed over.
    let table = "ZZ\t+0000+00000\nJP\t+353916+1394441\tAsia/Tokyo\n";
    assert_eq!(meta(table, "Asia/Tokyo").unwrap().countries(ISO3166)[0].name, "Japan");
}
