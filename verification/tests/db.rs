use timezone_data::db;
use timezone_data::{load, names};

#[test]
fn db_find_exact_names_only() {
    let (name, data) = db::find("Europe/Paris").unwrap();
    assert_eq!(name, "Europe/Paris");
    assert_eq!(&data[..4], b"TZif");
    assert!(db::find("europe/paris").is_none());
    assert!(db::find("Europe/Nowhere").is_none());
    assert_eq!(db::file("UTC").unwrap(), db::find("UTC").unwrap().1);
    assert!(db::file("").is_none());
}

#[test]
fn db_names_sorted_distinct_and_loadable() {
    let all = names();
    for w in all.windows(2) {
        assert!(w[0] < w[1], "{} before {}", w[0], w[1]);
        assert!(!w[0].eq_ignore_ascii_case(w[1]));
    }
    for name in &all {
        assert!(db::find(name).is_some(), "{name}");
    }
    assert!(all.contains(&"America/New_York"));
    assert!(load(all[0]).is_ok());
}
