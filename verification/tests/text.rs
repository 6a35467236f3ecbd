use timezone_data::text::{eq_ignore_ascii_case, str_eq, str_less};

#[test]
fn text_equality() {
    assert!(str_eq("Europe/Paris", "Europe/Paris"));
    assert!(!str_eq("Europe/Paris", "europe/paris"));
    assert!(!str_eq("UTC", "UTC "));
    assert!(str_eq("", ""));
}

#[test]
fn text_equality_ignoring_ascii_case() {
    assert!(eq_ignore_ascii_case("America/New_York", "AMERICA/new_york"));
    assert!(eq_ignore_ascii_case("utc", "UTC"));
    assert!(!eq_ignore_ascii_case("utc", "UTC0"));
    // Only ASCII letters fold.
    assert!(!eq_ignore_ascii_case("\u{e9}", "\u{c9}"));
    assert!(eq_ignore_ascii_case("R\u{e9}union", "r\u{e9}UNION"));
}

#[test]
fn text_order_is_byte_order() {
    assert!(str_less("a", "b"));
    assert!(str_less("B", "a"));
    assert!(str_less("", "a"));
    assert!(str_less("Asia/Tokyo", "Asia/Tomsk"));
    assert!(!str_less("a", "a"));
    assert!(!str_less("ab", "a"));
    assert!(str_less("z", "\u{e9}"));
}
