use retomar_ambiente::text::{
    i64_to_decimal, meaningful_identity, non_empty_string, normalize_identifier, parse_bool, trim,
    u64_to_decimal,
};

#[test]
fn normalize_keeps_lowercase_ascii_letters_and_digits() {
    assert_eq!(normalize_identifier("Google-Chrome_Stable.desktop"), "googlechromestabledesktop");
    assert_eq!(normalize_identifier("org.mozilla.Firefox"), "orgmozillafirefox");
    assert_eq!(normalize_identifier("Ünïcode App 2"), "ncodeapp2");
    assert_eq!(normalize_identifier(""), "");
    assert_eq!(normalize_identifier("--"), "");
}

#[test]
fn normalize_twice_is_normalize_once() {
    for s in ["Visual-Studio-Code", "com.system76.CosmicTerm", "ÀB c_9"] {
        let once = normalize_identifier(s);
        assert_eq!(normalize_identifier(&once), once);
    }
}

#[test]
fn parse_bool_accepts_true_in_any_ascii_case() {
    assert!(parse_bool(Some(&"true".to_string())));
    assert!(parse_bool(Some(&"TRUE".to_string())));
    assert!(parse_bool(Some(&"tRuE".to_string())));
    assert!(!parse_bool(Some(&"yes".to_string())));
    assert!(!parse_bool(Some(&" true".to_string())));
    assert!(!parse_bool(Some(&"false".to_string())));
    assert!(!parse_bool(None));
}

#[test]
fn non_empty_string_trims_and_drops_blank() {
    assert_eq!(non_empty_string("  DELL  "), Some("DELL".to_string()));
    assert_eq!(non_empty_string("Samsung Electric Company"), Some("Samsung Electric Company".to_string()));
    assert_eq!(non_empty_string("   "), None);
    assert_eq!(non_empty_string(""), None);
}

#[test]
fn meaningful_identity_rejects_blank_and_unknown() {
    assert!(!meaningful_identity(""));
    assert!(!meaningful_identity("   "));
    assert!(!meaningful_identity("Unknown"));
    assert!(!meaningful_identity(" UNKNOWN "));
    assert!(meaningful_identity("Dell"));
    assert!(meaningful_identity("unknown monitor"));
}

#[test]
fn trim_removes_unicode_white_space() {
    assert_eq!(trim("\u{3000} a b \t\r\n"), "a b");
    assert_eq!(trim("\u{a0}x\u{2009}"), "x");
    assert_eq!(trim("x\u{200b}"), "x\u{200b}");
    assert_eq!(trim(""), "");
}

#[test]
fn decimal_rendering_matches_to_string() {
    for n in [0u64, 7, 10, 1234567890, u64::MAX] {
        assert_eq!(u64_to_decimal(n), n.to_string());
    }
    for n in [0i64, -1, -42, 99, i64::MIN, i64::MAX] {
        assert_eq!(i64_to_decimal(n), n.to_string());
    }
}
