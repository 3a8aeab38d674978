// The `.rtw` whitelist: JSON parsing and the default-deny check.
use rtorch::error::RtorchError;
use rtorch::whitelist::{parse_whitelist_json, strip_verbatim, JsonError, PathStyle, Whitelist};

#[test]
fn parses_allowed_array() {
    let json = r#"{ "allowed": ["C:\\abs\\a.rtw", "C:\\abs\\b.rtw"] }"#;
    let paths = parse_whitelist_json(json).expect("parse");
    assert_eq!(paths.len(), 2);
    // Note: `\\` in JSON becomes a single `\` in the decoded string.
    assert_eq!(paths[0], "C:\\abs\\a.rtw");
    assert_eq!(paths[1], "C:\\abs\\b.rtw");
}

#[test]
fn empty_when_no_allowed_key() {
    assert!(parse_whitelist_json(r#"{ "other": 1 }"#).expect("parse").is_empty());
    assert!(parse_whitelist_json(r#"[]"#).expect("parse").is_empty());
    assert!(parse_whitelist_json(r#""#).expect("parse").is_empty());
}

#[test]
fn ignores_other_keys_before_allowed() {
    let json = r#"{ "version": 1, "allowed": ["C:\\x.rtw"] }"#;
    let paths = parse_whitelist_json(json).expect("parse");
    assert_eq!(paths, vec![String::from("C:\\x.rtw")]);
}

#[test]
fn unquoted_or_bad_string_is_error() {
    // A genuinely unterminated string (no closing quote before EOF) is an
    // error, not a silent empty/shorted list.
    assert!(parse_whitelist_json(r#"{ "allowed": ["C:\\x"#).is_err());
}

#[test]
fn default_deny_when_empty() {
    let wl = Whitelist::default();
    assert!(wl.is_empty());
    assert!(!wl.is_allowed("C:\\anything.rtw", PathStyle::Windows));
    assert!(!wl.is_allowed("C:\\anything.rtw", PathStyle::Posix));
}

#[test]
fn parses_non_ascii_path() {
    // A path with non-ASCII characters (e.g. Chinese) must round-trip intact.
    let json = "{\"allowed\":[\"C:\\\\模型\\\\文件.rtw\"]}";
    let paths = parse_whitelist_json(json).expect("parse");
    assert_eq!(paths, vec![String::from("C:\\模型\\文件.rtw")]);
}

#[test]
fn exact_path_is_allowed_and_sibling_is_not() {
    let wl = Whitelist::load_from_text(r#"{ "allowed": ["/tmp/wl/a.rtw"] }"#).unwrap();
    assert_eq!(wl.len(), 1);
    assert!(!wl.is_empty());
    assert!(wl.is_allowed("/tmp/wl/a.rtw", PathStyle::Posix));
    assert!(!wl.is_allowed("/tmp/wl/b.rtw", PathStyle::Posix));
}

#[test]
fn json_error_variants_and_messages() {
    assert_eq!(parse_whitelist_json(r#"{ "allowed": 3 }"#).unwrap_err(), JsonError::ExpectedArray);
    assert_eq!(parse_whitelist_json(r#"{ "allowed" : "#).unwrap_err(), JsonError::ExpectedArray);
    assert_eq!(parse_whitelist_json("{ \"a\\").unwrap_err(), JsonError::UnterminatedEscape);
    assert_eq!(parse_whitelist_json("{ \"abc").unwrap_err(), JsonError::UnterminatedString);
    match Whitelist::load_from_text(r#"{ "allowed": 3 }"#) {
        Err(RtorchError::WhitelistError(m)) => assert_eq!(m, "expected '[' after \"allowed\""),
        other => panic!("unexpected {:?}", other),
    }
    assert_eq!(JsonError::UnterminatedEscape.message(), "unterminated escape");
    assert_eq!(JsonError::UnterminatedString.message(), "unterminated string");
}

#[test]
fn escapes_and_key_needs_colon() {
    // "allowed" as a value (not followed by ':') is not the key.
    let json = r#"{ "k": "allowed", "allowed" :
      [ "a\"b", "t\tn\nr\rs\/f\fb\bq\q" ] , "x": ["ignored"] }"#;
    let paths = parse_whitelist_json(json).unwrap();
    assert_eq!(paths, vec![String::from("a\"b"), String::from("t\tn\nr\rs/f\u{c}b\u{8}qq")]);
}

#[test]
fn invalid_utf8_tail_keeps_bytes() {
    // The text is valid UTF-8 as a whole, so this exercises decoding; a
    // multi-byte character decodes to one char.
    let paths = parse_whitelist_json("{\"allowed\":[\"é\"]}").unwrap();
    assert_eq!(paths, vec![String::from("é")]);
}

#[test]
fn windows_entries_match_ignoring_case_and_verbatim_prefix() {
    let json = r#"{"allowed":["\\\\?\\D:\\Models\\A.rtw", "C:\\x\\b.rtw"]}"#;
    let wl = Whitelist::load_from_text(json).unwrap();
    assert!(wl.is_allowed("d:\\models\\a.RTW", PathStyle::Windows));
    assert!(wl.is_allowed("C:\\X\\B.rtw", PathStyle::Windows));
    assert!(!wl.is_allowed("C:\\x\\c.rtw", PathStyle::Windows));
    assert!(!wl.is_allowed("C:\\X\\B.rtw", PathStyle::Posix));
}

#[test]
fn verbatim_prefix_is_stripped_once() {
    assert_eq!(strip_verbatim("\\\\?\\C:\\a.rtw"), "C:\\a.rtw");
    assert_eq!(strip_verbatim("C:\\a.rtw"), "C:\\a.rtw");
    assert_eq!(strip_verbatim("\\\\?"), "\\\\?");
    assert_eq!(strip_verbatim("\\\\?\\"), "");
    assert_eq!(strip_verbatim("/tmp/x"), "/tmp/x");
}

#[test]
fn posix_decision_follows_the_comparisons() {
    let wl = Whitelist::load_from_text(r#"{ "allowed": ["/a.rtw", "/b.rtw"] }"#).unwrap();
    assert_eq!(wl.path_matches("/b.rtw"), vec![false, true]);
    assert_eq!(wl.path_matches("/c.rtw"), vec![false, false]);
    assert!(wl.allowed_by("/b.rtw", PathStyle::Posix, &[false, true]));
    assert!(!wl.allowed_by("/c.rtw", PathStyle::Posix, &[false, false]));
    assert!(!wl.allowed_by("/c.rtw", PathStyle::Posix, &[]));
    assert!(!wl.is_allowed("/c.rtw", PathStyle::Posix));
    assert!(!Whitelist::default().allowed_by("/a.rtw", PathStyle::Posix, &[true]));
}
