use pingvoice_shell::config::AppConfig;

const DEFAULT_URL: &str = "https://pingvoice.io/dashboard";

#[test]
fn whitespace_everywhere_is_tolerated() {
    let text = " \t\r\n { \n\"url\" : \"a\" ,\r \"autostart\"\t: false , \"start_minimized\" : true } \n ";
    let c = AppConfig::parse_json(text).expect("should parse");
    assert_eq!(c.url, "a");
    assert!(!c.autostart);
    assert!(c.start_minimized);
}

#[test]
fn empty_object_yields_all_defaults() {
    let c = AppConfig::parse_json("{}").expect("should parse");
    assert_eq!(c.url, DEFAULT_URL);
    assert!(c.autostart);
    assert!(c.start_minimized);
    let c = AppConfig::parse_json(" { } ").expect("should parse");
    assert_eq!(c.url, DEFAULT_URL);
}

#[test]
fn string_escapes_decode() {
    let text = "{\"url\": \"q\\\" b\\\\ s\\/ n\\n r\\r t\\t b\\b f\\f\"}";
    let c = AppConfig::parse_json(text).expect("should parse");
    assert_eq!(c.url, "q\" b\\ s/ n\n r\r t\t b\u{0008} f\u{000C}");
}

#[test]
fn unicode_escapes_decode() {
    let c = AppConfig::parse_json("{\"url\": \"a\\u0041b\"}").expect("should parse");
    assert_eq!(c.url, "aAb");
    let c = AppConfig::parse_json("{\"url\": \"x\\u00e9y\"}").expect("should parse");
    assert_eq!(c.url, "x\u{e9}y");
    // A surrogate pair names one character beyond the basic plane.
    let c = AppConfig::parse_json("{\"url\": \"\\uD83D\\uDE00\"}").expect("should parse");
    assert_eq!(c.url, "\u{1F600}");
}

#[test]
fn bad_escapes_are_rejected() {
    assert!(AppConfig::parse_json("{\"url\": \"a\\qb\"}").is_none());
    assert!(AppConfig::parse_json("{\"url\": \"a\\u00\"}").is_none());
    assert!(AppConfig::parse_json("{\"url\": \"a\\u00zz\"}").is_none());
    // A lone surrogate names no character.
    assert!(AppConfig::parse_json("{\"url\": \"a\\uD83Db\"}").is_none());
    assert!(AppConfig::parse_json("{\"url\": \"a\\uDE00b\"}").is_none());
}

#[test]
fn raw_control_characters_are_rejected() {
    // An unescaped control character makes the string, and the document,
    // invalid; the loader answers with the defaults.
    assert!(AppConfig::parse_json("{\"url\": \"a\tb\"}").is_none());
    assert!(AppConfig::parse_json("{\"url\": \"a\nb\"}").is_none());
    assert!(AppConfig::parse_json("{\"url\": \"a\u{1}b\"}").is_none());
}

#[test]
fn unknown_members_are_ignored() {
    let text = "{\"theme\": \"dark\", \"url\": \"a\", \"beta\": true, \"note\": null}";
    let c = AppConfig::parse_json(text).expect("should parse");
    assert_eq!(c.url, "a");
    assert!(c.autostart);
    assert!(c.start_minimized);
    // Any well-formed JSON value is skipped: numbers, arrays, nested
    // objects, in any mix.
    let text = "{\"count\": -12.5e+3, \"list\": [1, [true, null], \"x\"], \"obj\": {\"a\": {\"b\": []}}, \"url\": \"a\"}";
    let c = AppConfig::parse_json(text).expect("should parse");
    assert_eq!(c.url, "a");
    let c = AppConfig::parse_json("{\"extra\": 5}").expect("should parse");
    assert_eq!(c.url, "https://pingvoice.io/dashboard");
}

#[test]
fn wrong_member_type_rejects_the_document() {
    assert!(AppConfig::parse_json("{\"url\": true}").is_none());
    assert!(AppConfig::parse_json("{\"url\": null}").is_none());
    assert!(AppConfig::parse_json("{\"autostart\": \"yes\"}").is_none());
    assert!(AppConfig::parse_json("{\"autostart\": null}").is_none());
    assert!(AppConfig::parse_json("{\"start_minimized\": \"no\"}").is_none());
}

#[test]
fn malformed_unknown_values_reject_the_document() {
    assert!(AppConfig::parse_json("{\"extra\": 01}").is_none());
    assert!(AppConfig::parse_json("{\"extra\": 1.}").is_none());
    assert!(AppConfig::parse_json("{\"extra\": 1e}").is_none());
    assert!(AppConfig::parse_json("{\"extra\": [1,]}").is_none());
    assert!(AppConfig::parse_json("{\"extra\": [1 2]}").is_none());
    assert!(AppConfig::parse_json("{\"extra\": {\"a\"}}").is_none());
    assert!(AppConfig::parse_json("{\"extra\": +1}").is_none());
}

#[test]
fn repeated_known_member_rejects_the_document() {
    assert!(AppConfig::parse_json("{\"url\": \"first\", \"url\": \"second\"}").is_none());
    assert!(AppConfig::parse_json("{\"autostart\": true, \"autostart\": false}").is_none());
    // An unknown member may repeat; it never carries a setting.
    let c = AppConfig::parse_json("{\"x\": 1, \"x\": 2, \"url\": \"a\"}").expect("parses");
    assert_eq!(c.url, "a");
}

#[test]
fn empty_url_falls_back_to_the_default() {
    let c = AppConfig::parse_json("{\"url\": \"\"}").expect("parses");
    assert_eq!(c.url, "https://pingvoice.io/dashboard");
}

#[test]
fn malformed_documents_are_rejected() {
    for bad in [
        "",
        "   ",
        "{",
        "}",
        "{\"url\"}",
        "{\"url\": }",
        "{\"url\": \"a\",}",
        "{\"url\": \"a\"",
        "{\"url\": \"a\" \"autostart\": true}",
        "{,}",
        "null",
        "true",
        "\"url\"",
        "{} {}",
        "{\"url\": \"a\"}}",
    ] {
        assert!(AppConfig::parse_json(bad).is_none(), "input: {}", bad);
    }
}

#[test]
fn rendering_escapes_quotes_and_backslashes() {
    let c = AppConfig { url: "a\"b\\c".to_string(), autostart: false, start_minimized: false };
    let text = c.to_json();
    assert_eq!(
        text,
        "{\n  \"url\": \"a\\\"b\\\\c\",\n  \"autostart\": false,\n  \"start_minimized\": false\n}"
    );
    let back = AppConfig::parse_json(&text).expect("canonical text parses");
    assert_eq!(back, c);
}
