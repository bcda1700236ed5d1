use pingvoice_shell::config::{AppConfig, FileRead};

const DEFAULT_URL: &str = "https://pingvoice.io/dashboard";

fn load_content(text: &str) -> pingvoice_shell::config::LoadOutcome {
    AppConfig::load_from(FileRead::Content(text.to_string()))
}

#[test]
fn defaults_are_documented_values() {
    let c = AppConfig::default();
    assert_eq!(c.url, DEFAULT_URL);
    assert!(c.autostart);
    assert!(c.start_minimized);
    assert_eq!(pingvoice_shell::config::default_url(), DEFAULT_URL);
    assert!(pingvoice_shell::config::default_true());
}

#[test]
fn load_fills_missing_fields_for_all_subsets() {
    // Every well-formed subset of the three members parses, and each missing
    // member falls back to its default. Present members use non-default
    // values so the two cases cannot be confused.
    let url_part = "\"url\": \"https://example.org/x\"";
    let auto_part = "\"autostart\": false";
    let min_part = "\"start_minimized\": false";
    for mask in 0u8..8 {
        let mut parts: Vec<&str> = Vec::new();
        if mask & 1 != 0 {
            parts.push(url_part);
        }
        if mask & 2 != 0 {
            parts.push(auto_part);
        }
        if mask & 4 != 0 {
            parts.push(min_part);
        }
        let text = format!("{{{}}}", parts.join(", "));
        let out = load_content(&text);
        assert!(!out.diagnostic, "subset {} should parse: {}", mask, text);
        assert!(!out.write_default);
        let expected_url = if mask & 1 != 0 { "https://example.org/x" } else { DEFAULT_URL };
        assert_eq!(out.config.url, expected_url);
        assert_eq!(out.config.autostart, mask & 2 == 0);
        assert_eq!(out.config.start_minimized, mask & 4 == 0);
    }
}

#[test]
fn load_absent_returns_default_and_asks_to_persist() {
    let out = AppConfig::load_from(FileRead::Absent);
    assert_eq!(out.config, AppConfig::default());
    assert!(out.write_default);
    assert!(!out.diagnostic);
    // What the caller would then write parses back to the same defaults.
    let written = out.config.to_json();
    let again = load_content(&written);
    assert_eq!(again.config, AppConfig::default());
    assert!(!again.write_default);
}

#[test]
fn load_unreadable_returns_default_in_memory_only() {
    let out = AppConfig::load_from(FileRead::Unreadable);
    assert_eq!(out.config, AppConfig::default());
    assert!(!out.write_default);
    assert!(out.diagnostic);
}

#[test]
fn load_invalid_returns_default_and_never_persists() {
    for bad in [
        "",
        "not json at all",
        "{",
        "{\"url\": \"unterminated}",
        "{\"url\": 5}",
        "{\"autostart\": \"yes\"}",
        "{\"start_minimized\": null}",
        "[1, 2, 3]",
        "{} trailing",
        "{\"url\": \"a\",}",
    ] {
        let out = load_content(bad);
        assert_eq!(out.config, AppConfig::default(), "input: {}", bad);
        assert!(!out.write_default, "input: {}", bad);
        assert!(out.diagnostic, "input: {}", bad);
    }
}

#[test]
fn saved_empty_url_loads_as_the_default() {
    // The url is non-empty by contract: an empty one in a file is replaced
    // by the default address on load.
    let odd = AppConfig { url: String::new(), autostart: false, start_minimized: false };
    let back = load_content(&odd.to_json());
    assert_eq!(back.config.url, DEFAULT_URL);
    assert!(!back.config.autostart);
    assert!(!back.config.start_minimized);
}

#[test]
fn round_trip_save_then_load_is_identity() {
    let originals = [
        AppConfig::default(),
        AppConfig { url: "https://example.org/a?b=c&d=e".to_string(), autostart: false, start_minimized: true },
        AppConfig { url: "quote \" backslash \\ slash / end".to_string(), autostart: true, start_minimized: false },
        AppConfig { url: "line1\nline2\t'tab' \u{1}".to_string(), autostart: true, start_minimized: true },
    ];
    for first in originals {
        let saved = first.to_json();
        let second = load_content(&saved);
        assert_eq!(second.config, first);
        // Saving and loading once more changes nothing either.
        let third = load_content(&second.config.to_json());
        assert_eq!(third.config, first);
    }
}

#[test]
fn default_config_writes_canonical_text() {
    let expected = "{\n  \"url\": \"https://pingvoice.io/dashboard\",\n  \"autostart\": true,\n  \"start_minimized\": true\n}";
    assert_eq!(AppConfig::default().to_json(), expected);
}

#[test]
fn config_path_joins_namespace_and_file_name() {
    let base = "/home/someone/.config".to_string();
    assert_eq!(
        AppConfig::config_path_in(Some(&base)),
        "/home/someone/.config/io.pingvoice.app/config.json"
    );
    assert_eq!(AppConfig::config_path_in(None), "./io.pingvoice.app/config.json");
    let p = AppConfig::config_path();
    assert!(p.ends_with("/io.pingvoice.app/config.json"));
}
