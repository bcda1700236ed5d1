use pingvoice_shell::config::{AppConfig, FileRead};
use pingvoice_shell::startup::{has_minimized_marker, navigate_script, plan_startup};
use pingvoice_shell::visibility::WindowVisibilityState;

#[test]
fn scenario_absent_config_no_args_starts_hidden() {
    // No config file, no arguments: the defaults apply, start_minimized is
    // true, so the window starts hidden, and the defaults are persisted.
    let out = AppConfig::load_from(FileRead::Absent);
    assert!(out.write_default);
    let args: Vec<String> = vec![];
    let plan = plan_startup(&out.config, &args);
    assert_eq!(plan.initial_state, WindowVisibilityState::Hidden);
    // The file the caller then writes holds exactly the default settings.
    let written = out.config.to_json();
    let reread = AppConfig::load_from(FileRead::Content(written));
    assert_eq!(reread.config.url, "https://pingvoice.io/dashboard");
    assert!(reread.config.autostart);
    assert!(reread.config.start_minimized);
}

#[test]
fn scenario_marker_wins_over_preference() {
    // The persisted preference says visible, but the launch marker wins.
    let out = AppConfig::load_from(FileRead::Content(
        "{\"start_minimized\": false}".to_string(),
    ));
    assert!(!out.config.start_minimized);
    let args: Vec<String> = vec!["--minimized".to_string()];
    let plan = plan_startup(&out.config, &args);
    assert_eq!(plan.initial_state, WindowVisibilityState::Hidden);
}

#[test]
fn scenario_visible_when_neither_asks() {
    let out = AppConfig::load_from(FileRead::Content(
        "{\"start_minimized\": false}".to_string(),
    ));
    let args: Vec<String> = vec![];
    let plan = plan_startup(&out.config, &args);
    assert_eq!(plan.initial_state, WindowVisibilityState::Visible);
}

#[test]
fn plan_carries_url_and_autostart_choice() {
    let config = AppConfig {
        url: "https://example.org/dash".to_string(),
        autostart: false,
        start_minimized: false,
    };
    let args: Vec<String> = vec!["program".to_string(), "--verbose".to_string()];
    let plan = plan_startup(&config, &args);
    assert_eq!(plan.url, "https://example.org/dash");
    assert!(!plan.enable_autostart);
    assert_eq!(plan.initial_state, WindowVisibilityState::Visible);

    let config = AppConfig { autostart: true, ..config };
    let plan = plan_startup(&config, &args);
    assert!(plan.enable_autostart);
}

#[test]
fn marker_is_found_anywhere_among_arguments() {
    let none: Vec<String> = vec![];
    assert!(!has_minimized_marker(&none));
    let without = vec!["program".to_string(), "--other".to_string()];
    assert!(!has_minimized_marker(&without));
    let with = vec!["program".to_string(), "--minimized".to_string(), "x".to_string()];
    assert!(has_minimized_marker(&with));
    // The whole argument must match, not a prefix.
    let prefixed = vec!["--minimized-extra".to_string()];
    assert!(!has_minimized_marker(&prefixed));
}

#[test]
fn navigate_script_quotes_the_url() {
    assert_eq!(
        navigate_script("https://pingvoice.io/dashboard"),
        "window.location.replace('https://pingvoice.io/dashboard')"
    );
}

#[test]
fn navigate_script_escapes_single_quotes() {
    assert_eq!(
        navigate_script("https://example.org/a'b'c"),
        "window.location.replace('https://example.org/a\\'b\\'c')"
    );
}
