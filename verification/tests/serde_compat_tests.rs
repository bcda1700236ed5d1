//! The canonical rendered form is ordinary JSON: an independent JSON parser
//! reads back exactly the values that were written.

use pingvoice_shell::config::AppConfig;

fn parse_with_serde(text: &str) -> serde_json::Value {
    serde_json::from_str(text).expect("rendered text is valid JSON")
}

#[test]
fn rendered_default_reads_back_with_serde_json() {
    let v = parse_with_serde(&AppConfig::default().to_json());
    let o = v.as_object().expect("an object");
    assert_eq!(o.len(), 3);
    assert_eq!(o.get("url").unwrap().as_str().unwrap(), "https://pingvoice.io/dashboard");
    assert_eq!(o.get("autostart").unwrap().as_bool().unwrap(), true);
    assert_eq!(o.get("start_minimized").unwrap().as_bool().unwrap(), true);
}

#[test]
fn rendered_escapes_read_back_with_serde_json() {
    let c = AppConfig {
        url: "he said \"hi\" and c:\\path".to_string(),
        autostart: false,
        start_minimized: true,
    };
    let v = parse_with_serde(&c.to_json());
    assert_eq!(v.get("url").unwrap().as_str().unwrap(), "he said \"hi\" and c:\\path");
    assert_eq!(v.get("autostart").unwrap().as_bool().unwrap(), false);
    assert_eq!(v.get("start_minimized").unwrap().as_bool().unwrap(), true);
}

#[test]
fn serde_json_output_reads_back_with_the_library() {
    // A file written by an ordinary JSON serializer is read the same way.
    let mut m = serde_json::Map::new();
    m.insert("url".to_string(), serde_json::Value::String("https://example.org/d".to_string()));
    m.insert("autostart".to_string(), serde_json::Value::Bool(false));
    let text = serde_json::to_string_pretty(&serde_json::Value::Object(m)).unwrap();
    let c = AppConfig::parse_json(&text).expect("serde output parses");
    assert_eq!(c.url, "https://example.org/d");
    assert!(!c.autostart);
    assert!(c.start_minimized);
}
