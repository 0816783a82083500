use mux_server::server_settings::{
    default_scrollback_lines, needs_reload, ServerSettings, ServerSettingsFile,
    DEFAULT_KEEP_ALIVE_SECONDS,
};

fn settings(keep_alive_seconds: u64, scrollback_lines: u64) -> ServerSettings {
    ServerSettings {
        keep_alive_seconds,
        scrollback_lines,
        settings_path: None,
    }
}

fn parse(text: &str) -> ServerSettingsFile {
    let value: serde_json::Value = serde_json::from_str(text).expect("parse");
    let number = |key: &str| value.get(key).and_then(|number| number.as_u64());
    ServerSettingsFile {
        keep_alive_seconds: number("keep_alive_seconds"),
        scrollback_lines: number("scrollback_lines"),
        max_scroll_history_lines: number("max_scroll_history_lines"),
    }
}

#[test]
fn keep_alive_defaults_to_forever() {
    assert_eq!(
        DEFAULT_KEEP_ALIVE_SECONDS, 0,
        "0 means never expire; a finite default would silently drop idle sessions"
    );
}

#[test]
fn apply_file_updates_atomics() {
    let mut settings = settings(0, 10_000);
    let changed = settings.apply_file(&ServerSettingsFile {
        keep_alive_seconds: Some(30),
        scrollback_lines: Some(2000),
        max_scroll_history_lines: None,
    });
    assert!(changed);
    assert_eq!(settings.keep_alive_seconds(), 30);
    assert_eq!(settings.scrollback_lines(), 2000);
}

#[test]
fn scrollback_caps_at_100k() {
    let mut settings = settings(0, 10_000);
    settings.apply_file(&ServerSettingsFile {
        keep_alive_seconds: None,
        scrollback_lines: Some(500_000),
        max_scroll_history_lines: None,
    });
    assert_eq!(settings.scrollback_lines(), 100_000);
}

#[test]
fn read_file_parses_json() {
    let parsed = parse(r#"{"keep_alive_seconds": 12, "scrollback_lines": 1234}"#);
    assert_eq!(parsed.keep_alive_seconds, Some(12));
    assert_eq!(parsed.scrollback_lines, Some(1234));

    let path = Some(String::from("server.json"));
    let loaded = ServerSettings::load(&None, &None, path, &Some(parsed));
    assert_eq!(loaded.keep_alive_seconds(), 12);
    assert_eq!(loaded.scrollback_lines(), 1234);
    assert_eq!(loaded.settings_path(), Some("server.json"));
}

#[test]
fn example_file_parses_with_defaults() {
    let parsed = parse(
        r#"{"keep_alive_seconds": 0, "scrollback_lines": 10000, "max_scroll_history_lines": 10000}"#,
    );
    assert_eq!(parsed.keep_alive_seconds, Some(0));
    assert_eq!(parsed.scrollback_lines, Some(10_000));
    assert_eq!(parsed.max_scroll_history_lines, Some(10_000));

    let mut settings = settings(999, 999);
    settings.apply_file(&parsed);
    assert_eq!(settings.keep_alive_seconds(), 0);
    assert_eq!(settings.scrollback_lines(), 10_000);
}

#[test]
fn applying_a_file_twice_changes_nothing_more() {
    let mut settings = settings(5, 10_000);
    let file = ServerSettingsFile {
        keep_alive_seconds: None,
        scrollback_lines: None,
        max_scroll_history_lines: Some(77),
    };
    assert!(settings.apply_file(&file));
    assert_eq!(settings.scrollback_lines(), 77);
    assert!(!settings.apply_file(&file));
    assert_eq!(settings.keep_alive_seconds(), 5);
    assert_eq!(settings.scrollback_lines(), 77);
}

#[test]
fn the_environment_comes_before_the_file() {
    let file = Some(parse(
        r#"{"keep_alive_seconds": 12, "scrollback_lines": 1234}"#,
    ));
    let load = |keep_alive: Option<&str>, scrollback: Option<&str>, file| {
        ServerSettings::load(
            &keep_alive.map(String::from),
            &scrollback.map(String::from),
            Some(String::from("/etc/server.json")),
            file,
        )
    };
    let loaded = load(Some("5"), Some("700"), &file);
    assert_eq!(loaded.keep_alive_seconds(), 5);
    assert_eq!(loaded.scrollback_lines(), 700);
    assert_eq!(loaded.settings_path(), Some("/etc/server.json"));

    let loaded = load(Some("soon"), None, &file);
    assert_eq!(loaded.keep_alive_seconds(), 12);
    assert_eq!(loaded.scrollback_lines(), 1234);

    let loaded = load(None, None, &None);
    assert_eq!(loaded.keep_alive_seconds(), 0);
    assert_eq!(loaded.scrollback_lines(), 10_000);

    let long = Some(parse(r#"{"scrollback_lines": 500000}"#));
    assert_eq!(load(None, None, &long).scrollback_lines(), 100_000);
}

#[test]
fn an_environment_that_is_no_number_is_passed_over() {
    assert_eq!(default_scrollback_lines(&Some(String::from("many"))), 10_000);
    assert_eq!(default_scrollback_lines(&None), 10_000);
    assert_eq!(default_scrollback_lines(&Some(String::from("12"))), 12);
}

#[test]
fn a_file_is_read_again_once_it_has_changed() {
    assert!(!needs_reload(None, None));
    assert!(needs_reload(None, Some(1)));
    assert!(!needs_reload(Some(1), Some(1)));
    assert!(needs_reload(Some(1), Some(2)));
    assert!(!needs_reload(Some(1), None));
}
