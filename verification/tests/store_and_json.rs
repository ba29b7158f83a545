use ignore_patterns::codec::DecodeError;
use ignore_patterns::store::{IgnoreConfig, IgnorePattern, StoreError};

#[test]
fn add_rejects_the_empty_pattern() {
    let mut config = IgnoreConfig::default();
    assert_eq!(config.add(String::new()), Err(StoreError::EmptyPattern));
    assert_eq!(config.list().len(), 0);
}

#[test]
fn add_twice_reports_duplicate() {
    let mut config = IgnoreConfig::default();
    assert_eq!(config.add("node_modules".to_string()), Ok(()));
    assert_eq!(
        config.add("node_modules".to_string()),
        Err(StoreError::DuplicatePattern)
    );
    let entries = config.list();
    assert_eq!(entries.len(), 1);
    assert_eq!(entries[0].pattern, "node_modules");
    assert!(entries[0].enabled);
}

#[test]
fn add_keeps_insertion_order() {
    let mut config = IgnoreConfig::default();
    config.add("a".to_string()).unwrap();
    config.add("b".to_string()).unwrap();
    config.add("c".to_string()).unwrap();
    let names: Vec<String> = config.list().into_iter().map(|p| p.pattern).collect();
    assert_eq!(names, vec!["a", "b", "c"]);
}

#[test]
fn remove_absent_is_a_noop() {
    let mut config = IgnoreConfig::default();
    config.add("a".to_string()).unwrap();
    config.add("b".to_string()).unwrap();
    config.remove("nope");
    let names: Vec<String> = config.list().into_iter().map(|p| p.pattern).collect();
    assert_eq!(names, vec!["a", "b"]);
}

#[test]
fn remove_removes_every_match() {
    let mut config = IgnoreConfig {
        patterns: vec![
            IgnorePattern { pattern: "a".to_string(), enabled: true },
            IgnorePattern { pattern: "b".to_string(), enabled: false },
            IgnorePattern { pattern: "a".to_string(), enabled: false },
        ],
    };
    config.remove("a");
    let entries = config.list();
    assert_eq!(entries.len(), 1);
    assert_eq!(entries[0].pattern, "b");
    assert!(!entries[0].enabled);
}

#[test]
fn toggle_absent_reports_not_found() {
    let mut config = IgnoreConfig::default();
    config.add("a".to_string()).unwrap();
    assert_eq!(config.toggle("nope"), Err(StoreError::PatternNotFound));
    let entries = config.list();
    assert_eq!(entries.len(), 1);
    assert!(entries[0].enabled);
}

#[test]
fn toggle_flips_and_survives_a_round_trip() {
    let mut config = IgnoreConfig::default();
    config.add("node_modules".to_string()).unwrap();
    config.add("*.tmp".to_string()).unwrap();
    assert_eq!(config.toggle("*.tmp"), Ok(()));
    assert!(!config.list()[1].enabled);
    let text = config.to_json();
    let reloaded = IgnoreConfig::from_json(&text).unwrap();
    let entries = reloaded.list();
    assert_eq!(entries.len(), 2);
    assert_eq!(entries[0].pattern, "node_modules");
    assert!(entries[0].enabled);
    assert_eq!(entries[1].pattern, "*.tmp");
    assert!(!entries[1].enabled);
    assert_eq!(config.toggle("*.tmp"), Ok(()));
    assert!(config.list()[1].enabled);
}

#[test]
fn json_text_is_the_canonical_pretty_form() {
    let empty = IgnoreConfig::default();
    assert_eq!(empty.to_json(), "{\n  \"patterns\": []\n}");

    let mut one = IgnoreConfig::default();
    one.add("node_modules".to_string()).unwrap();
    assert_eq!(
        one.to_json(),
        "{\n  \"patterns\": [\n    {\n      \"pattern\": \"node_modules\",\n      \"enabled\": true\n    }\n  ]\n}"
    );
}

#[test]
fn json_round_trip_preserves_entries_flags_and_order() {
    let mut config = IgnoreConfig::default();
    config.add("node_modules".to_string()).unwrap();
    config.add("he\"llo".to_string()).unwrap();
    config.add("a\\b".to_string()).unwrap();
    config.add("line\nbreak\tand\rreturn".to_string()).unwrap();
    config.toggle("a\\b").unwrap();
    let text = config.to_json();
    let reloaded = IgnoreConfig::from_json(&text).unwrap();
    let before = config.list();
    let after = reloaded.list();
    assert_eq!(before.len(), after.len());
    for (b, a) in before.iter().zip(after.iter()) {
        assert_eq!(b.pattern, a.pattern);
        assert_eq!(b.enabled, a.enabled);
    }
}

#[test]
fn empty_round_trip() {
    let config = IgnoreConfig::default();
    let reloaded = IgnoreConfig::from_json(&config.to_json()).unwrap();
    assert_eq!(reloaded.list().len(), 0);
}

#[test]
fn decoding_handwritten_canonical_text() {
    let text = "{\n  \"patterns\": [\n    {\n      \"pattern\": \"tar*.gz\",\n      \"enabled\": false\n    },\n    {\n      \"pattern\": \"q\\\"q\",\n      \"enabled\": true\n    }\n  ]\n}";
    let config = IgnoreConfig::from_json(text).unwrap();
    let entries = config.list();
    assert_eq!(entries.len(), 2);
    assert_eq!(entries[0].pattern, "tar*.gz");
    assert!(!entries[0].enabled);
    assert_eq!(entries[1].pattern, "q\"q");
    assert!(entries[1].enabled);
}

#[test]
fn malformed_text_is_rejected() {
    assert!(matches!(IgnoreConfig::from_json(""), Err(DecodeError::Malformed)));
    assert!(matches!(IgnoreConfig::from_json("garbage"), Err(DecodeError::Malformed)));
    assert!(matches!(IgnoreConfig::from_json("{}"), Err(DecodeError::Malformed)));
    // An unterminated pattern string.
    assert!(matches!(
        IgnoreConfig::from_json("{\n  \"patterns\": [\n    {\n      \"pattern\": \"x"),
        Err(DecodeError::Malformed)
    ));
    // Trailing non-whitespace text after a well-formed store.
    assert!(matches!(
        IgnoreConfig::from_json("{\n  \"patterns\": []\n} x"),
        Err(DecodeError::Malformed)
    ));
    // An unknown escape.
    assert!(matches!(
        IgnoreConfig::from_json(
            "{\n  \"patterns\": [\n    {\n      \"pattern\": \"a\\qb\",\n      \"enabled\": true\n    }\n  ]\n}"
        ),
        Err(DecodeError::Malformed)
    ));
}

#[test]
fn decoding_compact_json() {
    let config = IgnoreConfig::from_json("{\"patterns\":[{\"pattern\":\"x\",\"enabled\":true}]}").unwrap();
    let entries = config.list();
    assert_eq!(entries.len(), 1);
    assert_eq!(entries[0].pattern, "x");
    assert!(entries[0].enabled);

    let empty = IgnoreConfig::from_json("{\"patterns\": []}").unwrap();
    assert_eq!(empty.list().len(), 0);
}

#[test]
fn decoding_tolerates_whitespace_and_field_order() {
    let text = "  {\n\t\"patterns\" : [ { \"enabled\" : false , \"pattern\" : \"a*\" } ,\n {\"pattern\":\"b\",\"enabled\":true} ]\n}  \n";
    let config = IgnoreConfig::from_json(text).unwrap();
    let entries = config.list();
    assert_eq!(entries.len(), 2);
    assert_eq!(entries[0].pattern, "a*");
    assert!(!entries[0].enabled);
    assert_eq!(entries[1].pattern, "b");
    assert!(entries[1].enabled);
}

#[test]
fn control_characters_are_escaped_and_recovered() {
    let mut config = IgnoreConfig::default();
    config.add("a\u{1}b\u{8}c\u{c}d\u{1f}e".to_string()).unwrap();
    let text = config.to_json();
    assert!(text.contains("a\\u0001b\\bc\\fd\\u001fe"));
    let reloaded = IgnoreConfig::from_json(&text).unwrap();
    assert_eq!(reloaded.list()[0].pattern, "a\u{1}b\u{8}c\u{c}d\u{1f}e");
}

#[test]
fn decoding_standard_escapes() {
    let text = "{\"patterns\":[{\"pattern\":\"\\u0041\\u001B\\/\\b\\f\",\"enabled\":true}]}";
    let config = IgnoreConfig::from_json(text).unwrap();
    assert_eq!(config.list()[0].pattern, "A\u{1b}/\u{8}\u{c}");
}
