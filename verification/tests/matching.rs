use ignore_patterns::glob::glob_match;
use ignore_patterns::matcher::matches_pattern;
use ignore_patterns::store::IgnoreConfig;

fn config_of(entries: &[(&str, bool)]) -> IgnoreConfig {
    let mut config = IgnoreConfig::default();
    for (pattern, enabled) in entries {
        config.add(pattern.to_string()).unwrap();
        if !enabled {
            config.toggle(pattern).unwrap();
        }
    }
    config
}

#[test]
fn glob_star_and_question() {
    assert!(glob_match("", "*"));
    assert!(glob_match("anything", "*"));
    assert!(glob_match("ab", "a?"));
    assert!(!glob_match("a", "a?"));
}

#[test]
fn glob_literals() {
    assert!(glob_match("abc", "abc"));
    assert!(!glob_match("abc", "abd"));
    assert!(!glob_match("abc", "ab"));
    assert!(!glob_match("ab", "abc"));
    assert!(glob_match("", ""));
    assert!(!glob_match("a", ""));
    assert!(!glob_match("", "?"));
}

#[test]
fn glob_backtracking() {
    assert!(glob_match("a.tmp", "*.tmp"));
    assert!(!glob_match("a.tmp.bak", "*.tmp"));
    assert!(glob_match("aXbYc", "a*b*c"));
    assert!(!glob_match("aXbYd", "a*b*c"));
    assert!(glob_match("abc", "a*c"));
    assert!(glob_match("ac", "a*c"));
    assert!(glob_match("a", "a*"));
    assert!(glob_match("a", "*a"));
    assert!(glob_match("aaa", "*a*a*"));
}

#[test]
fn glob_star_matches_empty_remainder() {
    // A `*` may consume nothing even when more pattern follows.
    assert!(glob_match("", "**"));
    assert!(glob_match("a", "a**"));
    assert!(glob_match("ab", "a**b"));
}

#[test]
fn matches_pattern_suffix() {
    assert!(matches_pattern("/a/b/c", "b/c"));
    assert!(matches_pattern("C:\\Users\\x\\node_modules", "node_modules"));
    assert!(matches_pattern("/a/b/c", "b\\c"));
    assert!(!matches_pattern("/a/b/c", "b/d"));
}

#[test]
fn matches_pattern_segment_and_full_path() {
    // A single-segment glob applies at any depth.
    assert!(matches_pattern("/src/target/debug", "targ*"));
    // A multi-segment glob must span the whole normalized path.
    assert!(matches_pattern("/a/b/c", "/a/*/c"));
    assert!(!matches_pattern("/a/b/c", "/a/*/d"));
}

#[test]
fn should_ignore_node_modules() {
    let config = config_of(&[("node_modules", true)]);
    assert!(config.should_ignore("/a/b/node_modules/x"));
}

#[test]
fn should_ignore_tmp_suffix_glob() {
    let config = config_of(&[("*.tmp", true)]);
    assert!(config.should_ignore("/a/b.tmp"));
    assert!(!config.should_ignore("/a/b.tmp.bak"));
}

#[test]
fn disabled_entry_is_skipped() {
    let config = config_of(&[("node_modules", false)]);
    assert!(!config.should_ignore("/a/b/node_modules/x"));
    // Even a match-everything pattern is inert while disabled.
    let world = config_of(&[("*", false)]);
    assert!(!world.should_ignore("/any/path/at/all"));
    assert!(!world.should_ignore(""));
}

#[test]
fn empty_store_ignores_nothing() {
    let config = IgnoreConfig::default();
    assert!(!config.should_ignore("/a/b/c"));
    assert!(!config.should_ignore(""));
}

#[test]
fn first_enabled_match_wins_but_any_suffices() {
    let config = config_of(&[("nope", true), ("*.log", true)]);
    assert!(config.should_ignore("/var/x.log"));
    assert!(!config.should_ignore("/var/x.txt"));
}
