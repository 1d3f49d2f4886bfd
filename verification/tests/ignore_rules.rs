use ogit::ignore::{ignore_matchers, is_ignored, parse_ignore_lines, translate_pattern};

#[test]
fn test_translate_pattern() {
    assert_eq!(translate_pattern("*.tmp"), ".*\\.tmp");
    assert_eq!(translate_pattern("target"), "target");
    assert_eq!(translate_pattern("a.b*c"), "a\\.b.*c");
}

#[test]
fn test_store_root_always_ignored() {
    let ignores = ignore_matchers(&Vec::new());
    assert_eq!(ignores, vec!["\\.ogit".to_string()]);
    assert!(is_ignored("./.ogit", &ignores));
    assert!(!is_ignored("./src", &ignores));
}

#[test]
fn test_is_ignored_matches_translated_patterns() {
    let raw = vec!["*.tmp".to_string(), "build".to_string()];
    let ignores = ignore_matchers(&raw);
    assert!(is_ignored("./scratch.tmp", &ignores));
    assert!(is_ignored("./build", &ignores));
    assert!(!is_ignored("./main.rs", &ignores));
}

#[test]
fn test_invalid_pattern_matches_nothing() {
    let ignores = vec!["(".to_string()];
    assert!(!is_ignored("./(", &ignores));
}

#[test]
fn test_parse_ignore_lines() {
    let text = "target\n# a comment\nscratch.tmp # trailing note\n   \n\nlogs\n";
    let lines = parse_ignore_lines(text);
    assert_eq!(
        lines,
        vec![
            "target".to_string(),
            "scratch.tmp ".to_string(),
            "logs".to_string(),
        ]
    );
}
