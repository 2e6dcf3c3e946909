use modular_agent_voicevox::emotion::{
    alternation_pattern, order_longest_first, raw_pattern_body, segments_from_matches,
    EmotionMatcher,
};
use modular_agent_voicevox::pattern::MatchSpan;
use modular_agent_voicevox::TtsError;

// --- EmotionMatcher tests ---

#[test]
fn test_build_empty_keys() {
    let result = EmotionMatcher::build(&[]).unwrap();
    assert!(result.is_none());
}

#[test]
fn test_build_with_empty_string_keys() {
    let result = EmotionMatcher::build(&["".to_string()]).unwrap();
    assert!(result.is_none());
}

#[test]
fn test_build_literal_keys() {
    let keys = vec!["((happy))".to_string(), "((sad))".to_string()];
    let matcher = EmotionMatcher::build(&keys).unwrap();
    assert!(matcher.is_some());
}

#[test]
fn test_build_regex_keys() {
    let keys = vec!["/\\(\\(\\w+\\)\\)/".to_string()];
    let matcher = EmotionMatcher::build(&keys).unwrap();
    assert!(matcher.is_some());
}

#[test]
fn test_build_invalid_regex() {
    let keys = vec!["/[invalid/".to_string()];
    let result = EmotionMatcher::build(&keys);
    assert!(result.is_err());
}

#[test]
fn test_build_skips_empty_match_patterns() {
    // Pattern that matches empty string should be skipped
    let keys = vec!["/.*/".to_string()];
    let result = EmotionMatcher::build(&keys).unwrap();
    assert!(result.is_none());
}

// --- Parsing tests ---

#[test]
fn test_parse_no_tags() {
    let keys = vec!["((happy))".to_string()];
    let matcher = EmotionMatcher::build(&keys).unwrap().unwrap();
    let segments = matcher.parse("Hello world");
    assert_eq!(segments.len(), 1);
    assert!(segments[0].key.is_none());
    assert_eq!(segments[0].text, "Hello world");
}

#[test]
fn test_parse_single_tag() {
    let keys = vec!["((happy))".to_string()];
    let matcher = EmotionMatcher::build(&keys).unwrap().unwrap();
    let segments = matcher.parse("((happy))Hello world");
    assert_eq!(segments.len(), 1);
    assert_eq!(segments[0].key.as_deref(), Some("((happy))"));
    assert_eq!(segments[0].text, "Hello world");
}

#[test]
fn test_parse_multiple_tags() {
    let keys = vec!["((neutral))".to_string(), "((happy))".to_string()];
    let matcher = EmotionMatcher::build(&keys).unwrap().unwrap();
    let segments = matcher.parse("((neutral))こんにちは。((happy))元気だった？");
    assert_eq!(segments.len(), 2);
    assert_eq!(segments[0].key.as_deref(), Some("((neutral))"));
    assert_eq!(segments[0].text, "こんにちは。");
    assert_eq!(segments[1].key.as_deref(), Some("((happy))"));
    assert_eq!(segments[1].text, "元気だった？");
}

#[test]
fn test_parse_text_before_first_tag() {
    let keys = vec!["((happy))".to_string()];
    let matcher = EmotionMatcher::build(&keys).unwrap().unwrap();
    let segments = matcher.parse("Hello ((happy))World");
    assert_eq!(segments.len(), 2);
    assert!(segments[0].key.is_none());
    assert_eq!(segments[0].text, "Hello ");
    assert_eq!(segments[1].key.as_deref(), Some("((happy))"));
    assert_eq!(segments[1].text, "World");
}

#[test]
fn test_parse_consecutive_tags() {
    let keys = vec!["((angry))".to_string(), "((happy))".to_string()];
    let matcher = EmotionMatcher::build(&keys).unwrap().unwrap();
    let segments = matcher.parse("((angry))((happy))Text");
    // ((angry)) followed immediately by ((happy)) — no text for angry
    assert_eq!(segments.len(), 1);
    assert_eq!(segments[0].key.as_deref(), Some("((happy))"));
    assert_eq!(segments[0].text, "Text");
}

#[test]
fn test_parse_tag_at_end() {
    let keys = vec!["((sad))".to_string()];
    let matcher = EmotionMatcher::build(&keys).unwrap().unwrap();
    let segments = matcher.parse("Hello((sad))");
    assert_eq!(segments.len(), 1);
    assert!(segments[0].key.is_none());
    assert_eq!(segments[0].text, "Hello");
}

#[test]
fn test_parse_generic_regex_pattern() {
    let keys = vec!["/\\(\\(\\w+\\)\\)/".to_string()];
    let matcher = EmotionMatcher::build(&keys).unwrap().unwrap();
    let segments = matcher.parse("((neutral))こんにちは。((excited))すごい！");
    assert_eq!(segments.len(), 2);
    assert_eq!(segments[0].key.as_deref(), Some("/\\(\\(\\w+\\)\\)/"));
    assert_eq!(segments[0].text, "こんにちは。");
    assert_eq!(segments[1].text, "すごい！");
}

#[test]
fn test_parse_complex_example() {
    let keys = vec![
        "((neutral))".to_string(),
        "((happy))".to_string(),
        "((sad))".to_string(),
        "((angry))".to_string(),
        "((relaxed))".to_string(),
    ];
    let matcher = EmotionMatcher::build(&keys).unwrap().unwrap();
    let segments = matcher.parse("((neutral))夏休みの予定か～。((happy))海に遊びに行こうかな！");
    assert_eq!(segments.len(), 2);
    assert_eq!(segments[0].key.as_deref(), Some("((neutral))"));
    assert_eq!(segments[0].text, "夏休みの予定か～。");
    assert_eq!(segments[1].key.as_deref(), Some("((happy))"));
    assert_eq!(segments[1].text, "海に遊びに行こうかな！");
}

// --- Further cases ---

#[test]
fn build_invalid_regex_reports_the_pattern_error() {
    let keys = vec!["/[invalid/".to_string()];
    match EmotionMatcher::build(&keys) {
        Err(TtsError::InvalidPattern(message)) => assert!(!message.is_empty()),
        _ => panic!("expected an invalid pattern error"),
    }
}

#[test]
fn longer_literal_key_wins_over_its_prefix() {
    // The longer key is tried first, so "abc" is not read as "ab" followed by "c".
    let keys = vec!["ab".to_string(), "abc".to_string()];
    let matcher = EmotionMatcher::build(&keys).unwrap().unwrap();
    let segments = matcher.parse("abcX abY");
    assert_eq!(segments.len(), 2);
    assert_eq!(segments[0].key.as_deref(), Some("abc"));
    assert_eq!(segments[0].text, "X ");
    assert_eq!(segments[1].key.as_deref(), Some("ab"));
    assert_eq!(segments[1].text, "Y");
}

#[test]
fn literal_keys_are_escaped() {
    let keys = vec!["a.b".to_string()];
    let matcher = EmotionMatcher::build(&keys).unwrap().unwrap();
    let segments = matcher.parse("axb a.bz");
    assert_eq!(segments.len(), 2);
    assert!(segments[0].key.is_none());
    assert_eq!(segments[0].text, "axb ");
    assert_eq!(segments[1].key.as_deref(), Some("a.b"));
    assert_eq!(segments[1].text, "z");
}

#[test]
fn single_slash_key_is_a_literal() {
    let keys = vec!["/".to_string()];
    let matcher = EmotionMatcher::build(&keys).unwrap().unwrap();
    let segments = matcher.parse("a/b");
    assert_eq!(segments.len(), 2);
    assert_eq!(segments[1].key.as_deref(), Some("/"));
    assert_eq!(segments[1].text, "b");
}

#[test]
fn empty_raw_regex_key_is_skipped() {
    let keys = vec!["//".to_string()];
    assert!(EmotionMatcher::build(&keys).unwrap().is_none());
}

#[test]
fn raw_pattern_body_strips_the_slashes() {
    assert_eq!(raw_pattern_body("/a+/").as_deref(), Some("a+"));
    assert_eq!(raw_pattern_body("//").as_deref(), Some(""));
    assert_eq!(raw_pattern_body("/"), None);
    assert_eq!(raw_pattern_body("a/"), None);
    assert_eq!(raw_pattern_body("/é/").as_deref(), Some("é"));
}

#[test]
fn order_longest_first_keeps_ties_in_order() {
    let items = vec![
        ("bb".to_string(), "1".to_string()),
        ("a".to_string(), "2".to_string()),
        ("ccc".to_string(), "3".to_string()),
        ("dd".to_string(), "4".to_string()),
        // two bytes in UTF-8, one character
        ("é".to_string(), "5".to_string()),
    ];
    let ordered = order_longest_first(&items);
    let patterns: Vec<&str> = ordered.iter().map(|p| p.1.as_str()).collect();
    assert_eq!(patterns, vec!["3", "1", "4", "5", "2"]);
}

#[test]
fn alternation_groups_each_pattern() {
    let items = vec![
        ("k1".to_string(), "a+".to_string()),
        ("k2".to_string(), "b|c".to_string()),
    ];
    assert_eq!(alternation_pattern(&items), "(a+)|(b|c)");
    assert_eq!(alternation_pattern(&vec![]), "");
}

#[test]
fn segments_from_given_matches() {
    let text = "héllo [x] wörld [y]";
    let start_x = text.find("[x]").unwrap();
    let start_y = text.find("[y]").unwrap();
    let spans = vec![
        MatchSpan { start: start_x, end: start_x + 3, groups: vec![true, true, false] },
        MatchSpan { start: start_y, end: start_y + 3, groups: vec![true, false, true] },
    ];
    let keys = vec!["x".to_string(), "y".to_string()];
    let segments = segments_from_matches(text, &spans, &keys);
    assert_eq!(segments.len(), 2);
    assert!(segments[0].key.is_none());
    assert_eq!(segments[0].text, "héllo ");
    assert_eq!(segments[1].key.as_deref(), Some("x"));
    assert_eq!(segments[1].text, " wörld ");
}

#[test]
fn match_without_a_key_group_clears_the_key() {
    let text = "A[x]B[?]C";
    let spans = vec![
        MatchSpan { start: 1, end: 4, groups: vec![true, true] },
        MatchSpan { start: 5, end: 8, groups: vec![true, false] },
    ];
    let keys = vec!["x".to_string()];
    let segments = segments_from_matches(text, &spans, &keys);
    assert_eq!(segments.len(), 3);
    assert!(segments[0].key.is_none());
    assert_eq!(segments[1].key.as_deref(), Some("x"));
    assert_eq!(segments[1].text, "B");
    assert!(segments[2].key.is_none());
    assert_eq!(segments[2].text, "C");
}

#[test]
fn parse_of_empty_text_gives_no_segments() {
    let keys = vec!["((happy))".to_string()];
    let matcher = EmotionMatcher::build(&keys).unwrap().unwrap();
    assert!(matcher.parse("").is_empty());
    assert!(matcher.parse("((happy))").is_empty());
}

#[test]
fn segments_keep_all_text_outside_tags() {
    let keys = vec!["((a))".to_string(), "((b))".to_string()];
    let matcher = EmotionMatcher::build(&keys).unwrap().unwrap();
    let text = "x((a))yy((b))((a))zé";
    let segments = matcher.parse(text);
    let joined: String = segments.iter().map(|s| s.text.as_str()).collect();
    assert_eq!(joined, "xyyzé");
    assert!(segments.iter().all(|s| !s.text.is_empty()));
    let keys: Vec<Option<&str>> = segments.iter().map(|s| s.key.as_deref()).collect();
    assert_eq!(keys, vec![None, Some("((a))"), Some("((a))")]);
}

#[test]
fn every_regex_meta_character_in_a_key_is_literal() {
    let keys = vec!["a+b(c)|[d]{2}^$.*?#&-~\\".to_string()];
    let matcher = EmotionMatcher::build(&keys).unwrap().unwrap();
    let segments = matcher.parse("x a+b(c)|[d]{2}^$.*?#&-~\\ y aabc");
    assert_eq!(segments.len(), 2);
    assert!(segments[0].key.is_none());
    assert_eq!(segments[0].text, "x ");
    assert_eq!(segments[1].key.as_deref(), Some("a+b(c)|[d]{2}^$.*?#&-~\\"));
    assert_eq!(segments[1].text, " y aabc");
}

#[test]
fn key_order_does_not_change_the_matcher() {
    let first = vec!["a".to_string(), "bbb".to_string(), "/c+/".to_string()];
    let second = vec!["/c+/".to_string(), "a".to_string(), "bbb".to_string()];
    let m1 = EmotionMatcher::build(&first).unwrap().unwrap();
    let m2 = EmotionMatcher::build(&second).unwrap().unwrap();
    let text = "x a y bbb z ccc w";
    let s1 = m1.parse(text);
    let s2 = m2.parse(text);
    assert_eq!(s1.len(), s2.len());
    for (p, q) in s1.iter().zip(s2.iter()) {
        assert_eq!(p.key, q.key);
        assert_eq!(p.text, q.text);
    }
    assert_eq!(s1.len(), 4);
    assert_eq!(s1[3].key.as_deref(), Some("/c+/"));
}
