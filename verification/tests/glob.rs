use pvz_pak_tool::{glob_match, matches_glob_pattern};

#[test]
fn star_is_anchored_over_the_whole_string() {
    // the pattern covers the full string, and separators get no special
    // treatment: `*` crosses them as it crosses anything else
    assert!(glob_match("a/b/c.xml", "*/*/*.xml"));
    assert!(glob_match("a/b/c.xml", "*.xml"));
    assert!(!glob_match("a/b/c.xml", "*.xml/"));
    assert!(!glob_match("a/b/c.xml", "?.xml"));
}

#[test]
fn question_mark_matches_exactly_one_character() {
    assert!(glob_match("a", "?"));
    assert!(!glob_match("", "?"));
    assert!(!glob_match("ab", "?"));
    assert!(glob_match("ab", "??"));
    assert!(glob_match("axc", "a?c"));
    assert!(!glob_match("ac", "a?c"));
}

#[test]
fn classes_match_one_member() {
    assert!(glob_match("data/5.txt", "data/[0-9]*.txt"));
    assert!(!glob_match("data/x.txt", "data/[0-9]*.txt"));
    assert!(glob_match("b", "[abc]"));
    assert!(!glob_match("d", "[abc]"));
}

#[test]
fn negated_classes() {
    assert!(glob_match("X", "[!abc]"));
    assert!(!glob_match("a", "[!abc]"));
}

#[test]
fn unterminated_bracket_is_a_literal() {
    assert!(glob_match("[x", "[?"));
    assert!(glob_match("[", "["));
    assert!(!glob_match("x", "["));
}

#[test]
fn empty_pattern_needs_empty_text() {
    assert!(glob_match("", ""));
    assert!(!glob_match("a", ""));
    assert!(glob_match("", "***"));
    assert!(!glob_match("", "*a"));
}

#[test]
fn star_backtracks() {
    assert!(glob_match("abcbcd", "a*bcd"));
    assert!(glob_match("aaa", "*a"));
    assert!(!glob_match("abc", "a*d"));
}

#[test]
fn ranges_need_a_following_character_run() {
    // a three-character run with a middle dash is a range
    assert!(glob_match("m", "[a-z]"));
    assert!(!glob_match("M", "[a-z]"));
    // a lone dash is a literal member
    assert!(glob_match("-", "[-]"));
}

#[test]
fn literal_matching_is_exact() {
    assert!(matches_glob_pattern("sub\\b.txt", "sub\\b.txt"));
    assert!(!matches_glob_pattern("sub\\b.txt", "sub\\b.txd"));
    assert!(matches_glob_pattern("sub\\b.txt", "sub\\*"));
}
