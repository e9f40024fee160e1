use kvserver::glob::Finder;

fn helper(pattern: &[u8], input: &[u8]) -> bool {
    let finder = Finder::new(pattern);
    finder.do_match(input)
}

#[test]
fn test_simple_match() {
    assert!(helper(b"a", b"a"));
    assert!(!helper(b"a", b"b"));
    assert!(!helper(b"a", b"ab"));
    assert!(!helper(b"ab", b"a"));
    assert!(!helper(b"ab", b"b"));
    assert!(helper(b"ab", b"ab"));
}

#[test]
fn test_star() {
    assert!(helper(b"*", b"a"));
    assert!(helper(b"*", b"b"));
    assert!(helper(b"*", b"ab"));
    assert!(helper(b"a*", b"a"));
    assert!(!helper(b"a*", b"b"));
    assert!(helper(b"a*", b"ab"));
    assert!(helper(b"*a", b"a"));
    assert!(!helper(b"*a", b"b"));
    assert!(!helper(b"*a", b"ab"));
    assert!(helper(b"*a*", b"a"));
    assert!(!helper(b"*a*", b"b"));
    assert!(helper(b"*a*", b"ab"));
}

#[test]
fn test_escape() {
    assert!(helper(b"a\\*", b"a*"));
    assert!(!helper(b"a\\*", b"abc"));
}

#[test]
fn empty_pattern_matches_nothing() {
    assert!(!helper(b"", b""));
    assert!(!helper(b"", b"a"));
}

#[test]
fn star_matches_empty_and_anything() {
    assert!(helper(b"*", b""));
    assert!(helper(b"**", b"xyz"));
    assert!(matches!(Finder::new(b"***"), Finder::AllMatch));
}

#[test]
fn needle_search() {
    assert!(matches!(Finder::new(b"*ell*"), Finder::FindNeedle(_)));
    assert!(helper(b"*ell*", b"hello"));
    assert!(helper(b"*ell*", b"ell"));
    assert!(!helper(b"*ell*", b"hel lo"));
}

#[test]
fn question_marks_and_lengths() {
    assert!(matches!(Finder::new(b"??"), Finder::AllMatchWithLen(2)));
    assert!(helper(b"??", b"ab"));
    assert!(!helper(b"??", b"abc"));
    assert!(matches!(Finder::new(b"?*?"), Finder::AllMatchWithMinLen(2)));
    assert!(helper(b"?*?", b"ab"));
    assert!(helper(b"?*?", b"abcdef"));
    assert!(!helper(b"?*?", b"a"));
}

#[test]
fn classes() {
    assert!(helper(b"h[ae]llo", b"hello"));
    assert!(helper(b"h[ae]llo", b"hallo"));
    assert!(!helper(b"h[ae]llo", b"hillo"));
    assert!(helper(b"h[^e]llo", b"hallo"));
    assert!(!helper(b"h[^e]llo", b"hello"));
    assert!(helper(b"h[a-b]llo", b"hbllo"));
    assert!(helper(b"h[b-a]llo", b"hallo"));
    assert!(!helper(b"h[a-b]llo", b"hcllo"));
    assert!(helper(b"[\\]]", b"]"));
}

#[test]
fn empty_class_matches_nothing_and_negated_empty_is_any() {
    assert!(!helper(b"a[]", b"a"));
    assert!(!helper(b"a[]", b"ab"));
    assert!(helper(b"a[^]", b"ab"));
    assert!(!helper(b"a[^]", b"a"));
}

#[test]
fn escapes_outside_class() {
    assert!(helper(b"\\?", b"?"));
    assert!(!helper(b"\\?", b"a"));
    assert!(helper(b"\\[x", b"[x"));
    assert!(helper(b"\\a", b"\\a"));
    assert!(!helper(b"\\a", b"a"));
}

#[test]
fn generic_engine_backtracks() {
    assert!(helper(b"a*b*c", b"aXbYbZc"));
    assert!(helper(b"*ab", b"aab"));
    assert!(!helper(b"a*b*c", b"aXbYbZ"));
    assert!(helper(b"a?c*", b"abcdef"));
}
