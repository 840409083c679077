use timber_rs::accelerated::PatternMatcherFactory;
use timber_rs::accelerated::SimdLiteralMatcher;
use timber_rs::accelerated::line_processing::count_lines;
use timber_rs::accelerated::line_processing::find_line_endings;
use timber_rs::analyzer::LiteralMatcher;
use timber_rs::analyzer::PatternMatcher;

#[test]
fn test_simd_literal_matcher_basic() {
    let matcher = SimdLiteralMatcher::new("test");

    assert!(matcher.is_match("This is a test string"));
    assert!(!matcher.is_match("This does not match"));
}

#[test]
fn test_factory_creates_appropriate_matchers() {
    // Simple pattern should use literal/accelerated matching
    let simple_matcher = PatternMatcherFactory::create("simple").unwrap();
    assert!(simple_matcher.is_match("simple pattern"));
    assert!(!simple_matcher.is_match("not matching"));

    // Complex pattern should use regex matching
    let complex_matcher = PatternMatcherFactory::create("comp.ex|pattern").unwrap();
    assert!(complex_matcher.is_match("complex"));
    assert!(complex_matcher.is_match("pattern"));
    assert!(!complex_matcher.is_match("not matching"));
}

#[test]
fn test_line_processing() {
    let text = b"Line 1\nLine 2\nLine 3";
    let line_endings = find_line_endings(text);

    assert_eq!(line_endings, vec![6, 13]);
    assert_eq!(count_lines(text), 3);
}

#[test]
fn test_literal_and_accelerated_agree() {
    let patterns = ["a", "ab", "abc", "needle in a haystack"];
    let texts = [
        "a short line",
        "the needle in a haystack is here",
        "abcabcabc",
        "",
    ];
    for p in patterns.iter() {
        let lit = LiteralMatcher::new(p);
        let acc = SimdLiteralMatcher::new(p);
        for t in texts.iter() {
            assert_eq!(lit.is_match(t), acc.is_match(t));
        }
    }
}

#[test]
fn test_short_pattern_fallback() {
    // below the acceleration threshold the plain path decides
    let matcher = SimdLiteralMatcher::new("ab");
    assert!(matcher.is_match("slab of text: ab"));
    assert!(!matcher.is_match("nothing here"));
}
