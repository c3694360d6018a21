//! Cache tests: the single-flight memoization behaviour.

use stylist::cache::ParseCache;

#[test]
fn test_cache_hit_parses_once() {
    let mut cache = ParseCache::new();
    let text = ".nested { width: 100px; }";
    let first = cache.parse(text).expect("Failed to Parse Style");
    let second = cache.parse(text).expect("Failed to Parse Style");
    assert_eq!(first, second);
    assert_eq!(cache.misses(), 1);
}

#[test]
fn test_cache_keys_are_exact_text() {
    let mut cache = ParseCache::new();
    // Whitespace differences are different cache keys, though the parses
    // agree structurally.
    let first = cache.parse("color: red;").expect("Failed to Parse Style");
    let second = cache.parse("color:  red;").expect("Failed to Parse Style");
    assert_eq!(first, second);
    assert_eq!(cache.misses(), 2);
}

#[test]
fn test_cache_does_not_cache_failures() {
    let mut cache = ParseCache::new();
    assert!(cache.parse("color: red").is_err());
    assert!(cache.parse("color: red").is_err());
    assert_eq!(cache.misses(), 2);
}

#[test]
fn test_cache_result_matches_direct_parse() {
    let mut cache = ParseCache::new();
    let text = "@media screen and ${bp} { display: flex; }";
    let via_cache = cache.parse(text).expect("Failed to Parse Style");
    let direct = stylist::parser::Parser::parse(text).expect("Failed to Parse Style");
    assert_eq!(via_cache, direct);
    // A hit returns an independently-owned, structurally equal copy.
    let again = cache.parse(text).expect("Failed to Parse Style");
    assert!(again.same_as(&direct));
}
