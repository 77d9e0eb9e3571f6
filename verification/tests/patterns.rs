use tidyfile::rules::condition::ConditionError;
use tidyfile::rules::patterns::{glob, regex_matcher, Patterns, MAX_CACHED};

#[test]
fn a_glob_compiles_and_matches() {
    let mut cache = Patterns::new();
    assert!(glob(&mut cache, "Screenshot*.png").unwrap().is_match("Screenshot 1.png"));
}

#[test]
fn a_regex_compiles_and_matches() {
    let mut cache = Patterns::new();
    assert!(regex_matcher(&mut cache, r"^IMG_\d+$").unwrap().is_match("IMG_0421"));
}

#[test]
fn repeated_requests_return_equivalent_matchers() {
    let mut cache = Patterns::new();
    let first = glob(&mut cache, "*.pdf").unwrap();
    let second = glob(&mut cache, "*.pdf").unwrap();

    assert_eq!(first.is_match("a.pdf"), second.is_match("a.pdf"));
    assert!(second.is_match("b.PDF"), "case insensitivity survived caching");
}

#[test]
fn an_invalid_pattern_is_reported_and_not_cached() {
    let mut cache = Patterns::new();
    assert!(matches!(regex_matcher(&mut cache, "(unclosed"), Err(ConditionError::InvalidRegex)));
    assert!(matches!(regex_matcher(&mut cache, "(unclosed"), Err(ConditionError::InvalidRegex)));
    assert_eq!(cache.cached_regexes(), 0);
}

#[test]
fn the_cache_stays_bounded() {
    let mut cache = Patterns::new();
    for index in 0..(MAX_CACHED + 20) {
        let _ = regex_matcher(&mut cache, &format!("^unique-{index}$"));
    }

    let held = cache.cached_regexes();
    assert!(held <= MAX_CACHED, "cache grew to {held} entries");
}

#[test]
fn a_glob_does_not_cross_folder_separators() {
    let mut cache = Patterns::new();
    let matcher = glob(&mut cache, "*.pdf").unwrap();
    assert!(!matcher.is_match("sub/a.pdf"));
    assert!(matches!(glob(&mut cache, "[unclosed"), Err(ConditionError::InvalidGlob)));
    assert_eq!(cache.cached_globs(), 1);
}

#[test]
fn a_remembered_pattern_keeps_its_source() {
    let mut cache = Patterns::new();
    let compiled = regex_matcher(&mut cache, "^a+$").unwrap();
    assert!(!compiled.is_match("b"));
    let again = compiled.duplicate();
    assert!(again.is_match("aaa"));
}
