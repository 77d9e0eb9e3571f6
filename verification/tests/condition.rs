use tidyfile::rules::condition::{Condition, ConditionError, FileFacts, MAX_PATTERN_LENGTH, SECONDS_PER_DAY};
use tidyfile::rules::patterns::Patterns;

const NANOS: i128 = 1_000_000_000;

fn now() -> i128 {
    1_800_000_000 * NANOS
}

fn facts(relative: &str, size: u64, age_days: u64) -> FileFacts {
    FileFacts {
        path: format!("/watched/{relative}"),
        root: "/watched".to_string(),
        size,
        modified: now() - i128::from(age_days * SECONDS_PER_DAY) * NANOS,
    }
}

fn check(condition: &Condition, facts: &FileFacts) -> bool {
    condition.matches(facts, now(), &mut Patterns::new()).unwrap()
}

#[test]
fn extension_matches_regardless_of_case_and_leading_dot() {
    let file = facts("invoice.PDF", 10, 0);
    let with_dot = Condition::Extension { any_of: vec![".pdf".into()] };
    let without_dot = Condition::Extension { any_of: vec!["pdf".into()] };

    assert!(check(&with_dot, &file));
    assert!(check(&without_dot, &file));
}

#[test]
fn extension_does_not_match_a_file_without_one() {
    let condition = Condition::Extension { any_of: vec!["pdf".into()] };
    assert!(!check(&condition, &facts("README", 10, 0)));
}

#[test]
fn name_contains_is_case_insensitive_and_handles_unicode() {
    let condition = Condition::NameContains { text: "factura".into() };
    assert!(check(&condition, &facts("FACTURA-2026.pdf", 1, 0)));
    assert!(check(&condition, &facts("mi factura año.pdf", 1, 0)));
    assert!(!check(&condition, &facts("recibo.pdf", 1, 0)));
}

#[test]
fn glob_matches_the_file_name_only() {
    let condition = Condition::NameMatchesGlob { pattern: "Screenshot*.png".into() };
    assert!(check(&condition, &facts("Screenshot 2026-08-18.png", 1, 0)));
    assert!(check(&condition, &facts("sub/screenshot A.png", 1, 0)));
    assert!(!check(&condition, &facts("photo.png", 1, 0)));
}

#[test]
fn regex_is_case_sensitive_unlike_glob() {
    let condition = Condition::NameMatchesRegex { pattern: r"^IMG_\d{4}\.jpe?g$".into() };
    assert!(check(&condition, &facts("IMG_0421.jpg", 1, 0)));
    assert!(check(&condition, &facts("IMG_0421.jpeg", 1, 0)));
    assert!(!check(&condition, &facts("img_0421.jpg", 1, 0)));
}

#[test]
fn an_oversized_pattern_is_refused_instead_of_compiled() {
    let condition = Condition::NameMatchesRegex { pattern: "a".repeat(MAX_PATTERN_LENGTH + 1) };
    let outcome = condition.matches(&facts("x.txt", 1, 0), now(), &mut Patterns::new());
    assert!(matches!(outcome, Err(ConditionError::PatternTooLong)));
}

#[test]
fn an_invalid_regex_reports_an_error_rather_than_matching() {
    let condition = Condition::NameMatchesRegex { pattern: "(unclosed".into() };
    let outcome = condition.matches(&facts("x.txt", 1, 0), now(), &mut Patterns::new());
    assert!(matches!(outcome, Err(ConditionError::InvalidRegex)));
}

#[test]
fn size_bounds_are_strict() {
    let file = facts("a.bin", 1_000, 0);
    assert!(check(&Condition::LargerThan { bytes: 999 }, &file));
    assert!(!check(&Condition::LargerThan { bytes: 1_000 }, &file));
    assert!(check(&Condition::SmallerThan { bytes: 1_001 }, &file));
    assert!(!check(&Condition::SmallerThan { bytes: 1_000 }, &file));
}

#[test]
fn age_is_measured_in_whole_days() {
    let old = facts("a.txt", 1, 30);
    let fresh = facts("b.txt", 1, 1);
    assert!(check(&Condition::OlderThan { days: 30 }, &old));
    assert!(!check(&Condition::OlderThan { days: 31 }, &old));
    assert!(check(&Condition::NewerThan { days: 7 }, &fresh));
    assert!(!check(&Condition::NewerThan { days: 7 }, &old));
}

#[test]
fn a_file_modified_in_the_future_counts_as_brand_new() {
    let mut file = facts("a.txt", 1, 0);
    file.modified = now() + i128::from(SECONDS_PER_DAY * 5) * NANOS;
    assert!(check(&Condition::NewerThan { days: 1 }, &file));
}

#[test]
fn subfolder_matches_any_component_below_the_root() {
    let condition = Condition::InSubfolder { name: "Invoices".into() };
    assert!(check(&condition, &facts("Invoices/a.pdf", 1, 0)));
    assert!(check(&condition, &facts("2026/Invoices/a.pdf", 1, 0)));
    assert!(!check(&condition, &facts("a.pdf", 1, 0)));
    assert!(!check(&condition, &facts("Receipts/a.pdf", 1, 0)));
}

#[test]
fn a_partial_day_does_not_count_as_a_day() {
    let mut file = facts("a.txt", 1, 2);
    file.modified += NANOS;
    assert_eq!(file.age_in_days(now()), 1);
    assert!(!check(&Condition::OlderThan { days: 2 }, &file));
}

#[test]
fn condition_errors_describe_themselves() {
    assert_eq!(ConditionError::InvalidRegex.message(), "the regular expression could not be compiled");
    assert_eq!(ConditionError::InvalidGlob.message(), "the glob pattern could not be compiled");
    assert_eq!(ConditionError::PatternTooLong.message(), "the pattern is longer than the allowed limit");
}
