use tidyfile::executor::Collision;
use tidyfile::ipc::{activity_limit, check_pattern, current_collision, nothing_in_particular, IpcError, MAX_ACTIVITY};
use tidyfile::journal::JournalError;
use tidyfile::paths::PathError;
use tidyfile::rules::condition::Condition;
use tidyfile::rules::evaluator::EvaluationError;
use tidyfile::rules::patterns::Patterns;
use tidyfile::service::ServiceError;
use tidyfile::settings::Settings;
use tidyfile::store::StoreError;

#[test]
fn a_forbidden_folder_maps_to_a_stable_code() {
    let error = IpcError::from_service(&ServiceError::Folder(PathError::Forbidden));

    assert_eq!(error.code, "forbiddenFolder");
}

#[test]
fn every_folder_problem_has_its_own_code() {
    let codes = [PathError::Forbidden, PathError::NotAFolder, PathError::Unresolvable]
        .map(|problem| IpcError::from_service(&ServiceError::Folder(problem)).code);

    let mut unique = codes.to_vec();
    unique.sort();
    unique.dedup();
    assert_eq!(unique.len(), codes.len(), "codes collide: {codes:?}");
}

#[test]
fn messages_crossing_the_boundary_carry_no_paths() {
    let error = IpcError::from_service(&ServiceError::Folder(PathError::Unresolvable));

    assert!(!error.message.contains('/'));
    assert!(!error.message.contains('\\'));
}

#[test]
fn a_valid_glob_passes_the_check() {
    let condition = Condition::NameMatchesGlob { pattern: "Screenshot*.png".into() };
    assert!(condition.matches(&nothing_in_particular(), 0, &mut Patterns::new()).is_ok());
}

#[test]
fn an_invalid_regex_is_caught_by_the_same_compiler_that_runs_it() {
    let condition = Condition::NameMatchesRegex { pattern: "(unclosed".into() };
    assert!(condition.matches(&nothing_in_particular(), 0, &mut Patterns::new()).is_err());
}

#[test]
fn an_oversized_pattern_is_caught_before_it_is_saved() {
    let condition = Condition::NameMatchesRegex { pattern: "a".repeat(1_000) };
    assert!(condition.matches(&nothing_in_particular(), 0, &mut Patterns::new()).is_err());
}

#[test]
fn checking_a_pattern_reports_an_invalid_one_with_its_code() {
    let mut cache = Patterns::new();
    assert_eq!(check_pattern("glob", "*.pdf".into(), &mut cache), Ok(()));
    let error = check_pattern("regex", "(unclosed".into(), &mut cache).unwrap_err();
    assert_eq!(error.code, "invalidPattern");
    assert_eq!(error.message, "the regular expression could not be compiled");
    let long = check_pattern("glob", "a".repeat(600), &mut cache).unwrap_err();
    assert_eq!(long.message, "the pattern is longer than the allowed limit");
}

#[test]
fn every_organizer_error_has_a_code_and_a_message() {
    let cases = [
        (ServiceError::Rules(EvaluationError::NamelessFile), "invalidRule", "the rules could not be evaluated"),
        (ServiceError::Journal(JournalError::UnknownKind), "historyUnavailable", "the history could not be reached"),
        (ServiceError::Executor(JournalError::OutOfOrder), "executionFailed", "the operation could not be carried out"),
        (ServiceError::Watcher, "watchFailed", "the folder could not be watched"),
        (ServiceError::Folder(PathError::NotAFolder), "notAFolder", "the folder cannot be used"),
    ];
    for (error, code, message) in cases {
        let crossing = IpcError::from_service(&error);
        assert_eq!((crossing.code.as_str(), crossing.message.as_str()), (code, message));
    }
    let store = IpcError::from_store(&StoreError::Malformed);
    assert_eq!((store.code.as_str(), store.message.as_str()), ("rulesMalformed", "the rule file is not valid Tidyfile JSON"));
    assert_eq!(IpcError::from_store(&StoreError::Unreachable).code, "rulesUnreachable");
    assert_eq!(IpcError::unavailable().code, "unavailable");
}

#[test]
fn the_collision_policy_falls_back_to_the_default() {
    let chosen = Settings { folder: None, watching: false, on_collision: Collision::Skip };
    assert_eq!(current_collision(&Ok(chosen)), Collision::Skip);
    assert_eq!(current_collision(&Err(StoreError::Malformed)), Collision::Suffix);
}

#[test]
fn the_activity_limit_is_kept_within_bounds() {
    assert_eq!(activity_limit(0), 1);
    assert_eq!(activity_limit(25), 25);
    assert_eq!(activity_limit(10_000), MAX_ACTIVITY);
}
