use chrono::TimeZone;
use tidyfile::journal::Operation;
use tidyfile::rules::condition::{Condition, FileFacts};
use tidyfile::rules::evaluator::{deciding_rule_reads_date_exec, plan, EvaluationError, PlanContext};
use tidyfile::rules::patterns::Patterns;
use tidyfile::rules::{Action, Combinator, Rule};
use tidyfile::templates::TemplateError;

fn now() -> i128 {
    let moment = chrono::Local.with_ymd_and_hms(2026, 3, 7, 15, 30, 0).single().unwrap();
    i128::from(moment.timestamp()) * 1_000_000_000
}

fn context() -> PlanContext {
    PlanContext { now: now(), counter: 3 }
}

fn facts(relative: &str) -> FileFacts {
    FileFacts { path: format!("/watched/{relative}"), root: "/watched".to_string(), size: 10, modified: now() }
}

fn move_action(folder: &str) -> Action {
    Action::MoveTo { folder: folder.to_string(), subfolder: None, rename: None }
}

fn rule(name: &str, combinator: Combinator, conditions: Vec<Condition>) -> Rule {
    Rule {
        id: format!("id-{name}"),
        name: name.into(),
        enabled: true,
        combinator,
        conditions,
        actions: vec![move_action(&format!("/out/{name}"))],
    }
}

fn is_pdf() -> Condition {
    Condition::Extension { any_of: vec!["pdf".into()] }
}

fn named_invoice() -> Condition {
    Condition::NameContains { text: "invoice".into() }
}

fn run(rules: Vec<Rule>, file: &FileFacts) -> Result<Vec<Operation>, EvaluationError> {
    plan(&rules, file, context(), &mut Patterns::new())
}

#[test]
fn a_matching_rule_produces_its_operations() {
    let rules = vec![rule("invoices", Combinator::All, vec![is_pdf(), named_invoice()])];

    let operations = run(rules, &facts("invoice-2026.pdf")).unwrap();

    assert_eq!(
        operations,
        [Operation::Move { from: "/watched/invoice-2026.pdf".to_string(), to: "/out/invoices/invoice-2026.pdf".to_string() }]
    );
}

#[test]
fn all_requires_every_condition() {
    let rules = vec![rule("invoices", Combinator::All, vec![is_pdf(), named_invoice()])];

    assert!(run(rules.clone(), &facts("invoice.txt")).unwrap().is_empty());
    assert!(run(rules, &facts("receipt.pdf")).unwrap().is_empty());
}

#[test]
fn any_requires_only_one_condition() {
    let rules = vec![rule("loose", Combinator::Any, vec![is_pdf(), named_invoice()])];

    assert_eq!(run(rules.clone(), &facts("invoice.txt")).unwrap().len(), 1);
    assert_eq!(run(rules, &facts("receipt.pdf")).unwrap().len(), 1);
}

#[test]
fn a_rule_without_conditions_never_matches() {
    let rules = vec![rule("empty", Combinator::All, Vec::new())];

    let operations = run(rules, &facts("anything.pdf")).unwrap();

    assert!(operations.is_empty(), "an empty condition list must not match every file");
}

#[test]
fn a_disabled_rule_is_ignored() {
    let mut disabled = rule("invoices", Combinator::All, vec![is_pdf()]);
    disabled.enabled = false;

    let operations = run(vec![disabled], &facts("invoice.pdf")).unwrap();

    assert!(operations.is_empty());
}

#[test]
fn contradictory_rules_resolve_to_the_first_match() {
    let rules = vec![rule("first", Combinator::All, vec![is_pdf()]), rule("second", Combinator::All, vec![is_pdf()])];

    let operations = run(rules, &facts("a.pdf")).unwrap();

    assert_eq!(operations.len(), 1);
    let Operation::Move { to, .. } = &operations[0] else {
        panic!("expected a move");
    };
    assert!(to.starts_with("/out/first"), "the later rule won: {to:?}");
}

#[test]
fn a_rule_can_carry_several_actions() {
    let mut multi = rule("both", Combinator::All, vec![is_pdf()]);
    multi.actions.push(Action::Trash);

    let operations = run(vec![multi], &facts("a.pdf")).unwrap();

    assert_eq!(operations.len(), 2);
    assert!(matches!(operations[1], Operation::Trash { .. }));
}

#[test]
fn no_rules_means_no_operations() {
    assert!(run(Vec::new(), &facts("a.pdf")).unwrap().is_empty());
}

#[test]
fn an_invalid_pattern_names_the_rule_that_carries_it() {
    let rules = vec![rule("broken", Combinator::All, vec![Condition::NameMatchesRegex { pattern: "(unclosed".into() }])];

    let error = run(rules, &facts("a.pdf")).unwrap_err();

    assert!(matches!(error, EvaluationError::Condition { ref rule, .. } if rule == "broken"));
}

#[test]
fn copy_to_produces_a_copy_operation() {
    let mut copying = rule("backup", Combinator::All, vec![is_pdf()]);
    copying.actions = vec![Action::CopyTo { folder: "/backup".to_string(), subfolder: None, rename: None }];

    let operations = run(vec![copying], &facts("a.pdf")).unwrap();

    assert_eq!(operations, [Operation::Copy { from: "/watched/a.pdf".to_string(), to: "/backup/a.pdf".to_string() }]);
}

#[test]
fn moving_can_rename_at_the_same_time() {
    let mut renaming = rule("dated", Combinator::All, vec![is_pdf()]);
    renaming.actions = vec![Action::MoveTo { folder: "/out".to_string(), subfolder: None, rename: Some("{date} {name}.{ext}".into()) }];

    let operations = run(vec![renaming], &facts("invoice.pdf")).unwrap();

    let Operation::Move { to, .. } = &operations[0] else {
        panic!("expected a move");
    };
    assert_eq!(to, "/out/2026-03-07 invoice.pdf");
}

#[test]
fn rename_to_keeps_the_file_in_its_folder() {
    let mut renaming = rule("counted", Combinator::All, vec![is_pdf()]);
    renaming.actions = vec![Action::RenameTo { template: "scan-{counter}.{ext}".into() }];

    let operations = run(vec![renaming], &facts("sub/a.pdf")).unwrap();

    let Operation::Move { to, .. } = &operations[0] else {
        panic!("expected a move");
    };
    assert_eq!(to, "/watched/sub/scan-3.pdf");
}

#[test]
fn a_template_that_escapes_the_folder_names_the_rule() {
    let mut hostile = rule("escaping", Combinator::All, vec![is_pdf()]);
    hostile.actions = vec![Action::RenameTo { template: "../{name}".into() }];

    let error = run(vec![hostile], &facts("a.pdf")).unwrap_err();

    assert!(matches!(
        error,
        EvaluationError::Template { ref rule, source: TemplateError::PathTraversal } if rule == "escaping"
    ));
}

#[test]
fn a_subfolder_groups_moved_files() {
    let mut grouped = rule("by-year", Combinator::All, vec![is_pdf()]);
    grouped.actions = vec![Action::MoveTo { folder: "/out".to_string(), subfolder: Some("{year}/{ext}".into()), rename: None }];

    let operations = run(vec![grouped], &facts("a.pdf")).unwrap();

    assert_eq!(operations, [Operation::Move { from: "/watched/a.pdf".to_string(), to: "/out/2026/pdf/a.pdf".to_string() }]);
}

#[test]
fn a_subfolder_that_climbs_out_names_the_rule() {
    let mut hostile = rule("climbing", Combinator::All, vec![is_pdf()]);
    hostile.actions = vec![Action::CopyTo { folder: "/out".to_string(), subfolder: Some("{year}/..".into()), rename: None }];

    let error = run(vec![hostile], &facts("a.pdf")).unwrap_err();

    assert!(matches!(
        error,
        EvaluationError::Template { ref rule, source: TemplateError::PathTraversal } if rule == "climbing"
    ));
}

#[test]
fn evaluation_errors_describe_themselves() {
    assert_eq!(EvaluationError::NamelessFile.message(), "the file has no usable name");
    let named = EvaluationError::Template { rule: "dated".into(), source: TemplateError::TooLong };
    assert_eq!(named.message(), "a rename template of rule 'dated' could not be applied");
}

#[test]
fn rules_that_cannot_select_play_no_part() {
    let mut off = rule("off", Combinator::All, vec![is_pdf()]);
    off.enabled = false;
    let empty = rule("empty", Combinator::All, Vec::new());
    let used = rule("used", Combinator::All, vec![is_pdf()]);

    let with_all = run(vec![off, empty, used.clone()], &facts("a.pdf")).unwrap();
    let active_only = run(vec![used], &facts("a.pdf")).unwrap();

    assert_eq!(with_all, active_only);
}

#[test]
fn a_file_far_off_the_calendar_is_planned_when_no_template_reads_the_date() {
    let mut far = facts("a.pdf");
    far.modified = 9_000_000_000_000 * 1_000_000_000;
    let rules = vec![rule("plain", Combinator::All, vec![is_pdf()])];
    assert!(!deciding_rule_reads_date_exec(&rules, &far, now(), &mut Patterns::new()));

    let operations = run(rules, &far).unwrap();

    assert_eq!(operations, [Operation::Move { from: "/watched/a.pdf".to_string(), to: "/out/plain/a.pdf".to_string() }]);

    let mut dated = rule("dated", Combinator::All, vec![is_pdf()]);
    dated.actions = vec![Action::MoveTo { folder: "/out".to_string(), subfolder: Some("{year}".into()), rename: None }];
    assert!(deciding_rule_reads_date_exec(&vec![dated], &far, now(), &mut Patterns::new()));
}

#[test]
fn only_the_deciding_rule_decides_whether_the_date_is_read() {
    let mut dated = rule("dated pdf", Combinator::All, vec![is_pdf()]);
    dated.actions = vec![Action::RenameTo { template: "{date}.pdf".into() }];
    let mut far_text = facts("a.txt");
    far_text.modified = 9_000_000_000_000 * 1_000_000_000;
    let rules = vec![dated.clone()];

    assert!(!deciding_rule_reads_date_exec(&rules, &far_text, now(), &mut Patterns::new()));
    assert_eq!(run(rules.clone(), &far_text).unwrap(), Vec::<Operation>::new());

    let mut disabled = dated.clone();
    disabled.enabled = false;
    let plain = rule("plain", Combinator::All, vec![is_pdf()]);
    let mut far_pdf = facts("a.pdf");
    far_pdf.modified = far_text.modified;
    let shadowed = vec![disabled, plain, dated.clone()];
    assert!(!deciding_rule_reads_date_exec(&shadowed, &far_pdf, now(), &mut Patterns::new()));
    assert_eq!(
        run(shadowed, &far_pdf).unwrap(),
        [Operation::Move { from: "/watched/a.pdf".to_string(), to: "/out/plain/a.pdf".to_string() }]
    );
    assert!(deciding_rule_reads_date_exec(&rules, &far_pdf, now(), &mut Patterns::new()));
}
