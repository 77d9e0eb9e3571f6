use chrono::TimeZone;
use tidyfile::templates::{
    date_for, date_needed_exec, on_calendar, render, render_subfolder, CalendarDate, Substitutions, TemplateError,
    EARLIEST_CALENDAR_SECOND, LATEST_CALENDAR_SECOND, MAX_NAME_LENGTH, MAX_TEMPLATE_LENGTH,
};

fn values(name: &str) -> Substitutions {
    let moment = chrono::Local
        .with_ymd_and_hms(2026, 3, 7, 15, 30, 0)
        .single()
        .unwrap();
    let nanos = i128::from(moment.timestamp()) * 1_000_000_000;
    Substitutions { path: name.to_string(), modified: nanos, counter: 3 }
}

fn render_for(template: &str, name: &str) -> Result<String, TemplateError> {
    render(template, &values(name))
}

fn subfolder_for(template: &str, name: &str) -> Result<String, TemplateError> {
    render_subfolder(template, &values(name))
}

#[test]
fn placeholders_are_replaced_with_their_values() {
    assert_eq!(render_for("{date} {name}.{ext}", "invoice.pdf").unwrap(), "2026-03-07 invoice.pdf");
}

#[test]
fn date_parts_are_available_separately() {
    assert_eq!(render_for("{year}-{month}/{day}", "a.txt").unwrap_err(), TemplateError::ForbiddenCharacter);
    assert_eq!(render_for("{year}_{month}_{day}", "a.txt").unwrap(), "2026_03_07");
}

#[test]
fn the_counter_is_substituted() {
    assert_eq!(render_for("scan-{counter}.{ext}", "x.png").unwrap(), "scan-3.png");
}

#[test]
fn text_without_placeholders_passes_through() {
    assert_eq!(render_for("fixed name.txt", "a.pdf").unwrap(), "fixed name.txt");
}

#[test]
fn a_file_without_extension_yields_an_empty_ext() {
    assert_eq!(render_for("{name}", "README").unwrap(), "README");
}

#[test]
fn unicode_names_survive_intact() {
    assert_eq!(render_for("{name}.{ext}", "informe año señor.pdf").unwrap(), "informe año señor.pdf");
}

#[test]
fn an_unknown_placeholder_is_refused() {
    assert_eq!(render_for("{nombre}.pdf", "a.pdf").unwrap_err(), TemplateError::UnknownPlaceholder);
}

#[test]
fn an_unclosed_placeholder_is_refused() {
    assert_eq!(render_for("{name.pdf", "a.pdf").unwrap_err(), TemplateError::UnknownPlaceholder);
}

#[test]
fn traversal_is_refused_before_anything_is_rendered() {
    for template in ["../{name}", "..\\{name}", "{name}/../../etc/passwd"] {
        assert_eq!(render_for(template, "a.pdf").unwrap_err(), TemplateError::PathTraversal, "template {template} was not refused");
    }
}

#[test]
fn separators_are_refused_so_a_template_cannot_build_a_path() {
    for template in ["folder/{name}", "folder\\{name}", "C:{name}"] {
        assert_eq!(render_for(template, "a.pdf").unwrap_err(), TemplateError::ForbiddenCharacter, "template {template} was not refused");
    }
}

#[test]
fn characters_windows_rejects_are_refused() {
    for template in ["a*b", "a?b", "a<b", "a>b", "a|b", "a\"b"] {
        assert_eq!(render_for(template, "a.pdf").unwrap_err(), TemplateError::ForbiddenCharacter, "template {template} was not refused");
    }
}

#[test]
fn a_substituted_value_can_still_be_a_reserved_name() {
    assert_eq!(render_for("{name}", "CON.txt").unwrap_err(), TemplateError::ReservedName);
}

#[test]
fn a_substituted_value_cannot_become_a_relative_component() {
    for name in ["..", "."] {
        assert_eq!(render_for("{name}", name).unwrap_err(), TemplateError::Unusable, "name {name} was not refused");
    }
}

#[test]
fn a_directory_component_in_the_source_never_reaches_the_result() {
    assert_eq!(render_for("{name}", "../../escape").unwrap(), "escape");
}

#[test]
fn windows_reserved_names_are_refused() {
    for template in ["CON", "nul", "COM1.txt", "LPT9.log", "Aux"] {
        assert_eq!(render_for(template, "a.pdf").unwrap_err(), TemplateError::ReservedName, "template {template} was not refused");
    }
}

#[test]
fn a_name_windows_would_trim_is_refused() {
    for template in ["name.", "name ", " name", "..."] {
        let outcome = render_for(template, "a.pdf").unwrap_err();
        assert!(
            matches!(outcome, TemplateError::Unusable | TemplateError::PathTraversal),
            "template {template} gave {outcome:?}"
        );
    }
}

#[test]
fn an_empty_result_is_refused() {
    assert_eq!(render_for("", "a.pdf").unwrap_err(), TemplateError::Unusable);
    assert_eq!(render_for("{ext}", "README").unwrap_err(), TemplateError::Unusable);
}

#[test]
fn an_oversized_template_is_refused_before_rendering() {
    let template = "a".repeat(MAX_TEMPLATE_LENGTH + 1);
    assert_eq!(render_for(&template, "a.pdf").unwrap_err(), TemplateError::TooLong);
}

#[test]
fn a_result_that_grows_past_the_name_limit_is_refused() {
    let long = "a".repeat(MAX_NAME_LENGTH);
    let template = format!("{long}{{name}}");
    assert_eq!(render_for(&template, "a.pdf").unwrap_err(), TemplateError::Unusable);
}

#[test]
fn a_subfolder_template_builds_a_relative_path() {
    assert_eq!(subfolder_for("{year}/{month}", "a.pdf").unwrap(), "2026/03");
}

#[test]
fn a_subfolder_can_group_by_extension() {
    assert_eq!(subfolder_for("by type/{ext}", "photo.jpg").unwrap(), "by type/jpg");
}

#[test]
fn a_subfolder_accepts_backslashes_as_separators() {
    assert_eq!(subfolder_for(r"{year}\{month}", "a.pdf").unwrap(), "2026/03");
}

#[test]
fn a_subfolder_cannot_be_absolute() {
    for template in ["/{year}", r"\{year}", "C:/{year}"] {
        assert!(subfolder_for(template, "a.pdf").is_err(), "template {template} was not refused");
    }
}

#[test]
fn a_subfolder_cannot_climb_out() {
    assert_eq!(subfolder_for("{year}/../..", "a.pdf").unwrap_err(), TemplateError::PathTraversal);
}

#[test]
fn a_subfolder_rejects_empty_components() {
    assert_eq!(subfolder_for("{year}//{month}", "a.pdf").unwrap_err(), TemplateError::Unusable);
    assert_eq!(subfolder_for("", "a.pdf").unwrap_err(), TemplateError::Unusable);
}

#[test]
fn a_subfolder_component_cannot_be_a_reserved_name() {
    assert_eq!(subfolder_for("archive/{name}", "NUL.txt").unwrap_err(), TemplateError::ReservedName);
}

#[test]
fn the_rendered_date_follows_the_local_calendar_of_the_modification_time() {
    assert_eq!(render_for("{date}", "x.txt").unwrap(), "2026-03-07");
    assert_eq!(render_for("{year}", "x.txt").unwrap(), "2026");
}

#[test]
fn template_errors_describe_themselves() {
    assert_eq!(TemplateError::TooLong.message(), "the template is longer than the allowed limit");
    assert_eq!(TemplateError::Unusable.message(), "the result is empty or would be trimmed away");
}

#[test]
fn a_template_without_a_date_renders_for_any_modification_time() {
    let far = Substitutions { path: "report.pdf".into(), modified: 9_000_000_000_000 * 1_000_000_000, counter: 4 };
    assert_eq!(render("{name}-{counter}.{ext}", &far).unwrap(), "report-4.pdf");
    assert_eq!(render(&"a".repeat(MAX_TEMPLATE_LENGTH + 1), &far).unwrap_err(), TemplateError::TooLong);
    assert_eq!(render("../{date}", &far).unwrap_err(), TemplateError::PathTraversal);
    assert_eq!(render_subfolder("by type/{ext}", &far).unwrap(), "by type/pdf");
}

#[test]
fn only_date_placeholders_need_the_calendar() {
    let needs = |t: &str| date_needed_exec(&t.chars().collect());
    assert!(needs("{date} {name}"));
    assert!(needs("x-{day}"));
    assert!(!needs("{name}.{ext}"));
    assert!(!needs("../{year}"));
    assert!(on_calendar(0));
    assert!(!on_calendar(9_000_000_000_000 * 1_000_000_000));
    assert_eq!(date_for(9_000_000_000_000 * 1_000_000_000), CalendarDate { year: 1970, month: 1, day: 1 });
    let epoch = date_for(0);
    assert!(epoch == CalendarDate { year: 1970, month: 1, day: 1 } || epoch == CalendarDate { year: 1969, month: 12, day: 31 });
}

#[test]
fn the_calendar_reaches_a_day_short_of_the_ends_of_chrono() {
    let earliest = EARLIEST_CALENDAR_SECOND * 1_000_000_000;
    let latest = LATEST_CALENDAR_SECOND * 1_000_000_000 + 999_999_999;
    assert_eq!(EARLIEST_CALENDAR_SECOND, -8_334_601_142_400);
    assert_eq!(LATEST_CALENDAR_SECOND, 8_210_266_790_399);
    assert!(on_calendar(earliest));
    assert!(!on_calendar(earliest - 1));
    assert!(on_calendar(latest));
    assert!(!on_calendar(latest + 1));
    assert_eq!(date_for(earliest).year, -262143);
    assert_eq!(date_for(latest).year, 262142);
    assert!(on_calendar(8_200_000_000_000 * 1_000_000_000));
}

#[test]
fn a_date_far_in_the_future_still_renders() {
    let far = Substitutions { path: "report.pdf".into(), modified: 8_200_000_000_000 * 1_000_000_000, counter: 1 };
    let year = date_for(far.modified).year;
    assert!(year > 200_000);
    assert_eq!(render("{year}", &far).unwrap(), format!("+{year}"));
    assert_eq!(render_subfolder("{year}/{ext}", &far).unwrap(), format!("+{year}/pdf"));
}
