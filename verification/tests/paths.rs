use tidyfile::paths::{accept_watched_folder, is_forbidden, is_forbidden_on, is_within, FolderFacts, PathError, Platform};

fn system_examples() -> [&'static str; 4] {
    ["/usr", "/usr/local/bin", "/etc/systemd", "/var/log"]
}

fn root_examples() -> [&'static str; 2] {
    ["/", "//"]
}

fn ordinary_examples() -> [&'static str; 3] {
    ["/home/someone/Downloads", "/mnt/archive/2026", "/home/someone/Documents/Invoices"]
}

#[test]
fn system_folders_are_refused() {
    for candidate in system_examples() {
        assert!(is_forbidden(candidate, None), "{candidate} should be refused");
    }
}

#[test]
fn filesystem_roots_are_refused() {
    for candidate in root_examples() {
        assert!(is_forbidden(candidate, None), "{candidate} should be refused");
    }
}

#[test]
fn ordinary_user_folders_are_accepted() {
    for candidate in ordinary_examples() {
        assert!(!is_forbidden(candidate, None), "{candidate} should be accepted");
    }
}

#[test]
fn the_whole_home_folder_is_refused_but_its_children_are_not() {
    let home = "/home/someone";

    assert!(is_forbidden(home, Some(home)));
    assert!(!is_forbidden("/home/someone/Downloads", Some(home)));
}

#[test]
fn the_forbidden_name_must_be_the_first_component() {
    let nested = format!("{}/{}", ordinary_examples()[0], "usr");

    assert!(!is_forbidden(&nested, None), "a folder merely named like a system one is fine: {nested:?}");
}

#[test]
fn a_real_folder_resolves_to_an_absolute_path() {
    let facts = FolderFacts { resolved: Some("/home/someone/Downloads".to_string()), is_folder: true, home: None, platform: Platform::Unix };

    let accepted = accept_watched_folder(&facts).unwrap();

    assert!(accepted.starts_with('/'));
    assert_eq!(accepted, "/home/someone/Downloads");
}

#[test]
fn a_file_is_not_a_watchable_folder() {
    let facts = FolderFacts { resolved: Some("/home/someone/a.txt".to_string()), is_folder: false, home: None, platform: Platform::Unix };

    assert_eq!(accept_watched_folder(&facts).unwrap_err(), PathError::NotAFolder);
}

#[test]
fn a_missing_folder_is_refused() {
    let facts = FolderFacts { resolved: None, is_folder: false, home: None, platform: Platform::Unix };

    assert_eq!(accept_watched_folder(&facts).unwrap_err(), PathError::Unresolvable);
}

#[test]
fn a_forbidden_resolved_folder_is_refused() {
    let facts = FolderFacts { resolved: Some("/etc".to_string()), is_folder: true, home: None, platform: Platform::Unix };
    assert_eq!(accept_watched_folder(&facts).unwrap_err(), PathError::Forbidden);
    let home = FolderFacts { resolved: Some("/home/someone".to_string()), is_folder: true, home: Some("/home/someone".to_string()), platform: Platform::Unix };
    assert_eq!(accept_watched_folder(&home).unwrap_err(), PathError::Forbidden);
}

#[test]
fn containment_follows_the_resolved_root() {
    let root = ordinary_examples()[0];

    assert!(is_within(root, &format!("{root}/sub/a.pdf")));
    assert!(!is_within(root, ordinary_examples()[1]));
}

#[test]
fn forbidden_names_are_compared_without_case_and_after_parent_steps() {
    assert!(is_forbidden("/USR/share", None));
    assert!(!is_forbidden("/usrlocal", None));
    assert!(!is_within("/home/someone/Down", "/home/someone/Downloads/a.pdf"));
}

#[test]
fn path_errors_describe_themselves() {
    assert_eq!(PathError::Forbidden.message(), "this folder cannot be watched");
    assert_eq!(PathError::Unresolvable.message(), "the folder could not be resolved");
    assert_eq!(PathError::NotAFolder.message(), "the path is not a folder");
}

#[test]
fn windows_system_folders_and_roots_are_refused() {
    for candidate in [r"C:\Windows", r"C:\Windows\System32", r"C:\Program Files\App", r"C:\ProgramData\Thing"] {
        assert!(is_forbidden_on(Platform::Windows, candidate, None), "{candidate} should be refused");
    }
    for candidate in [r"C:\", r"D:\", r"\\?\C:\", r"\\server\share"] {
        assert!(is_forbidden_on(Platform::Windows, candidate, None), "{candidate} should be refused");
    }
    assert!(is_forbidden_on(Platform::Windows, r"\\?\C:\Windows\System32", None));
    assert!(is_forbidden_on(Platform::Windows, r"\\?\UNC\server\share\$Recycle.Bin", None));
    assert!(!is_forbidden_on(Platform::Unix, r"C:\Windows", None));
}

#[test]
fn windows_user_folders_are_accepted_but_not_the_whole_home() {
    let home = r"\\?\C:\Users\someone";
    assert!(!is_forbidden_on(Platform::Windows, r"C:\Users\someone\Downloads", None));
    assert!(!is_forbidden_on(Platform::Windows, r"\\?\D:\Archive\2026", None));
    assert!(is_forbidden_on(Platform::Windows, home, Some(home)));
    assert!(!is_forbidden_on(Platform::Windows, r"\\?\C:\Users\someone\Downloads", Some(home)));
    let facts = FolderFacts { resolved: Some(r"C:\Windows".to_string()), is_folder: true, home: None, platform: Platform::Windows };
    assert_eq!(accept_watched_folder(&facts).unwrap_err(), PathError::Forbidden);
}
