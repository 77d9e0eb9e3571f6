use tidyfile::watcher::{is_temporary, settled_paths};

#[test]
fn download_temporaries_are_ignored() {
    for name in ["movie.crdownload", "archive.zip.part", "notes.TMP", "setup.download", "~$budget.xlsx", ".~lock.report.odt#"] {
        assert!(is_temporary(name), "should ignore {name}");
    }
}

#[test]
fn real_files_are_not_ignored() {
    for name in ["invoice.pdf", "photo.jpeg", "notes", "archive.tar.gz"] {
        assert!(!is_temporary(name), "should accept {name}");
    }
}

#[test]
fn extension_match_is_case_insensitive() {
    assert!(is_temporary("a.CRDOWNLOAD"));
    assert!(is_temporary("b.Part"));
}

#[test]
fn unicode_and_hostile_names_are_not_temporary() {
    for name in ["informe año.pdf", "\u{202e}gnp.exe", "  leading space.txt"] {
        assert!(!is_temporary(name), "should accept {name}");
    }
}

#[test]
fn temporaries_are_recognised_inside_folders_too() {
    assert!(is_temporary("/home/someone/Downloads/movie.crdownload"));
    assert!(is_temporary("/home/someone/.goutputstream-XYZ"));
    assert!(!is_temporary("/home/someone/tmp/report.pdf"));
}

#[test]
fn a_settled_burst_reports_each_real_file_once_in_order() {
    let changed: Vec<String> = ["/w/invoice.pdf", "/w/download.crdownload", "/w/a.txt", "/w/invoice.pdf", "/w/~$lock.docx"]
        .iter()
        .map(|path| path.to_string())
        .collect();

    assert_eq!(settled_paths(&changed), ["/w/a.txt", "/w/invoice.pdf"]);
}

#[test]
fn only_the_last_component_decides() {
    for name in ["movie.crdownload", "~$budget.xlsx", "invoice.pdf"] {
        assert_eq!(is_temporary(&format!("/home/someone/tmp.part/{name}")), is_temporary(name), "{name}");
    }
}
