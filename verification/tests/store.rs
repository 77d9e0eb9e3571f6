use tidyfile::store::{set_aside_path, staging_path, StoreError};

#[test]
fn staging_and_rescue_files_sit_beside_the_original() {
    assert_eq!(staging_path("/data/rules.json"), "/data/rules.json.writing");
    assert_eq!(set_aside_path("/data/rules.json"), "/data/rules.json.broken");
    assert_eq!(StoreError::Unreachable.message(), "the rule file could not be read or written");
}
