use tidyfile::executor::Collision;
use tidyfile::settings::Settings;

#[test]
fn defaults_are_safe_for_a_first_launch() {
    let fresh = Settings::default();

    assert_eq!(fresh.folder, None);
    assert!(!fresh.watching, "watching must not start on by itself");
    assert_eq!(fresh.on_collision, Collision::Suffix);
}
