use gitsama::config::{Config, EventSettings};
use gitsama::events::EventKind;

#[test]
fn event_settings_can_be_changed() {
    let mut config = Config::default();
    config.set_event_enabled(EventKind::Rebase, false);
    assert!(!config.is_event_enabled(EventKind::Rebase));
}

#[test]
fn changing_one_event_leaves_the_others() {
    let mut settings = EventSettings::default();
    settings.set_enabled(EventKind::Merge, false);
    for event in EventKind::all() {
        assert_eq!(settings.is_enabled(event), event != EventKind::Merge);
    }
    settings.set_enabled(EventKind::Merge, true);
    assert!(settings.is_enabled(EventKind::Merge));
}

#[test]
fn default_configuration_is_valid() {
    let config = Config::default();
    assert!(config.validate().is_ok());
    assert!(config.enabled);
    assert_eq!(config.active_pack, "naruto");
    assert_eq!(config.volume, 80);
    assert_eq!(config.massive_push_threshold, 50);
    assert_eq!(config.queue_max_age_ms, 5_000);
}

#[test]
fn validation_reports_the_first_broken_rule() {
    let check = |change: fn(&mut Config)| {
        let mut config = Config::default();
        change(&mut config);
        config.validate().unwrap_err().display()
    };
    assert_eq!(
        check(|c| c.schema_version = 2),
        "invalid configuration: configuration schema 2 is newer than this GitSama build"
    );
    assert_eq!(
        check(|c| c.active_pack = "  ".to_owned()),
        "invalid configuration: active_pack cannot be empty"
    );
    assert_eq!(
        check(|c| c.volume = 101),
        "invalid configuration: volume must be between 0 and 100"
    );
    assert_eq!(
        check(|c| c.massive_push_threshold = 0),
        "invalid configuration: massive_push_threshold must be at least 1"
    );
    assert_eq!(
        check(|c| c.queue_max_age_ms = 0),
        "invalid configuration: queue_max_age_ms must be greater than 0"
    );
    assert_eq!(
        check(|c| {
            c.volume = 200;
            c.massive_push_threshold = 0;
        }),
        "invalid configuration: volume must be between 0 and 100"
    );
}
