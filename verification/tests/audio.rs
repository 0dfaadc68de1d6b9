use gitsama::platform::Platform;
use gitsama::audio::{lock_step, resolve_enabled, test_mode_value, LockAction, LockAttempt};
use gitsama::config::Config;
use gitsama::events::EventKind;
use gitsama::packs::{Pack, PackManifest};

fn push_only_pack() -> Pack {
    Pack {
        root: ".".to_owned(),
        manifest: PackManifest {
            schema_version: 1,
            id: "starter".to_owned(),
            name: "Starter".to_owned(),
            author: "GitSama".to_owned(),
            version: "1.0.0".to_owned(),
            description: "test".to_owned(),
            license: "MIT".to_owned(),
            events: vec![("push".to_owned(), vec!["audio/push.wav".to_owned()])],
        },
    }
}

#[test]
fn test_mode_requires_explicit_value() {
    assert!(test_mode_value(Some("1")));
    assert!(!test_mode_value(Some("true")));
    assert!(!test_mode_value(None));
}

#[test]
fn disabled_massive_push_uses_enabled_push_clip() {
    let config = Config::default();
    let mut config = config;
    config.events.massive_push = false;
    let pack = push_only_pack();
    assert_eq!(
        resolve_enabled(&config, &pack, EventKind::MassivePush, Platform::Unix).map(|(event, _)| event),
        Some(EventKind::Push)
    );

    config.events.push = false;
    assert!(resolve_enabled(&config, &pack, EventKind::MassivePush, Platform::Unix).is_none());
}

#[test]
fn enabled_massive_push_without_its_own_clip_plays_the_push_clip() {
    let config = Config::default();
    let pack = push_only_pack();
    let (event, path) = resolve_enabled(&config, &pack, EventKind::MassivePush, Platform::Unix).expect("push clip");
    assert_eq!(event, EventKind::Push);
    assert_eq!(path, "./audio/push.wav");
}

#[test]
fn disabled_event_is_silent() {
    let mut config = Config::default();
    config.set_event_enabled(EventKind::Push, false);
    let pack = push_only_pack();
    assert!(resolve_enabled(&config, &pack, EventKind::Push, Platform::Unix).is_none());
    assert!(resolve_enabled(&config, &pack, EventKind::Commit, Platform::Unix).is_none());
}

#[test]
fn playback_errors_are_logged_with_their_description() {
    let error = gitsama::error::Error::Audio("no device".to_owned());
    assert_eq!(
        gitsama::audio::log_playback_error(&error),
        "playback failed: audio playback failed: no device"
    );
}

#[test]
fn playback_lock_steps() {
    assert_eq!(lock_step(LockAttempt::Created, 5_000), LockAction::Hold);
    assert_eq!(lock_step(LockAttempt::Failed, 5_000), LockAction::Fail);
    let busy = |age: Option<u128>, waited: u128| LockAttempt::Busy {
        heartbeat_age_ns: age,
        waited_ns: waited,
    };
    let ms = 1_000_000u128;
    assert_eq!(lock_step(busy(Some(5_000 * ms + 1), 0), 5_000), LockAction::ClearStale);
    assert_eq!(lock_step(busy(Some(5_000 * ms), 0), 5_000), LockAction::Wait);
    assert_eq!(lock_step(busy(None, 5_000 * ms), 5_000), LockAction::GiveUp);
    assert_eq!(lock_step(busy(Some(10), 5_000 * ms - 1), 5_000), LockAction::Wait);
    assert_eq!(lock_step(busy(Some(6_000 * ms), 9_000 * ms), 5_000), LockAction::ClearStale);
}
