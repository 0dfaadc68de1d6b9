//! Which sound plays for an event.
//!
//! Decoding and playing audio is the caller's part.
use vstd::prelude::*;

use crate::config::Config;
use crate::error::{error_text, Error};
use crate::events::EventKind;
use crate::packs::{event_paths, events_view, playable, EventsView, Pack};
use crate::paths::AppPaths;
use crate::platform::Platform;
use crate::text::{append_str, owned, str_eq};

verus! {

/// What a dispatched event carries besides its kind.
#[derive(Clone, Debug, Default)]
pub struct DispatchDetails {
    pub branch: Option<String>,
    pub commit_count: Option<u64>,
}

/// The event that plays for `requested` under the settings, and the files
/// it may play; `None` when the settings keep it silent. A massive push with
/// massive push disabled, or with no file of its own, plays as a push when
/// push is enabled.
pub open spec fn enabled_choice(
    c: Config,
    root: Seq<char>,
    events: EventsView,
    requested: EventKind,
    platform: Platform,
) -> Option<(EventKind, Seq<Seq<char>>)> {
    if requested == EventKind::MassivePush {
        if c.events.get(EventKind::MassivePush) && event_paths(
            root,
            events,
            EventKind::MassivePush,
            platform,
        ).len() > 0 {
            Some(playable(root, events, EventKind::MassivePush, platform))
        } else if c.events.get(EventKind::Push) {
            Some(playable(root, events, EventKind::Push, platform))
        } else {
            None
        }
    } else if c.events.get(requested) {
        Some(playable(root, events, requested, platform))
    } else {
        None
    }
}

/// The event and file that play for `requested`, the file chosen at random
/// among the candidates.
pub fn resolve_enabled(
    config: &Config,
    pack: &Pack,
    requested: EventKind,
    platform: Platform,
) -> (r: Option<(EventKind, String)>)
    requires
        crate::packs::events_ordered(pack.manifest),
    ensures
        match enabled_choice(
            *config,
            pack.root@,
            events_view(pack.manifest.events@),
            requested,
            platform,
        ) {
            None => r is None,
            Some((e, files)) => {
                &&& files.len() == 0 ==> r is None
                &&& files.len() > 0 ==> (r matches Some((x, p)) && x == e && files.contains(p@))
            },
        },
{
    if requested == EventKind::MassivePush {
        if config.is_event_enabled(EventKind::MassivePush) && pack.files_for(
            EventKind::MassivePush,
            platform,
        ).len() > 0 {
            return pack.resolve(EventKind::MassivePush, platform);
        }
        if config.is_event_enabled(EventKind::Push) {
            return pack.resolve(EventKind::Push, platform);
        }
        return None;
    }
    if config.is_event_enabled(requested) {
        pack.resolve(requested, platform)
    } else {
        None
    }
}

// ---------------------------------------------------------------------------
// The playback lock
// ---------------------------------------------------------------------------
/// What one try to create the lock directory found.
#[derive(Clone, Copy, Debug, PartialEq, Eq, Structural)]
pub enum LockAttempt {
    /// The directory was created: the lock is ours.
    Created,
    /// Another playback holds it. `heartbeat_age_ns` is how long ago its
    /// heartbeat (or the directory) was last touched, when that could be
    /// read; `waited_ns` is how long this playback has been waiting.
    Busy { heartbeat_age_ns: Option<u128>, waited_ns: u128 },
    /// Creating the directory failed for another reason.
    Failed,
}

/// What to do after a try.
#[derive(Clone, Copy, Debug, PartialEq, Eq, Structural)]
pub enum LockAction {
    /// Start the heartbeat and play.
    Hold,
    /// The holder stopped beating: remove its lock and try again.
    ClearStale,
    /// Waited as long as allowed: play nothing.
    GiveUp,
    /// Sleep a little and try again.
    Wait,
    /// Report the error.
    Fail,
}

/// `max_age_ms` in nanoseconds.
pub open spec fn max_age_ns(max_age_ms: u64) -> int {
    max_age_ms * 1_000_000
}

/// The next step of taking the playback lock: a lock whose heartbeat is
/// older than `max_age_ms` is stale; a playback that waited `max_age_ms`
/// gives up.
pub fn lock_step(attempt: LockAttempt, max_age_ms: u64) -> (r: LockAction)
    ensures
        attempt == LockAttempt::Created ==> r == LockAction::Hold,
        attempt == LockAttempt::Failed ==> r == LockAction::Fail,
        attempt matches LockAttempt::Busy { heartbeat_age_ns, waited_ns } ==> r == (
        if heartbeat_age_ns matches Some(age) && age > max_age_ns(max_age_ms) {
            LockAction::ClearStale
        } else if waited_ns >= max_age_ns(max_age_ms) {
            LockAction::GiveUp
        } else {
            LockAction::Wait
        }),
{
    let limit = max_age_ms as u128 * 1_000_000;
    match attempt {
        LockAttempt::Created => LockAction::Hold,
        LockAttempt::Failed => LockAction::Fail,
        LockAttempt::Busy { heartbeat_age_ns, waited_ns } => {
            let stale = match heartbeat_age_ns {
                Some(age) => age > limit,
                None => false,
            };
            if stale {
                LockAction::ClearStale
            } else if waited_ns >= limit {
                LockAction::GiveUp
            } else {
                LockAction::Wait
            }
        },
    }
}

/// Test mode is on only when `GITSAMA_TEST_MODE` is exactly `1`.
pub fn test_mode_value(value: Option<&str>) -> (r: bool)
    ensures
        r == (value matches Some(v) && v@ == "1"@),
{
    match value {
        Some(v) => str_eq(v, "1"),
        None => false,
    }
}

/// The log line for a failed playback.
pub fn log_playback_error(error: &Error) -> (r: String)
    ensures
        r@ == "playback failed: "@ + error_text(*error),
{
    let mut r = owned("playback failed: ");
    append_str(&mut r, error.display().as_str());
    r
}

} // verus!
