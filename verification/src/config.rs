//! User settings: which pack plays, how loud, and which events sound.
use vstd::prelude::*;

use crate::error::Error;
use crate::events::EventKind;
use crate::text::{append_str, owned, push_decimal, decimal, trim, trim_chars, chars_of};

verus! {

pub const CONFIG_SCHEMA_VERSION: u32 = 1;

pub fn default_true() -> (r: bool)
    ensures
        r,
{
    true
}

/// The pack a new configuration selects: the bundled Naruto Voice Pack.
pub fn default_pack() -> (r: String)
    ensures
        r@ == "naruto"@,
{
    owned(crate::packs::DEFAULT_PACK_ID)
}

pub fn default_volume() -> (r: u8)
    ensures
        r == 80,
{
    80
}

pub fn default_threshold() -> (r: u32)
    ensures
        r == 50,
{
    50
}

pub fn default_queue_age() -> (r: u64)
    ensures
        r == 5_000,
{
    5_000
}

pub fn default_schema_version() -> (r: u32)
    ensures
        r == CONFIG_SCHEMA_VERSION,
{
    CONFIG_SCHEMA_VERSION
}

/// Whether each event is allowed to play.
#[derive(Clone, Copy, Debug, PartialEq, Eq, Structural)]
pub struct EventSettings {
    pub commit: bool,
    pub push: bool,
    pub massive_push: bool,
    pub merge: bool,
    pub branch_switch: bool,
    pub branch_create: bool,
    pub branch_delete: bool,
    pub rebase: bool,
}

impl EventSettings {
    /// Whether `event` is enabled in these settings.
    pub open spec fn get(self, event: EventKind) -> bool {
        match event {
            EventKind::Commit => self.commit,
            EventKind::Push => self.push,
            EventKind::MassivePush => self.massive_push,
            EventKind::Merge => self.merge,
            EventKind::BranchSwitch => self.branch_switch,
            EventKind::BranchCreate => self.branch_create,
            EventKind::BranchDelete => self.branch_delete,
            EventKind::Rebase => self.rebase,
        }
    }

    pub fn is_enabled(&self, event: EventKind) -> (r: bool)
        ensures
            r == self.get(event),
    {
        match event {
            EventKind::Commit => self.commit,
            EventKind::Push => self.push,
            EventKind::MassivePush => self.massive_push,
            EventKind::Merge => self.merge,
            EventKind::BranchSwitch => self.branch_switch,
            EventKind::BranchCreate => self.branch_create,
            EventKind::BranchDelete => self.branch_delete,
            EventKind::Rebase => self.rebase,
        }
    }

    /// Enables or disables one event and leaves every other event as it was.
    pub fn set_enabled(&mut self, event: EventKind, enabled: bool)
        ensures
            final(self).get(event) == enabled,
            forall|other: EventKind| other != event ==> final(self).get(other) == old(self).get(other),
    {
        match event {
            EventKind::Commit => self.commit = enabled,
            EventKind::Push => self.push = enabled,
            EventKind::MassivePush => self.massive_push = enabled,
            EventKind::Merge => self.merge = enabled,
            EventKind::BranchSwitch => self.branch_switch = enabled,
            EventKind::BranchCreate => self.branch_create = enabled,
            EventKind::BranchDelete => self.branch_delete = enabled,
            EventKind::Rebase => self.rebase = enabled,
        }
    }
}

impl Default for EventSettings {
    fn default() -> (r: Self)
        ensures
            forall|e: EventKind| r.get(e),
    {
        EventSettings {
            commit: true,
            push: true,
            massive_push: true,
            merge: true,
            branch_switch: true,
            branch_create: true,
            branch_delete: true,
            rebase: true,
        }
    }
}

/// The settings file's contents.
#[derive(Clone, Debug)]
pub struct Config {
    pub schema_version: u32,
    pub enabled: bool,
    pub active_pack: String,
    pub volume: u8,
    pub massive_push_threshold: u32,
    pub queue_max_age_ms: u64,
    pub events: EventSettings,
}

/// The first rule that `c` breaks, as the message that reports it.
pub open spec fn config_problem(c: Config) -> Option<Seq<char>> {
    if c.schema_version > CONFIG_SCHEMA_VERSION {
        Some(
            "configuration schema "@ + decimal(c.schema_version as nat)
                + " is newer than this GitSama build"@,
        )
    } else if trim(c.active_pack@).len() == 0 {
        Some("active_pack cannot be empty"@)
    } else if c.volume > 100 {
        Some("volume must be between 0 and 100"@)
    } else if c.massive_push_threshold == 0 {
        Some("massive_push_threshold must be at least 1"@)
    } else if c.queue_max_age_ms == 0 {
        Some("queue_max_age_ms must be greater than 0"@)
    } else {
        None
    }
}

impl Default for Config {
    fn default() -> (r: Self)
        ensures
            r.schema_version == CONFIG_SCHEMA_VERSION,
            r.enabled,
            r.active_pack@ == "naruto"@,
            r.volume == 80,
            r.massive_push_threshold == 50,
            r.queue_max_age_ms == 5_000,
            forall|e: EventKind| r.events.get(e),
            config_problem(r) is None,
    {
        proof {
            reveal_strlit("naruto");
            crate::text::lemma_trim_noop("naruto"@);
        }
        Config {
            schema_version: CONFIG_SCHEMA_VERSION,
            enabled: true,
            active_pack: default_pack(),
            volume: default_volume(),
            massive_push_threshold: default_threshold(),
            queue_max_age_ms: default_queue_age(),
            events: EventSettings::default(),
        }
    }
}

impl Config {
    /// Checks the settings; the error names the first rule broken.
    pub fn validate(&self) -> (r: Result<(), Error>)
        ensures
            r is Ok <==> config_problem(*self) is None,
            r matches Err(e) ==> e matches Error::Config(m) && Some(m@) == config_problem(*self),
    {
        if self.schema_version > CONFIG_SCHEMA_VERSION {
            let mut m = owned("configuration schema ");
            push_decimal(&mut m, self.schema_version as u128);
            append_str(&mut m, " is newer than this GitSama build");
            return Err(Error::Config(m));
        }
        let pack = trim_chars(&chars_of(self.active_pack.as_str()));
        if pack.len() == 0 {
            return Err(Error::Config(owned("active_pack cannot be empty")));
        }
        if self.volume > 100 {
            return Err(Error::Config(owned("volume must be between 0 and 100")));
        }
        if self.massive_push_threshold == 0 {
            return Err(Error::Config(owned("massive_push_threshold must be at least 1")));
        }
        if self.queue_max_age_ms == 0 {
            return Err(Error::Config(owned("queue_max_age_ms must be greater than 0")));
        }
        Ok(())
    }

    pub fn is_event_enabled(&self, event: EventKind) -> (r: bool)
        ensures
            r == self.events.get(event),
    {
        self.events.is_enabled(event)
    }

    /// Enables or disables one event; nothing else in the settings changes.
    pub fn set_event_enabled(&mut self, event: EventKind, enabled: bool)
        ensures
            final(self).events.get(event) == enabled,
            forall|other: EventKind|
                other != event ==> final(self).events.get(other) == old(self).events.get(other),
            final(self).schema_version == old(self).schema_version,
            final(self).enabled == old(self).enabled,
            final(self).active_pack == old(self).active_pack,
            final(self).volume == old(self).volume,
            final(self).massive_push_threshold == old(self).massive_push_threshold,
            final(self).queue_max_age_ms == old(self).queue_max_age_ms,
    {
        self.events.set_enabled(event, enabled);
    }
}

} // verus!
