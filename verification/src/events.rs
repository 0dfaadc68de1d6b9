//! The generic Git events that GitSama reacts to.
use vstd::prelude::*;

use crate::error::Error;
use crate::text::{
    append_str, char_lower, chars_of, lower, lower_chars, owned, push_char, replace_char,
    replace_chars, str_eq, string_of, trim, trim_chars,
};

verus! {

#[derive(Clone, Copy, Debug, PartialEq, Eq, Hash, Structural)]
pub enum EventKind {
    Commit,
    Push,
    MassivePush,
    Merge,
    BranchSwitch,
    BranchCreate,
    BranchDelete,
    Rebase,
}

/// The canonical (snake_case) name of an event.
pub open spec fn event_name(e: EventKind) -> Seq<char> {
    match e {
        EventKind::Commit => "commit"@,
        EventKind::Push => "push"@,
        EventKind::MassivePush => "massive_push"@,
        EventKind::Merge => "merge"@,
        EventKind::BranchSwitch => "branch_switch"@,
        EventKind::BranchCreate => "branch_create"@,
        EventKind::BranchDelete => "branch_delete"@,
        EventKind::Rebase => "rebase"@,
    }
}

/// The label shown to the user.
pub open spec fn event_label(e: EventKind) -> Seq<char> {
    match e {
        EventKind::Commit => "Commit"@,
        EventKind::Push => "Push"@,
        EventKind::MassivePush => "Massive Push"@,
        EventKind::Merge => "Merge"@,
        EventKind::BranchSwitch => "Branch Switch"@,
        EventKind::BranchCreate => "Branch Create"@,
        EventKind::BranchDelete => "Branch Delete"@,
        EventKind::Rebase => "Rebase"@,
    }
}

/// The event whose canonical name is exactly `s`.
pub open spec fn event_from_name(s: Seq<char>) -> Option<EventKind> {
    if s == "commit"@ {
        Some(EventKind::Commit)
    } else if s == "push"@ {
        Some(EventKind::Push)
    } else if s == "massive_push"@ {
        Some(EventKind::MassivePush)
    } else if s == "merge"@ {
        Some(EventKind::Merge)
    } else if s == "branch_switch"@ {
        Some(EventKind::BranchSwitch)
    } else if s == "branch_create"@ {
        Some(EventKind::BranchCreate)
    } else if s == "branch_delete"@ {
        Some(EventKind::BranchDelete)
    } else if s == "rebase"@ {
        Some(EventKind::Rebase)
    } else {
        None
    }
}

/// What user input is compared with: trimmed, lowercase, `-` read as `_`.
pub open spec fn normalize_event(s: Seq<char>) -> Seq<char> {
    replace_char(lower(trim(s)), '-', seq!['_'])
}

/// The event that user input names, if any.
pub open spec fn parse_event(s: Seq<char>) -> Option<EventKind> {
    event_from_name(normalize_event(s))
}

/// The message given for input that names no event.
pub open spec fn unknown_event_message(s: Seq<char>) -> Seq<char> {
    "unknown GitSama event '"@ + s + "'"@
}

/// Every event, in the order the user interface lists them.
pub open spec fn all_events() -> Seq<EventKind> {
    seq![
        EventKind::Commit,
        EventKind::Push,
        EventKind::MassivePush,
        EventKind::Merge,
        EventKind::BranchSwitch,
        EventKind::BranchCreate,
        EventKind::BranchDelete,
        EventKind::Rebase,
    ]
}

impl EventKind {
    /// All events, in display order.
    pub fn all() -> (r: Vec<EventKind>)
        ensures
            r@ == all_events(),
    {
        let r = vec![
            EventKind::Commit,
            EventKind::Push,
            EventKind::MassivePush,
            EventKind::Merge,
            EventKind::BranchSwitch,
            EventKind::BranchCreate,
            EventKind::BranchDelete,
            EventKind::Rebase,
        ];
        assert(r@ =~= all_events());
        r
    }

    pub fn as_str(self) -> (r: &'static str)
        ensures
            r@ == event_name(self),
    {
        match self {
            EventKind::Commit => "commit",
            EventKind::Push => "push",
            EventKind::MassivePush => "massive_push",
            EventKind::Merge => "merge",
            EventKind::BranchSwitch => "branch_switch",
            EventKind::BranchCreate => "branch_create",
            EventKind::BranchDelete => "branch_delete",
            EventKind::Rebase => "rebase",
        }
    }

    pub fn label(self) -> (r: &'static str)
        ensures
            r@ == event_label(self),
    {
        match self {
            EventKind::Commit => "Commit",
            EventKind::Push => "Push",
            EventKind::MassivePush => "Massive Push",
            EventKind::Merge => "Merge",
            EventKind::BranchSwitch => "Branch Switch",
            EventKind::BranchCreate => "Branch Create",
            EventKind::BranchDelete => "Branch Delete",
            EventKind::Rebase => "Rebase",
        }
    }

    /// The event whose canonical name is exactly `value`.
    pub fn from_name(value: &str) -> (r: Option<EventKind>)
        ensures
            r == event_from_name(value@),
    {
        if str_eq(value, "commit") {
            Some(EventKind::Commit)
        } else if str_eq(value, "push") {
            Some(EventKind::Push)
        } else if str_eq(value, "massive_push") {
            Some(EventKind::MassivePush)
        } else if str_eq(value, "merge") {
            Some(EventKind::Merge)
        } else if str_eq(value, "branch_switch") {
            Some(EventKind::BranchSwitch)
        } else if str_eq(value, "branch_create") {
            Some(EventKind::BranchCreate)
        } else if str_eq(value, "branch_delete") {
            Some(EventKind::BranchDelete)
        } else if str_eq(value, "rebase") {
            Some(EventKind::Rebase)
        } else {
            None
        }
    }

    /// Reads an event name typed by a user: surrounding whitespace, case and
    /// `-` in place of `_` do not matter.
    pub fn parse(value: &str) -> (r: Result<EventKind, Error>)
        ensures
            r matches Ok(e) ==> parse_event(value@) == Some(e),
            r is Err <==> parse_event(value@) is None,
            r matches Err(err) ==> err matches Error::Message(m) && m@ == unknown_event_message(
                value@,
            ),
    {
        let chars = chars_of(value);
        let trimmed = trim_chars(&chars);
        let lowered = lower_chars(&trimmed);
        let underscore = vec!['_'];
        assert(underscore@ =~= seq!['_']);
        let normalized = replace_chars(&lowered, '-', &underscore);
        let text = string_of(&normalized);
        match EventKind::from_name(text.as_str()) {
            Some(e) => Ok(e),
            None => {
                let mut m = owned("unknown GitSama event '");
                append_str(&mut m, value);
                append_str(&mut m, "'");
                Err(Error::Message(m))
            },
        }
    }

    pub fn is_push(self) -> (r: bool)
        ensures
            r == (self == EventKind::Push || self == EventKind::MassivePush),
    {
        match self {
            EventKind::Push | EventKind::MassivePush => true,
            _ => false,
        }
    }
}


/// A name made of lowercase letters and `_` is its own normal form.
proof fn lemma_normal_name(s: Seq<char>)
    requires
        s.len() > 0,
        forall|i: int| 0 <= i < s.len() ==> ('a' <= #[trigger] s[i] && s[i] <= 'z') || s[i] == '_',
    ensures
        normalize_event(s) == s,
{
    crate::text::lemma_trim_noop(s);
    crate::text::lemma_lower_noop(s);
    crate::text::lemma_replace_noop(s, '-', seq!['_']);
}

/// Every event's canonical name reads back as that event.
pub proof fn lemma_parse_event_name(e: EventKind)
    ensures
        parse_event(event_name(e)) == Some(e),
{
    reveal_strlit("commit");
    reveal_strlit("push");
    reveal_strlit("massive_push");
    reveal_strlit("merge");
    reveal_strlit("branch_switch");
    reveal_strlit("branch_create");
    reveal_strlit("branch_delete");
    reveal_strlit("rebase");
    lemma_normal_name(event_name(e));
    let names = seq![
        "commit"@,
        "push"@,
        "massive_push"@,
        "merge"@,
        "branch_switch"@,
        "branch_create"@,
        "branch_delete"@,
        "rebase"@,
    ];
    assert forall|i: int, j: int| 0 <= i < j < 8 implies names[i] != names[j] by {
        if names[i].len() == names[j].len() {
            if i == 5 && j == 6 {
                assert(names[i][7] != names[j][7]);
            } else if i == 4 && j == 5 {
                assert(names[i][7] != names[j][7]);
            } else if i == 4 && j == 6 {
                assert(names[i][7] != names[j][7]);
            } else {
                assert(names[i][0] != names[j][0] || names[i][1] != names[j][1]);
            }
        }
    }
    assert(names[0] != names[1]);
}

} // verus!
