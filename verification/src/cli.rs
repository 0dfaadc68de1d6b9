//! The command line: its commands, and how it reads the values a user types.
//!
//! Parsing arguments, prompting and printing is the caller's part.
use vstd::prelude::*;

use crate::error::Error;
use crate::events::{all_events, parse_event, unknown_event_message, EventKind};
use crate::text::{
    chars_of, decimal, decimal_string, eq_ignore_case, lemma_parse_decimal, lower, owned,
    parse_u64_max, parse_unsigned, str_eq, trim, trim_chars, trim_str,
};

verus! {

/// What the command line asks for; `None` shows the dashboard.
#[derive(Clone, Debug)]
pub struct Cli {
    pub command: Option<Command>,
}

#[derive(Clone, Debug)]
pub enum Command {
    Setup,
    Status,
    Settings,
    Packs,
    Pack { command: PackCommand },
    Use { id: String },
    Test { event: Option<String> },
    Volume { value: u8 },
    Threshold { value: u32 },
    Enable { event: String },
    Disable { event: String },
    Mute,
    Unmute,
    OffHere,
    OnHere,
    Doctor { fix: bool },
    Uninstall { keep_data: bool },
    Hook { event: String, args: Vec<String> },
    Play { event: String },
    DispatchPending { repository: String, branch: String },
}

#[derive(Clone, Debug)]
pub enum PackCommand {
    List,
    Add { path: String },
    Remove { id: String },
    Validate { path: String },
    Scaffold { name: String, directory: Option<String> },
}

/// A volume typed by the user: a number from 0 to 100.
pub fn parse_volume(value: &str) -> (r: Result<u8, Error>)
    ensures
        parse_unsigned(trim(value@), u8::MAX as nat) is None ==> (r matches Err(Error::Message(m))
            && m@ == "volume must be a number from 0 to 100"@),
        parse_unsigned(trim(value@), u8::MAX as nat) matches Some(v) ==> (if v > 100 {
            r matches Err(Error::Message(m)) && m@ == "volume must be between 0 and 100"@
        } else {
            r matches Ok(x) && x == v
        }),
{
    let t = trim_chars(&chars_of(value));
    let v = match parse_u64_max(&t, u8::MAX as u64) {
        Some(v) => v as u8,
        None => {
            return Err(Error::message("volume must be a number from 0 to 100"));
        },
    };
    if v > 100 {
        return Err(Error::message("volume must be between 0 and 100"));
    }
    Ok(v)
}

/// A massive-push threshold typed by the user: a number of at least 1.
pub fn parse_threshold(value: &str) -> (r: Result<u32, Error>)
    ensures
        parse_unsigned(trim(value@), u32::MAX as nat) is None ==> (r matches Err(
            Error::Message(m),
        ) && m@ == "massive push threshold must be a positive number"@),
        parse_unsigned(trim(value@), u32::MAX as nat) matches Some(v) ==> (if v == 0 {
            r matches Err(Error::Message(m)) && m@ == "massive push threshold must be at least 1"@
        } else {
            r matches Ok(x) && x == v
        }),
{
    let t = trim_chars(&chars_of(value));
    let v = match parse_u64_max(&t, u32::MAX as u64) {
        Some(v) => v as u32,
        None => {
            return Err(Error::message("massive push threshold must be a positive number"));
        },
    };
    if v == 0 {
        return Err(Error::message("massive push threshold must be at least 1"));
    }
    Ok(v)
}

/// A volume given on the command line.
pub fn set_volume(value: u8) -> (r: Result<u8, Error>)
    ensures
        value > 100 ==> (r matches Err(Error::Message(m)) && m@
            == "volume must be between 0 and 100"@),
        value <= 100 ==> (r matches Ok(v) && v == value),
{
    if value > 100 {
        return Err(Error::message("volume must be between 0 and 100"));
    }
    Ok(value)
}

/// A threshold given on the command line, read as its decimal text is.
pub fn set_threshold(value: u32) -> (r: Result<u32, Error>)
    ensures
        value == 0 ==> (r matches Err(Error::Message(m)) && m@
            == "massive push threshold must be at least 1"@),
        value > 0 ==> (r matches Ok(v) && v == value),
{
    let text = decimal_string(value as u128);
    proof {
        lemma_parse_decimal(value as nat, u32::MAX as nat);
        crate::text::lemma_decimal_digits(value as nat);
        lemma_trim_numeral(decimal(value as nat));
    }
    parse_threshold(text.as_str())
}

/// A numeral has no whitespace to trim.
proof fn lemma_trim_numeral(s: Seq<char>)
    requires
        s.len() > 0,
        crate::text::all_digits(s),
    ensures
        trim(s) == s,
{
    crate::text::lemma_lead_ws_bound(s);
    if crate::text::lead_ws(s) > 0 {
        assert(crate::text::is_ws(s[0]));
        assert(crate::text::is_digit(s[0]));
    }
    assert(crate::text::trim_start(s) =~= s);
    crate::text::lemma_trail_ws_bound(s);
    if crate::text::trail_ws(s) > 0 {
        assert(crate::text::is_ws(s[s.len() - 1]));
        assert(crate::text::is_digit(s[s.len() - 1]));
    }
    assert(crate::text::trim_end(s) =~= s);
}

/// A yes/no answer (already trimmed): empty keeps the default, anything
/// starting with `y` or `Y` is yes.
pub fn yes_no_answer(answer: &str, default: bool) -> (r: bool)
    ensures
        answer@.len() == 0 ==> r == default,
        answer@.len() > 0 ==> r == (answer@[0] == 'y' || answer@[0] == 'Y'),
{
    let v = chars_of(answer);
    if v.len() == 0 {
        return default;
    }
    v[0] == 'y' || v[0] == 'Y'
}

/// An optional answer (already trimmed): empty means none.
pub fn optional_answer(answer: String) -> (r: Option<String>)
    ensures
        answer@.len() == 0 ==> r is None,
        answer@.len() > 0 ==> r == Some(answer),
{
    let v = chars_of(answer.as_str());
    if v.len() == 0 {
        None
    } else {
        Some(answer)
    }
}

/// The answer typed at the test menu (already trimmed): `q` (any case)
/// leaves the menu, `9` plays everything, anything else names the event.
pub fn menu_answer(answer: &str) -> (r: Option<String>)
    ensures
        lower(answer@) == lower("q"@) ==> r is None,
        lower(answer@) != lower("q"@) && trim(answer@) == "9"@ ==> (r matches Some(v) && v@
            == "all"@),
        lower(answer@) != lower("q"@) && trim(answer@) != "9"@ ==> (r matches Some(v) && v@
            == trim(answer@)),
{
    if eq_ignore_case(answer, "q") {
        return None;
    }
    let t = trim_str(answer);
    if str_eq(t.as_str(), "9") {
        Some(owned("all"))
    } else {
        Some(t)
    }
}

/// What `gitsama test` plays.
#[derive(Clone, Copy, Debug, PartialEq, Eq, Structural)]
pub enum TestSelection {
    All,
    One(EventKind),
}

/// Reads the event to test: `all` (any case), a number from 1 to 8 in menu
/// order, or an event name.
pub fn test_selection(value: &str) -> (r: Result<TestSelection, Error>)
    ensures
        lower(value@) == lower("all"@) ==> r == Ok::<TestSelection, Error>(TestSelection::All),
        lower(value@) != lower("all"@) ==> match parse_unsigned(value@, usize::MAX as nat) {
            Some(i) if 1 <= i <= 8 => r == Ok::<TestSelection, Error>(
                TestSelection::One(all_events()[i - 1]),
            ),
            _ => match parse_event(value@) {
                Some(e) => r == Ok::<TestSelection, Error>(TestSelection::One(e)),
                None => r matches Err(Error::Message(m)) && m@ == unknown_event_message(value@),
            },
        },
{
    if eq_ignore_case(value, "all") {
        return Ok(TestSelection::All);
    }
    let v = chars_of(value);
    match parse_u64_max(&v, usize::MAX as u64) {
        Some(i) => {
            if 1 <= i && i <= 8 {
                let all = EventKind::all();
                return Ok(TestSelection::One(all[(i - 1) as usize]));
            }
        },
        None => {},
    }
    let e = EventKind::parse(value)?;
    Ok(TestSelection::One(e))
}

/// The state line of `gitsama status`.
pub fn status_state(
    local_disabled: bool,
    enabled: bool,
    globally_disabled: bool,
    registered: usize,
    total: usize,
) -> (r: &'static str)
    ensures
        local_disabled ==> r@ == "disabled in this repository"@,
        !local_disabled && (!enabled || globally_disabled) ==> r@ == "muted"@,
        !local_disabled && enabled && !globally_disabled && registered != total ==> r@
            == "not set up"@,
        !local_disabled && enabled && !globally_disabled && registered == total ==> r@
            == "globally enabled"@,
{
    if local_disabled {
        "disabled in this repository"
    } else if !enabled || globally_disabled {
        "muted"
    } else if registered != total {
        "not set up"
    } else {
        "globally enabled"
    }
}

/// The state line of the dashboard.
pub fn dashboard_state(enabled: bool, disabled_here: bool) -> (r: &'static str)
    ensures
        !enabled ==> r@ == "MUTED"@,
        enabled && disabled_here ==> r@ == "DISABLED HERE"@,
        enabled && !disabled_here ==> r@ == "ON"@,
{
    if !enabled {
        "MUTED"
    } else if disabled_here {
        "DISABLED HERE"
    } else {
        "ON"
    }
}

} // verus!
