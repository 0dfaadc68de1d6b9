//! GitSama's named Git hooks: how they are registered, what Git hands them,
//! and what each hook does with it.
//!
//! Running Git and playing sounds is the caller's part. The functions here say
//! which configuration edits to make, how to read Git's answers, and which
//! event a hook invocation stands for.
use vstd::prelude::*;

use crate::error::Error;
use crate::events::EventKind;
use crate::git::{is_zero_oid, zero_oid, GitOutput};
use crate::platform::{shell_quote, shell_quoted, Platform};
use crate::state::PendingBranch;
use crate::text::{
    append_str, chars_contains, chars_of, chars_starts_with, concat, contains, eq_ignore_case,
    lines, lines_of, lower, lower_chars, owned, slice_chars, starts_with, str_eq, string_of, trim,
    trim_chars, views, words, words_of,
};

verus! {

/// One named hook: its name in Git's configuration and the native hook event
/// it runs for.
#[derive(Clone, Copy, Debug, PartialEq, Eq)]
pub struct HookSpec {
    pub friendly_name: &'static str,
    pub native_event: &'static str,
}

impl View for HookSpec {
    type V = (Seq<char>, Seq<char>);

    open spec fn view(&self) -> (Seq<char>, Seq<char>) {
        (self.friendly_name@, self.native_event@)
    }
}

/// The six hooks, one per native event that GitSama listens to.
pub open spec fn hook_specs() -> Seq<(Seq<char>, Seq<char>)> {
    seq![
        ("gitsama-post-commit"@, "post-commit"@),
        ("gitsama-pre-push"@, "pre-push"@),
        ("gitsama-post-merge"@, "post-merge"@),
        ("gitsama-post-checkout"@, "post-checkout"@),
        ("gitsama-reference-transaction"@, "reference-transaction"@),
        ("gitsama-post-rewrite"@, "post-rewrite"@),
    ]
}

pub fn hooks() -> (r: Vec<HookSpec>)
    ensures
        r@.map_values(|h: HookSpec| h@) == hook_specs(),
{
    let r = vec![
        HookSpec { friendly_name: "gitsama-post-commit", native_event: "post-commit" },
        HookSpec { friendly_name: "gitsama-pre-push", native_event: "pre-push" },
        HookSpec { friendly_name: "gitsama-post-merge", native_event: "post-merge" },
        HookSpec { friendly_name: "gitsama-post-checkout", native_event: "post-checkout" },
        HookSpec {
            friendly_name: "gitsama-reference-transaction",
            native_event: "reference-transaction",
        },
        HookSpec { friendly_name: "gitsama-post-rewrite", native_event: "post-rewrite" },
    ];
    assert(r@.map_values(|h: HookSpec| h@) =~= hook_specs());
    r
}

/// `hook.<name>.<field>`.
pub open spec fn hook_key(friendly: Seq<char>, field: Seq<char>) -> Seq<char> {
    "hook."@ + friendly + "."@ + field
}

fn key_for(hook: HookSpec, field: &str) -> (r: String)
    ensures
        r@ == hook_key(hook.friendly_name@, field@),
{
    let mut r = owned("hook.");
    append_str(&mut r, hook.friendly_name);
    append_str(&mut r, ".");
    append_str(&mut r, field);
    r
}

/// The key that holds the hook's event.
pub fn event_key(hook: HookSpec) -> (r: String)
    ensures
        r@ == hook_key(hook.friendly_name@, "event"@),
{
    key_for(hook, "event")
}

/// The key that holds the hook's command.
pub fn command_key(hook: HookSpec) -> (r: String)
    ensures
        r@ == hook_key(hook.friendly_name@, "command"@),
{
    key_for(hook, "command")
}

/// The key that switches the hook on or off.
pub fn enabled_key(hook: HookSpec) -> (r: String)
    ensures
        r@ == hook_key(hook.friendly_name@, "enabled"@),
{
    key_for(hook, "enabled")
}

/// One change to Git's configuration.
#[derive(Clone, Debug)]
pub enum ConfigEdit {
    Assign { scope: String, key: String, value: String, append: bool },
    Remove { scope: String, key: String },
}

pub enum EditView {
    Assign(Seq<char>, Seq<char>, Seq<char>, bool),
    Remove(Seq<char>, Seq<char>),
}

impl View for ConfigEdit {
    type V = EditView;

    open spec fn view(&self) -> EditView {
        match self {
            ConfigEdit::Assign { scope, key, value, append } => EditView::Assign(
                scope@,
                key@,
                value@,
                *append,
            ),
            ConfigEdit::Remove { scope, key } => EditView::Remove(scope@, key@),
        }
    }
}

pub open spec fn edit_views(v: Seq<ConfigEdit>) -> Seq<EditView> {
    v.map_values(|e: ConfigEdit| e@)
}

/// `git config <scope> [--add] <key> <value>`.
pub open spec fn set_args(scope: Seq<char>, key: Seq<char>, value: Seq<char>, append: bool) -> Seq<
    Seq<char>,
> {
    let head = seq!["config"@, scope];
    let head = if append {
        head.push("--add"@)
    } else {
        head
    };
    head.push(key).push(value)
}

/// `git config <scope> --unset-all <key>`.
pub open spec fn unset_args(scope: Seq<char>, key: Seq<char>) -> Seq<Seq<char>> {
    seq!["config"@, scope, "--unset-all"@, key]
}

pub open spec fn edit_args(e: EditView) -> Seq<Seq<char>> {
    match e {
        EditView::Assign(scope, key, value, append) => set_args(scope, key, value, append),
        EditView::Remove(scope, key) => unset_args(scope, key),
    }
}

/// The arguments of the Git run that sets a value.
pub fn set_scope(scope: &str, key: &str, value: &str, append: bool) -> (r: Vec<String>)
    ensures
        views(r@) == set_args(scope@, key@, value@, append),
{
    let mut args: Vec<String> = Vec::new();
    args.push(owned("config"));
    args.push(owned(scope));
    if append {
        args.push(owned("--add"));
    }
    args.push(owned(key));
    args.push(owned(value));
    assert(views(args@) =~= set_args(scope@, key@, value@, append));
    args
}

/// The arguments of the Git run that removes every value of a key.
pub fn unset_scope(scope: &str, key: &str) -> (r: Vec<String>)
    ensures
        views(r@) == unset_args(scope@, key@),
{
    let mut args: Vec<String> = Vec::new();
    args.push(owned("config"));
    args.push(owned(scope));
    args.push(owned("--unset-all"));
    args.push(owned(key));
    assert(views(args@) =~= unset_args(scope@, key@));
    args
}

impl ConfigEdit {
    /// The arguments of the Git run that makes this edit.
    pub fn args(&self) -> (r: Vec<String>)
        ensures
            views(r@) == edit_args(self@),
    {
        match self {
            ConfigEdit::Assign { scope, key, value, append } => set_scope(
                scope.as_str(),
                key.as_str(),
                value.as_str(),
                *append,
            ),
            ConfigEdit::Remove { scope, key } => unset_scope(scope.as_str(), key.as_str()),
        }
    }
}

pub fn set_global(key: &str, value: &str, append: bool) -> (r: ConfigEdit)
    ensures
        r@ == EditView::Assign("--global"@, key@, value@, append),
{
    ConfigEdit::Assign { scope: owned("--global"), key: owned(key), value: owned(value), append }
}

pub fn set_local(key: &str, value: &str, append: bool) -> (r: ConfigEdit)
    ensures
        r@ == EditView::Assign("--local"@, key@, value@, append),
{
    ConfigEdit::Assign { scope: owned("--local"), key: owned(key), value: owned(value), append }
}

pub fn unset_global(key: &str) -> (r: ConfigEdit)
    ensures
        r@ == EditView::Remove("--global"@, key@),
{
    ConfigEdit::Remove { scope: owned("--global"), key: owned(key) }
}

pub fn unset_local(key: &str) -> (r: ConfigEdit)
    ensures
        r@ == EditView::Remove("--local"@, key@),
{
    ConfigEdit::Remove { scope: owned("--local"), key: owned(key) }
}

/// The command Git runs for a hook: the quoted binary, `hook`, the event.
pub open spec fn hook_command(binary: Seq<char>, platform: Platform, native: Seq<char>) -> Seq<
    char,
> {
    shell_quoted(binary, platform) + " hook "@ + native
}

/// The edits that register one hook: its old entries go, then its event,
/// command and switch are written.
pub open spec fn install_edits(
    h: (Seq<char>, Seq<char>),
    binary: Seq<char>,
    platform: Platform,
) -> Seq<EditView> {
    let g = "--global"@;
    seq![
        EditView::Remove(g, hook_key(h.0, "event"@)),
        EditView::Remove(g, hook_key(h.0, "command"@)),
        EditView::Remove(g, hook_key(h.0, "enabled"@)),
        EditView::Assign(g, hook_key(h.0, "event"@), h.1, true),
        EditView::Assign(g, hook_key(h.0, "command"@), hook_command(binary, platform, h.1), false),
        EditView::Assign(g, hook_key(h.0, "enabled"@), "true"@, false),
    ]
}

/// The edits that remove one hook's global entries.
pub open spec fn remove_edits(h: (Seq<char>, Seq<char>)) -> Seq<EditView> {
    let g = "--global"@;
    seq![
        EditView::Remove(g, hook_key(h.0, "event"@)),
        EditView::Remove(g, hook_key(h.0, "command"@)),
        EditView::Remove(g, hook_key(h.0, "enabled"@)),
    ]
}

/// The per-hook edits of `f`, one hook after the other.
pub open spec fn all_edits(
    hs: Seq<(Seq<char>, Seq<char>)>,
    f: spec_fn((Seq<char>, Seq<char>)) -> Seq<EditView>,
) -> Seq<EditView>
    decreases hs.len(),
{
    if hs.len() == 0 {
        seq![]
    } else {
        all_edits(hs.drop_last(), f) + f(hs.last())
    }
}

proof fn lemma_all_edits_step(
    hs: Seq<(Seq<char>, Seq<char>)>,
    i: int,
    f: spec_fn((Seq<char>, Seq<char>)) -> Seq<EditView>,
)
    requires
        0 <= i < hs.len(),
    ensures
        all_edits(hs.take(i + 1), f) == all_edits(hs.take(i), f) + f(hs[i]),
{
    assert(hs.take(i + 1).drop_last() =~= hs.take(i));
}

/// The edits that register every hook to run `binary` (a canonical path).
pub fn install_global(binary: &str, platform: Platform) -> (r: Vec<ConfigEdit>)
    ensures
        edit_views(r@) == all_edits(
            hook_specs(),
            |h: (Seq<char>, Seq<char>)| install_edits(h, binary@, platform),
        ),
{
    let hs = hooks();
    let ghost f = |h: (Seq<char>, Seq<char>)| install_edits(h, binary@, platform);
    let quoted = shell_quote(binary, platform);
    let mut r: Vec<ConfigEdit> = Vec::new();
    let mut i: usize = 0;
    while i < hs.len()
        invariant
            i <= hs.len(),
            hs@.map_values(|h: HookSpec| h@) == hook_specs(),
            quoted@ == shell_quoted(binary@, platform),
            f == |h: (Seq<char>, Seq<char>)| install_edits(h, binary@, platform),
            edit_views(r@) == all_edits(hook_specs().take(i as int), f),
        decreases hs.len() - i,
    {
        let hook = hs[i];
        assert(hook_specs()[i as int] == hook@);
        proof {
            lemma_all_edits_step(hook_specs(), i as int, f);
        }
        let ghost before = edit_views(r@);
        r.push(unset_global(event_key(hook).as_str()));
        r.push(unset_global(command_key(hook).as_str()));
        r.push(unset_global(enabled_key(hook).as_str()));
        r.push(set_global(event_key(hook).as_str(), hook.native_event, true));
        let mut command = quoted.clone();
        append_str(&mut command, " hook ");
        append_str(&mut command, hook.native_event);
        r.push(set_global(command_key(hook).as_str(), command.as_str(), false));
        r.push(set_global(enabled_key(hook).as_str(), "true", false));
        assert(edit_views(r@) =~= before + install_edits(hook@, binary@, platform));
        i = i + 1;
    }
    assert(hook_specs().take(6) =~= hook_specs());
    r
}

/// The edits that remove every hook's global entries.
pub fn remove_global() -> (r: Vec<ConfigEdit>)
    ensures
        edit_views(r@) == all_edits(hook_specs(), |h: (Seq<char>, Seq<char>)| remove_edits(h)),
{
    let hs = hooks();
    let ghost f = |h: (Seq<char>, Seq<char>)| remove_edits(h);
    let mut r: Vec<ConfigEdit> = Vec::new();
    let mut i: usize = 0;
    while i < hs.len()
        invariant
            i <= hs.len(),
            hs@.map_values(|h: HookSpec| h@) == hook_specs(),
            f == |h: (Seq<char>, Seq<char>)| remove_edits(h),
            edit_views(r@) == all_edits(hook_specs().take(i as int), f),
        decreases hs.len() - i,
    {
        let hook = hs[i];
        assert(hook_specs()[i as int] == hook@);
        proof {
            lemma_all_edits_step(hook_specs(), i as int, f);
        }
        let ghost before = edit_views(r@);
        r.push(unset_global(event_key(hook).as_str()));
        r.push(unset_global(command_key(hook).as_str()));
        r.push(unset_global(enabled_key(hook).as_str()));
        assert(edit_views(r@) =~= before + remove_edits(hook@));
        i = i + 1;
    }
    assert(hook_specs().take(6) =~= hook_specs());
    r
}

/// The edit that switches one hook off in the current repository.
pub open spec fn disable_edit(h: (Seq<char>, Seq<char>)) -> Seq<EditView> {
    seq![EditView::Assign("--local"@, hook_key(h.0, "enabled"@), "false"@, false)]
}

/// The edit that drops one hook's switch in the current repository.
pub open spec fn enable_edit(h: (Seq<char>, Seq<char>)) -> Seq<EditView> {
    seq![EditView::Remove("--local"@, hook_key(h.0, "enabled"@))]
}

/// The edits that switch every hook off in the current repository.
pub fn disable_here() -> (r: Vec<ConfigEdit>)
    ensures
        edit_views(r@) == all_edits(hook_specs(), |h: (Seq<char>, Seq<char>)| disable_edit(h)),
{
    let hs = hooks();
    let ghost f = |h: (Seq<char>, Seq<char>)| disable_edit(h);
    let mut r: Vec<ConfigEdit> = Vec::new();
    let mut i: usize = 0;
    while i < hs.len()
        invariant
            i <= hs.len(),
            hs@.map_values(|h: HookSpec| h@) == hook_specs(),
            f == |h: (Seq<char>, Seq<char>)| disable_edit(h),
            edit_views(r@) == all_edits(hook_specs().take(i as int), f),
        decreases hs.len() - i,
    {
        let hook = hs[i];
        assert(hook_specs()[i as int] == hook@);
        proof {
            lemma_all_edits_step(hook_specs(), i as int, f);
        }
        let ghost before = edit_views(r@);
        r.push(set_local(enabled_key(hook).as_str(), "false", false));
        assert(edit_views(r@) =~= before + disable_edit(hook@));
        i = i + 1;
    }
    assert(hook_specs().take(6) =~= hook_specs());
    r
}

/// The edits that give every hook back to the global setting in the current
/// repository.
pub fn enable_here() -> (r: Vec<ConfigEdit>)
    ensures
        edit_views(r@) == all_edits(hook_specs(), |h: (Seq<char>, Seq<char>)| enable_edit(h)),
{
    let hs = hooks();
    let ghost f = |h: (Seq<char>, Seq<char>)| enable_edit(h);
    let mut r: Vec<ConfigEdit> = Vec::new();
    let mut i: usize = 0;
    while i < hs.len()
        invariant
            i <= hs.len(),
            hs@.map_values(|h: HookSpec| h@) == hook_specs(),
            f == |h: (Seq<char>, Seq<char>)| enable_edit(h),
            edit_views(r@) == all_edits(hook_specs().take(i as int), f),
        decreases hs.len() - i,
    {
        let hook = hs[i];
        assert(hook_specs()[i as int] == hook@);
        proof {
            lemma_all_edits_step(hook_specs(), i as int, f);
        }
        let ghost before = edit_views(r@);
        r.push(unset_local(enabled_key(hook).as_str()));
        assert(edit_views(r@) =~= before + enable_edit(hook@));
        i = i + 1;
    }
    assert(hook_specs().take(6) =~= hook_specs());
    r
}

/// A hook is registered when one of its global events is its native event
/// and it has a global command.
pub fn global_is_registered(hook: HookSpec, events: &Vec<String>, command: &Option<String>) -> (r:
    bool)
    ensures
        r == (views(events@).contains(hook.native_event@) && command is Some),
{
    let mut found = false;
    let mut i: usize = 0;
    while i < events.len()
        invariant
            i <= events.len(),
            found <==> exists|j: int| 0 <= j < i && events@[j]@ == hook.native_event@,
        decreases events.len() - i,
    {
        if str_eq(events[i].as_str(), hook.native_event) {
            found = true;
        }
        i = i + 1;
    }
    proof {
        if found {
            let j = choose|j: int| 0 <= j < events@.len() && events@[j]@ == hook.native_event@;
            assert(views(events@)[j] == hook.native_event@);
        }
        if views(events@).contains(hook.native_event@) {
            let j = choose|j: int|
                0 <= j < views(events@).len() && views(events@)[j] == hook.native_event@;
            assert(events@[j]@ == hook.native_event@);
        }
    }
    found && command.is_some()
}

/// A value that reads `false` in any case.
pub open spec fn says_false(value: Seq<char>) -> bool {
    lower(value) == lower("false"@)
}

/// A hook is globally on unless its switch says `false`.
pub fn global_is_enabled(value: &Option<String>) -> (r: bool)
    ensures
        r == match value {
            None => true,
            Some(v) => !says_false(v@),
        },
{
    match value {
        None => true,
        Some(v) => !eq_ignore_case(v.as_str(), "false"),
    }
}

/// A hook is off in this repository when its local switch says `false`.
pub fn local_is_disabled(value: &Option<String>) -> (r: bool)
    ensures
        r == match value {
            None => false,
            Some(v) => says_false(v@),
        },
{
    match value {
        None => false,
        Some(v) => eq_ignore_case(v.as_str(), "false"),
    }
}

/// The arguments of the run that asks Git which commands a native event runs.
pub fn list_native_hook_args(native_event: &str) -> (r: Vec<String>)
    ensures
        views(r@) == seq!["hook"@, "list"@, "--show-scope"@, native_event@],
{
    let mut r: Vec<String> = Vec::new();
    r.push(owned("hook"));
    r.push(owned("list"));
    r.push(owned("--show-scope"));
    r.push(owned(native_event));
    assert(views(r@) =~= seq!["hook"@, "list"@, "--show-scope"@, native_event@]);
    r
}

/// What Git lists for a native event.
pub fn list_native_hook(output: &GitOutput) -> (r: Result<String, Error>)
    ensures
        output.success ==> (r matches Ok(s) && s@ == output.stdout@),
        !output.success ==> (r matches Err(Error::Git(m)) && m@ == trim(output.stderr@)),
{
    if output.success {
        Ok(output.stdout.clone())
    } else {
        Err(Error::Git(crate::text::trim_str(output.stderr.as_str())))
    }
}

/// The message for a `git config` run that could not set a value.
pub open spec fn set_failure_message(output: GitOutput, key: Seq<char>) -> Seq<char> {
    if trim(output.stderr@).len() == 0 {
        "could not set Git config "@ + key
    } else {
        trim(output.stderr@)
    }
}

/// What setting a value came to.
pub fn set_outcome(output: &GitOutput, key: &str) -> (r: Result<(), Error>)
    ensures
        output.success ==> r is Ok,
        !output.success ==> (r matches Err(Error::Git(m)) && m@ == set_failure_message(
            *output,
            key@,
        )),
{
    if output.success {
        return Ok(());
    }
    let detail = trim_chars(&chars_of(output.stderr.as_str()));
    if detail.len() == 0 {
        Err(Error::Git(concat("could not set Git config ", key)))
    } else {
        Err(Error::Git(string_of(&detail)))
    }
}

/// An unset counts as done when it succeeded or the key was absent.
pub open spec fn unset_done(output: GitOutput) -> bool {
    let err = lower(output.stderr@);
    let detail = lower(trim(output.stderr@));
    ||| output.success
    ||| contains(err, "key does not contain a section"@)
    ||| contains(err, "no such key"@)
    ||| output.code == Some(5i32)
    ||| contains(detail, "not found"@)
    ||| contains(detail, "no such"@)
}

/// What removing a key came to; an absent key is no error.
pub fn unset_outcome(output: &GitOutput) -> (r: Result<(), Error>)
    ensures
        unset_done(*output) ==> r is Ok,
        !unset_done(*output) ==> (r matches Err(Error::Git(m)) && m@ == trim(output.stderr@)),
{
    let err = lower_chars(&chars_of(output.stderr.as_str()));
    let trimmed = trim_chars(&chars_of(output.stderr.as_str()));
    let detail = lower_chars(&trimmed);
    if output.success || chars_contains(&err, &chars_of("key does not contain a section"))
        || chars_contains(&err, &chars_of("no such key")) {
        return Ok(());
    }
    let five = match output.code {
        Some(c) => c == 5,
        None => false,
    };
    if five || chars_contains(&detail, &chars_of("not found")) || chars_contains(
        &detail,
        &chars_of("no such"),
    ) {
        Ok(())
    } else {
        Err(Error::Git(string_of(&trimmed)))
    }
}

/// What a hook invocation does.
#[derive(Clone, Copy, Debug, PartialEq, Eq, Structural)]
pub enum HookRoute {
    /// Play this event.
    Dispatch(EventKind),
    /// Classify the push that Git describes on standard input.
    Push,
    /// Look at the checkout that Git reports.
    Checkout,
    /// Read the reference transaction on standard input.
    Transaction,
    /// Nothing to do.
    Ignore,
}

pub open spec fn route_of(native_event: Seq<char>, args: Seq<Seq<char>>) -> HookRoute {
    if native_event == "post-commit"@ {
        HookRoute::Dispatch(EventKind::Commit)
    } else if native_event == "post-merge"@ {
        HookRoute::Dispatch(EventKind::Merge)
    } else if native_event == "pre-push"@ {
        HookRoute::Push
    } else if native_event == "post-checkout"@ {
        HookRoute::Checkout
    } else if native_event == "reference-transaction"@ {
        HookRoute::Transaction
    } else if native_event == "post-rewrite"@ {
        if args.len() > 0 && args[0] == "rebase"@ {
            HookRoute::Dispatch(EventKind::Rebase)
        } else {
            HookRoute::Ignore
        }
    } else {
        HookRoute::Ignore
    }
}

/// What to do for the native event Git ran, with the arguments it passed.
pub fn route(native_event: &str, args: &Vec<String>) -> (r: HookRoute)
    ensures
        r == route_of(native_event@, views(args@)),
{
    if str_eq(native_event, "post-commit") {
        HookRoute::Dispatch(EventKind::Commit)
    } else if str_eq(native_event, "post-merge") {
        HookRoute::Dispatch(EventKind::Merge)
    } else if str_eq(native_event, "pre-push") {
        HookRoute::Push
    } else if str_eq(native_event, "post-checkout") {
        HookRoute::Checkout
    } else if str_eq(native_event, "reference-transaction") {
        HookRoute::Transaction
    } else if str_eq(native_event, "post-rewrite") {
        if args.len() > 0 && str_eq(args[0].as_str(), "rebase") {
            HookRoute::Dispatch(EventKind::Rebase)
        } else {
            HookRoute::Ignore
        }
    } else {
        HookRoute::Ignore
    }
}

/// The remote a push goes to: Git's first argument, else `origin`.
pub fn push_remote(args: &Vec<String>) -> (r: String)
    ensures
        args@.len() > 0 ==> r@ == args@[0]@,
        args@.len() == 0 ==> r@ == "origin"@,
{
    if args.len() > 0 {
        args[0].clone()
    } else {
        owned("origin")
    }
}

/// The classification used when counting the push failed: an ordinary push.
pub fn push_fallback() -> (r: crate::push::PushClassification)
    ensures
        r == (crate::push::PushClassification { event: EventKind::Push, commit_count: 0 }),
{
    crate::push::PushClassification { event: EventKind::Push, commit_count: 0 }
}

/// A checkout that may sound: a branch checkout (third argument `1`) between
/// two existing commits.
pub open spec fn checkout_counts(args: Seq<Seq<char>>) -> bool {
    args.len() >= 3 && args[2] == "1"@ && !zero_oid(args[0]) && !zero_oid(args[1])
}

pub fn checkout_applies(args: &Vec<String>) -> (r: bool)
    ensures
        r == checkout_counts(views(args@)),
{
    args.len() >= 3 && str_eq(args[2].as_str(), "1") && !is_zero_oid(args[0].as_str())
        && !is_zero_oid(args[1].as_str())
}

/// A branch checkout (third argument `1`) between two commits that exist
/// sounds, whichever the two commits are, the same one or different ones;
/// a file checkout (third argument not `1`) or one from or to a ref that
/// does not exist never does.
pub proof fn lemma_branch_checkout_counts(args: Seq<Seq<char>>)
    ensures
        args.len() >= 3 && args[2] == "1"@ && !zero_oid(args[0]) && !zero_oid(args[1])
            ==> checkout_counts(args),
        checkout_counts(args) ==> args.len() >= 3 && args[2] == "1"@ && !zero_oid(args[0])
            && !zero_oid(args[1]),
        forall|a: Seq<char>, b: Seq<char>|
            !zero_oid(a) && !zero_oid(b) ==> #[trigger] checkout_counts(
                Seq::empty().push(a).push(b).push("1"@),
            ),
{
    assert forall|a: Seq<char>, b: Seq<char>|
        !zero_oid(a) && !zero_oid(b) implies #[trigger] checkout_counts(
            Seq::empty().push(a).push(b).push("1"@),
        ) by {
        let t = Seq::<Seq<char>>::empty().push(a).push(b).push("1"@);
        assert(t[0] == a && t[1] == b && t[2] == "1"@);
    }
}

/// The next step of handling a checkout.
#[derive(Clone, Debug)]
pub enum CheckoutAction {
    /// Stay quiet.
    Ignore,
    /// Claim the pending creation of this branch, then call
    /// [`checkout_after_pending`].
    TakePending { branch: String },
    /// Claim the just-announced marker of this branch, then call
    /// [`checkout_after_recent`].
    TakeRecent { branch: String },
    /// Play the event for this branch.
    Dispatch { event: EventKind, branch: String },
}

/// Once the current branch is known: an empty name stays quiet; when branch
/// creation sounds, a pending creation is looked for first.
pub fn checkout_after_branch(branch: &str, create_enabled: bool) -> (r: CheckoutAction)
    ensures
        branch@.len() == 0 ==> r is Ignore,
        branch@.len() > 0 && create_enabled ==> (r matches CheckoutAction::TakePending { branch: b }
            && b@ == branch@),
        branch@.len() > 0 && !create_enabled ==> (r matches CheckoutAction::Dispatch {
            event,
            branch: b,
        } && event == EventKind::BranchSwitch && b@ == branch@),
{
    let v = chars_of(branch);
    if v.len() == 0 {
        CheckoutAction::Ignore
    } else if create_enabled {
        CheckoutAction::TakePending { branch: owned(branch) }
    } else {
        CheckoutAction::Dispatch { event: EventKind::BranchSwitch, branch: owned(branch) }
    }
}

/// A fresh pending creation makes this checkout the branch's creation;
/// otherwise the just-announced marker is looked for.
pub fn checkout_after_pending(pending: Option<PendingBranch>, branch: &str) -> (r: CheckoutAction)
    ensures
        pending matches Some(p) ==> (r matches CheckoutAction::Dispatch { event, branch: b }
            && event == EventKind::BranchCreate && b@ == p.branch@),
        pending is None ==> (r matches CheckoutAction::TakeRecent { branch: b } && b@ == branch@),
{
    match pending {
        Some(p) => CheckoutAction::Dispatch { event: EventKind::BranchCreate, branch: p.branch },
        None => CheckoutAction::TakeRecent { branch: owned(branch) },
    }
}

/// A checkout right after an announced creation stays quiet; any other is a
/// branch switch.
pub fn checkout_after_recent(recent: bool, branch: &str) -> (r: CheckoutAction)
    ensures
        recent ==> r is Ignore,
        !recent ==> (r matches CheckoutAction::Dispatch { event, branch: b } && event
            == EventKind::BranchSwitch && b@ == branch@),
{
    if recent {
        CheckoutAction::Ignore
    } else {
        CheckoutAction::Dispatch { event: EventKind::BranchSwitch, branch: owned(branch) }
    }
}

/// A reference transaction is read only once it is committed.
pub fn transaction_applies(args: &Vec<String>) -> (r: bool)
    ensures
        r == (args@.len() > 0 && args@[0]@ == "committed"@),
{
    args.len() > 0 && str_eq(args[0].as_str(), "committed")
}

/// A branch that a reference transaction created or deleted.
#[derive(Clone, Debug)]
pub enum BranchChange {
    Created { branch: String, object_id: String },
    Deleted { branch: String },
}

pub enum BranchChangeView {
    Created(Seq<char>, Seq<char>),
    Deleted(Seq<char>),
}

impl View for BranchChange {
    type V = BranchChangeView;

    open spec fn view(&self) -> BranchChangeView {
        match self {
            BranchChange::Created { branch, object_id } => BranchChangeView::Created(
                branch@,
                object_id@,
            ),
            BranchChange::Deleted { branch } => BranchChangeView::Deleted(branch@),
        }
    }
}

/// `s.trim_start_matches(p)`: `s` without every leading copy of `p`.
pub open spec fn strip_prefixes(s: Seq<char>, p: Seq<char>) -> Seq<char>
    decreases s.len(),
{
    if p.len() > 0 && starts_with(s, p) {
        strip_prefixes(s.skip(p.len() as int), p)
    } else {
        s
    }
}

fn strip_prefixes_chars(s: &Vec<char>, p: &Vec<char>) -> (r: Vec<char>)
    ensures
        r@ == strip_prefixes(s@, p@),
{
    let mut cur = s.clone();
    assert(cur@ == s@);
    if p.len() == 0 {
        return cur;
    }
    while chars_starts_with(&cur, p)
        invariant
            p@.len() > 0,
            strip_prefixes(cur@, p@) == strip_prefixes(s@, p@),
        decreases cur@.len(),
    {
        let n = cur.len();
        cur = slice_chars(&cur, p.len(), n);
    }
    cur
}

/// What one line of a committed transaction says about a branch, given
/// whether branch creation sounds.
pub open spec fn line_change(line: Seq<char>, create_enabled: bool) -> Option<BranchChangeView> {
    let w = words(line);
    if w.len() != 3 || !starts_with(w[0], "refs/heads/"@) {
        None
    } else {
        let branch = strip_prefixes(w[0], "refs/heads/"@);
        let old_zero = zero_oid(w[1]);
        let new_zero = zero_oid(w[2]);
        if old_zero && !new_zero && create_enabled {
            Some(BranchChangeView::Created(branch, w[2]))
        } else if !old_zero && new_zero {
            Some(BranchChangeView::Deleted(branch))
        } else {
            None
        }
    }
}

pub open spec fn line_changes(ls: Seq<Seq<char>>, create_enabled: bool) -> Seq<BranchChangeView>
    decreases ls.len(),
{
    if ls.len() == 0 {
        seq![]
    } else {
        match line_change(ls.last(), create_enabled) {
            Some(c) => line_changes(ls.drop_last(), create_enabled).push(c),
            None => line_changes(ls.drop_last(), create_enabled),
        }
    }
}

/// A transaction line `<ref> <old> <new>` on a branch announces a creation
/// exactly when the old id is the zero id and the new one is not (and
/// creation sounds), naming the new id; a deletion exactly when the old id
/// is not zero and the new one is. A line that moves an existing branch
/// from one commit to another announces nothing, and adds nothing to what
/// the other lines announce.
pub proof fn lemma_transaction_line(line: Seq<char>, create_enabled: bool, before: Seq<Seq<char>>)
    ensures
        ({
            let w = words(line);
            let c = line_change(line, create_enabled);
            &&& c matches Some(BranchChangeView::Created(b, o)) ==> create_enabled && w.len() == 3
                && starts_with(w[0], "refs/heads/"@) && zero_oid(w[1]) && !zero_oid(w[2]) && o
                == w[2] && b == strip_prefixes(w[0], "refs/heads/"@)
            &&& c matches Some(BranchChangeView::Deleted(b)) ==> w.len() == 3 && starts_with(
                w[0],
                "refs/heads/"@,
            ) && !zero_oid(w[1]) && zero_oid(w[2]) && b == strip_prefixes(w[0], "refs/heads/"@)
            &&& w.len() == 3 && starts_with(w[0], "refs/heads/"@) && zero_oid(w[1]) && !zero_oid(
                w[2],
            ) && create_enabled ==> c == Some(
                BranchChangeView::Created(strip_prefixes(w[0], "refs/heads/"@), w[2]),
            )
            &&& w.len() == 3 && starts_with(w[0], "refs/heads/"@) && !zero_oid(w[1]) && zero_oid(
                w[2],
            ) ==> c == Some(BranchChangeView::Deleted(strip_prefixes(w[0], "refs/heads/"@)))
            &&& w.len() == 3 && !zero_oid(w[1]) && !zero_oid(w[2]) ==> c is None
            &&& w.len() == 3 && !zero_oid(w[1]) && !zero_oid(w[2]) ==> line_changes(
                before.push(line),
                create_enabled,
            ) == line_changes(before, create_enabled)
        }),
{
    let l = before.push(line);
    assert(l.drop_last() =~= before);
    assert(l.last() == line);
}

/// The branch creations and deletions that the lines of a committed
/// reference transaction announce, in order. A line is read as
/// `<ref> <old oid> <new oid>`; other lines and refs outside `refs/heads/`
/// are skipped.
pub fn branch_changes(input: &str, create_enabled: bool) -> (r: Vec<BranchChange>)
    ensures
        r@.map_values(|c: BranchChange| c@) == line_changes(lines(input@), create_enabled),
{
    let ls = lines_of(input);
    let ghost spec_ls = lines(input@);
    let prefix = chars_of("refs/heads/");
    let mut r: Vec<BranchChange> = Vec::new();
    let mut i: usize = 0;
    while i < ls.len()
        invariant
            i <= ls.len(),
            ls@.len() == spec_ls.len(),
            prefix@ == "refs/heads/"@,
            forall|k: int| 0 <= k < ls@.len() ==> #[trigger] ls@[k]@ == spec_ls[k],
            r@.map_values(|c: BranchChange| c@) == line_changes(spec_ls.take(i as int), create_enabled),
        decreases ls.len() - i,
    {
        assert(spec_ls.take(i + 1).drop_last() =~= spec_ls.take(i as int));
        assert(spec_ls.take(i + 1).last() == ls@[i as int]@);
        let ghost before = r@.map_values(|c: BranchChange| c@);
        let line = string_of(&ls[i]);
        let parts = words_of(line.as_str());
        if parts.len() == 3 && chars_starts_with(&parts[0], &prefix) {
            let branch = strip_prefixes_chars(&parts[0], &prefix);
            let old_zero = is_zero_oid(string_of(&parts[1]).as_str());
            let new_zero = is_zero_oid(string_of(&parts[2]).as_str());
            if old_zero && !new_zero && create_enabled {
                r.push(
                    BranchChange::Created {
                        branch: string_of(&branch),
                        object_id: string_of(&parts[2]),
                    },
                );
                assert(r@.map_values(|c: BranchChange| c@) =~= before.push(
                    BranchChangeView::Created(branch@, parts@[2]@),
                ));
            } else if !old_zero && new_zero {
                r.push(BranchChange::Deleted { branch: string_of(&branch) });
                assert(r@.map_values(|c: BranchChange| c@) =~= before.push(
                    BranchChangeView::Deleted(branch@),
                ));
            }
        }
        i = i + 1;
    }
    assert(spec_ls.take(ls.len() as int) =~= spec_ls);
    r
}

pub const BRANCH_DEDUP_MAX_AGE_MS: u64 = 1_500;

pub const BRANCH_DEDUP_DELAY_MS: u64 = 180;

pub const BRANCH_RECENT_AGE_MS: u64 = 500;


// ---------------------------------------------------------------------------
// What the edits touch
// ---------------------------------------------------------------------------
/// The scope and key of an edit.
pub open spec fn edit_target(e: EditView) -> (Seq<char>, Seq<char>) {
    match e {
        EditView::Assign(scope, key, _, _) => (scope, key),
        EditView::Remove(scope, key) => (scope, key),
    }
}

/// The (scope, key) pairs that `edits` assign a value to.
pub open spec fn assigned(edits: Seq<EditView>) -> Set<(Seq<char>, Seq<char>)> {
    Set::new(
        |t: (Seq<char>, Seq<char>)|
            exists|i: int| 0 <= i < edits.len() && edits[i] is Assign && edit_target(#[trigger] edits[i]) == t,
    )
}

/// The (scope, key) pairs that `edits` remove.
pub open spec fn removed(edits: Seq<EditView>) -> Set<(Seq<char>, Seq<char>)> {
    Set::new(
        |t: (Seq<char>, Seq<char>)|
            exists|i: int| 0 <= i < edits.len() && edits[i] is Remove && edit_target(#[trigger] edits[i]) == t,
    )
}

proof fn lemma_assigned_concat(a: Seq<EditView>, b: Seq<EditView>)
    ensures
        assigned(a + b) == assigned(a).union(assigned(b)),
        removed(a + b) == removed(a).union(removed(b)),
{
    let ab = a + b;
    assert forall|t: (Seq<char>, Seq<char>)| assigned(ab).contains(t) implies assigned(a).union(assigned(b)).contains(t) by {
        let i = choose|i: int| 0 <= i < ab.len() && ab[i] is Assign && edit_target(#[trigger] ab[i]) == t;
        if i < a.len() {
            assert(a[i] == ab[i]);
        } else {
            assert(b[i - a.len()] == ab[i]);
        }
    }
    assert forall|t: (Seq<char>, Seq<char>)| assigned(a).union(assigned(b)).contains(t) implies assigned(ab).contains(t) by {
        if assigned(a).contains(t) {
            let i = choose|i: int| 0 <= i < a.len() && a[i] is Assign && edit_target(#[trigger] a[i]) == t;
            assert(ab[i] == a[i]);
        } else {
            let i = choose|i: int| 0 <= i < b.len() && b[i] is Assign && edit_target(#[trigger] b[i]) == t;
            assert(ab[i + a.len()] == b[i]);
        }
    }
    assert(assigned(ab) =~= assigned(a).union(assigned(b)));
    assert forall|t: (Seq<char>, Seq<char>)| removed(ab).contains(t) implies removed(a).union(removed(b)).contains(t) by {
        let i = choose|i: int| 0 <= i < ab.len() && ab[i] is Remove && edit_target(#[trigger] ab[i]) == t;
        if i < a.len() {
            assert(a[i] == ab[i]);
        } else {
            assert(b[i - a.len()] == ab[i]);
        }
    }
    assert forall|t: (Seq<char>, Seq<char>)| removed(a).union(removed(b)).contains(t) implies removed(ab).contains(t) by {
        if removed(a).contains(t) {
            let i = choose|i: int| 0 <= i < a.len() && a[i] is Remove && edit_target(#[trigger] a[i]) == t;
            assert(ab[i] == a[i]);
        } else {
            let i = choose|i: int| 0 <= i < b.len() && b[i] is Remove && edit_target(#[trigger] b[i]) == t;
            assert(ab[i + a.len()] == b[i]);
        }
    }
    assert(removed(ab) =~= removed(a).union(removed(b)));
}

proof fn lemma_install_remove_pairs(hs: Seq<(Seq<char>, Seq<char>)>, binary: Seq<char>, platform: Platform)
    ensures
        assigned(all_edits(hs, |h: (Seq<char>, Seq<char>)| install_edits(h, binary, platform)))
            == removed(all_edits(hs, |h: (Seq<char>, Seq<char>)| remove_edits(h))),
    decreases hs.len(),
{
    let fi = |h: (Seq<char>, Seq<char>)| install_edits(h, binary, platform);
    let fr = |h: (Seq<char>, Seq<char>)| remove_edits(h);
    if hs.len() > 0 {
        lemma_install_remove_pairs(hs.drop_last(), binary, platform);
        lemma_assigned_concat(all_edits(hs.drop_last(), fi), fi(hs.last()));
        lemma_assigned_concat(all_edits(hs.drop_last(), fr), fr(hs.last()));
        let ie = fi(hs.last());
        let re = fr(hs.last());
        assert forall|t: (Seq<char>, Seq<char>)| assigned(ie).contains(t) <==> removed(re).contains(t) by {
            if assigned(ie).contains(t) {
                let i = choose|i: int| 0 <= i < ie.len() && ie[i] is Assign && edit_target(#[trigger] ie[i]) == t;
                assert(re[i - 3] is Remove && edit_target(re[i - 3]) == t);
            }
            if removed(re).contains(t) {
                let i = choose|i: int| 0 <= i < re.len() && re[i] is Remove && edit_target(#[trigger] re[i]) == t;
                assert(ie[i + 3] is Assign && edit_target(ie[i + 3]) == t);
            }
        }
        assert(assigned(ie) =~= removed(re));
    } else {
        assert(assigned(Seq::<EditView>::empty()) =~= Set::empty());
        assert(removed(Seq::<EditView>::empty()) =~= Set::empty());
    }
}

/// Uninstalling removes every global entry that setup writes: the keys that
/// [`install_global`] assigns are exactly the keys that [`remove_global`]
/// removes.
pub proof fn lemma_remove_undoes_install(binary: Seq<char>, platform: Platform)
    ensures
        assigned(all_edits(hook_specs(), |h: (Seq<char>, Seq<char>)| install_edits(h, binary, platform)))
            == removed(all_edits(hook_specs(), |h: (Seq<char>, Seq<char>)| remove_edits(h))),
{
    lemma_install_remove_pairs(hook_specs(), binary, platform);
}

proof fn lemma_disable_enable_pairs(hs: Seq<(Seq<char>, Seq<char>)>)
    ensures
        assigned(all_edits(hs, |h: (Seq<char>, Seq<char>)| disable_edit(h)))
            == removed(all_edits(hs, |h: (Seq<char>, Seq<char>)| enable_edit(h))),
    decreases hs.len(),
{
    let fd = |h: (Seq<char>, Seq<char>)| disable_edit(h);
    let fe = |h: (Seq<char>, Seq<char>)| enable_edit(h);
    if hs.len() > 0 {
        lemma_disable_enable_pairs(hs.drop_last());
        lemma_assigned_concat(all_edits(hs.drop_last(), fd), fd(hs.last()));
        lemma_assigned_concat(all_edits(hs.drop_last(), fe), fe(hs.last()));
        let de = fd(hs.last());
        let ee = fe(hs.last());
        assert forall|t: (Seq<char>, Seq<char>)| assigned(de).contains(t) <==> removed(ee).contains(t) by {
            if assigned(de).contains(t) {
                let i = choose|i: int| 0 <= i < de.len() && de[i] is Assign && edit_target(#[trigger] de[i]) == t;
                assert(ee[i] is Remove && edit_target(ee[i]) == t);
            }
            if removed(ee).contains(t) {
                let i = choose|i: int| 0 <= i < ee.len() && ee[i] is Remove && edit_target(#[trigger] ee[i]) == t;
                assert(de[i] is Assign && edit_target(de[i]) == t);
            }
        }
        assert(assigned(de) =~= removed(ee));
    } else {
        assert(assigned(Seq::<EditView>::empty()) =~= Set::empty());
        assert(removed(Seq::<EditView>::empty()) =~= Set::empty());
    }
}

/// `on-here` takes back exactly what `off-here` wrote: the local keys that
/// [`disable_here`] assigns are exactly the keys that [`enable_here`] removes.
pub proof fn lemma_enable_undoes_disable()
    ensures
        assigned(all_edits(hook_specs(), |h: (Seq<char>, Seq<char>)| disable_edit(h)))
            == removed(all_edits(hook_specs(), |h: (Seq<char>, Seq<char>)| enable_edit(h))),
{
    lemma_disable_enable_pairs(hook_specs());
}

/// Every edit of `edits` is in `scope` on a key of one of GitSama's own
/// hooks (`hook.gitsama-...`).
pub open spec fn only_hook_keys(edits: Seq<EditView>, scope: Seq<char>) -> bool {
    forall|i: int|
        0 <= i < edits.len() ==> (#[trigger] edit_target(edits[i])).0 == scope && starts_with(
            edit_target(edits[i]).1,
            "hook.gitsama-"@,
        )
}

pub(crate) proof fn lemma_hook_key_prefix(f: Seq<char>, field: Seq<char>)
    requires
        starts_with(f, "gitsama-"@),
    ensures
        starts_with(hook_key(f, field), "hook.gitsama-"@),
{
    reveal_strlit("hook.");
    reveal_strlit("gitsama-");
    reveal_strlit("hook.gitsama-");
    reveal_strlit(".");
    let k = hook_key(f, field);
    assert(k =~= "hook."@ + f + "."@ + field);
    assert forall|i: int| 0 <= i < 13 implies k[i] == "hook.gitsama-"@[i] by {
        if i >= 5 {
            assert(k[i] == f[i - 5]);
            assert(f[i - 5] == "gitsama-"@[i - 5]);
        }
    }
    assert(k.take(13) =~= "hook.gitsama-"@);
}

proof fn lemma_only_hook_keys(
    hs: Seq<(Seq<char>, Seq<char>)>,
    f: spec_fn((Seq<char>, Seq<char>)) -> Seq<EditView>,
    scope: Seq<char>,
)
    requires
        forall|i: int| 0 <= i < hs.len() ==> only_hook_keys(f(#[trigger] hs[i]), scope),
    ensures
        only_hook_keys(all_edits(hs, f), scope),
    decreases hs.len(),
{
    if hs.len() > 0 {
        let d = hs.drop_last();
        assert forall|i: int| 0 <= i < d.len() implies only_hook_keys(f(#[trigger] d[i]), scope) by {
            assert(d[i] == hs[i]);
        }
        assert(only_hook_keys(f(hs[hs.len() - 1]), scope));
        lemma_only_hook_keys(d, f, scope);
        let a = all_edits(hs.drop_last(), f);
        let b = f(hs.last());
        assert(only_hook_keys(b, scope));
        assert forall|i: int| 0 <= i < (a + b).len() implies (#[trigger] edit_target((a + b)[i])).0 == scope
            && starts_with(edit_target((a + b)[i]).1, "hook.gitsama-"@) by {
            if i < a.len() {
                assert((a + b)[i] == a[i]);
                assert(edit_target(a[i]).0 == scope);
            } else {
                assert((a + b)[i] == b[i - a.len()]);
                assert(edit_target(b[i - a.len()]).0 == scope);
            }
        }
    }
}

/// Setup and uninstall edit only the global keys of GitSama's own hooks (so
/// `core.hooksPath` and other hooks stay as they are), and `off-here` and
/// `on-here` edit only the repository's local keys of GitSama's hooks.
pub proof fn lemma_edits_stay_in_scope(binary: Seq<char>, platform: Platform)
    ensures
        only_hook_keys(
            all_edits(hook_specs(), |h: (Seq<char>, Seq<char>)| install_edits(h, binary, platform)),
            "--global"@,
        ),
        only_hook_keys(all_edits(hook_specs(), |h: (Seq<char>, Seq<char>)| remove_edits(h)), "--global"@),
        only_hook_keys(all_edits(hook_specs(), |h: (Seq<char>, Seq<char>)| disable_edit(h)), "--local"@),
        only_hook_keys(all_edits(hook_specs(), |h: (Seq<char>, Seq<char>)| enable_edit(h)), "--local"@),
{
    let fi = |h: (Seq<char>, Seq<char>)| install_edits(h, binary, platform);
    let fr = |h: (Seq<char>, Seq<char>)| remove_edits(h);
    let fd = |h: (Seq<char>, Seq<char>)| disable_edit(h);
    let fe = |h: (Seq<char>, Seq<char>)| enable_edit(h);
    let hs = hook_specs();
    lemma_one_hook_per_native_event();
    assert forall|i: int| 0 <= i < hs.len() implies {
        &&& only_hook_keys(fi(#[trigger] hs[i]), "--global"@)
        &&& only_hook_keys(fr(hs[i]), "--global"@)
        &&& only_hook_keys(fd(hs[i]), "--local"@)
        &&& only_hook_keys(fe(hs[i]), "--local"@)
    } by {
        assert(starts_with(hs[i].0, "gitsama-"@));
        lemma_hook_key_prefix(hs[i].0, "event"@);
        lemma_hook_key_prefix(hs[i].0, "command"@);
        lemma_hook_key_prefix(hs[i].0, "enabled"@);
    }
    lemma_only_hook_keys(hook_specs(), fi, "--global"@);
    lemma_only_hook_keys(hook_specs(), fr, "--global"@);
    lemma_only_hook_keys(hook_specs(), fd, "--local"@);
    lemma_only_hook_keys(hook_specs(), fe, "--local"@);
}

/// There is one named hook for each native event: six hooks, no two for
/// the same event, every name GitSama's own (`gitsama-` prefix).
pub proof fn lemma_one_hook_per_native_event()
    ensures
        hook_specs().len() == 6,
        forall|i: int, j: int|
            0 <= i < j < 6 ==> (#[trigger] hook_specs()[i]).1 != (#[trigger] hook_specs()[j]).1,
        forall|i: int| 0 <= i < 6 ==> starts_with((#[trigger] hook_specs()[i]).0, "gitsama-"@),
{
    reveal_strlit("gitsama-");
    reveal_strlit("gitsama-post-commit");
    reveal_strlit("gitsama-pre-push");
    reveal_strlit("gitsama-post-merge");
    reveal_strlit("gitsama-post-checkout");
    reveal_strlit("gitsama-reference-transaction");
    reveal_strlit("gitsama-post-rewrite");
    reveal_strlit("post-commit");
    reveal_strlit("pre-push");
    reveal_strlit("post-merge");
    reveal_strlit("post-checkout");
    reveal_strlit("reference-transaction");
    reveal_strlit("post-rewrite");
    let hs = hook_specs();
    assert forall|i: int, j: int| 0 <= i < j < 6 implies (#[trigger] hs[i]).1 != (#[trigger] hs[j]).1 by {
        if hs[i].1.len() == hs[j].1.len() {
            assert(hs[i].1[5] != hs[j].1[5]);
        }
    }
    assert forall|i: int| 0 <= i < 6 implies starts_with((#[trigger] hs[i]).0, "gitsama-"@) by {
        assert(hs[i].0.take(8) =~= "gitsama-"@);
    }
}

} // verus!
