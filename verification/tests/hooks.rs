use gitsama::events::EventKind;
use gitsama::git::GitOutput;
use gitsama::hooks::{
    branch_changes, checkout_after_branch, checkout_after_pending, checkout_after_recent,
    checkout_applies, disable_here, enable_here, global_is_enabled, global_is_registered, hooks,
    install_global, local_is_disabled, push_remote, remove_global, route, set_outcome,
    transaction_applies, unset_outcome, BranchChange, CheckoutAction, ConfigEdit, HookRoute,
};
use gitsama::platform::{shell_quote, Platform};
use gitsama::state::PendingBranch;

fn strings(values: &[&str]) -> Vec<String> {
    values.iter().map(|v| v.to_string()).collect()
}

fn failed(code: Option<i32>, stderr: &str) -> GitOutput {
    GitOutput {
        success: false,
        code,
        status: "exit status: 1".to_owned(),
        stdout: String::new(),
        stderr: stderr.to_owned(),
    }
}

#[test]
fn has_one_named_hook_for_each_native_event() {
    let hooks = hooks();
    assert_eq!(hooks.len(), 6);
    assert!(hooks.iter().all(|hook| hook.friendly_name.starts_with("gitsama-")));
}

#[test]
fn command_is_safe_for_spaced_paths() {
    let path = shell_quote("/Users/name/Git Sama/gitsama", Platform::Unix);
    let command = format!("{path} hook pre-push");
    assert!(command.contains("hook pre-push"));
    assert!(command.contains("Git Sama"));
}

#[test]
fn install_writes_six_edits_per_hook() {
    let edits = install_global("/opt/Git Sama/gitsama", Platform::Unix);
    assert_eq!(edits.len(), 36);
    assert_eq!(
        edits[0].args(),
        strings(&["config", "--global", "--unset-all", "hook.gitsama-post-commit.event"])
    );
    assert_eq!(
        edits[3].args(),
        strings(&["config", "--global", "--add", "hook.gitsama-post-commit.event", "post-commit"])
    );
    assert_eq!(
        edits[4].args(),
        strings(&[
            "config",
            "--global",
            "hook.gitsama-post-commit.command",
            "'/opt/Git Sama/gitsama' hook post-commit"
        ])
    );
    assert_eq!(
        edits[5].args(),
        strings(&["config", "--global", "hook.gitsama-post-commit.enabled", "true"])
    );
    assert!(edits.iter().all(|edit| match edit {
        ConfigEdit::Assign { key, .. } | ConfigEdit::Remove { key, .. } => key.starts_with("hook."),
    }));
}

#[test]
fn remove_and_local_switches_touch_only_hook_keys() {
    let removed = remove_global();
    assert_eq!(removed.len(), 18);
    assert!(removed.iter().all(|e| matches!(e, ConfigEdit::Remove { scope, .. } if scope == "--global")));
    let off = disable_here();
    assert_eq!(off.len(), 6);
    assert_eq!(
        off[1].args(),
        strings(&["config", "--local", "hook.gitsama-pre-push.enabled", "false"])
    );
    let on = enable_here();
    assert_eq!(
        on[1].args(),
        strings(&["config", "--local", "--unset-all", "hook.gitsama-pre-push.enabled"])
    );
}

#[test]
fn registration_and_switches_are_read_from_git_config() {
    let hook = hooks()[1];
    assert!(global_is_registered(hook, &strings(&["pre-push"]), &Some("cmd".to_owned())));
    assert!(!global_is_registered(hook, &strings(&["post-commit"]), &Some("cmd".to_owned())));
    assert!(!global_is_registered(hook, &strings(&["pre-push"]), &None));
    assert!(global_is_enabled(&None));
    assert!(!global_is_enabled(&Some("FALSE".to_owned())));
    assert!(global_is_enabled(&Some("true".to_owned())));
    assert!(local_is_disabled(&Some("False".to_owned())));
    assert!(!local_is_disabled(&None));
}

#[test]
fn absent_keys_are_not_an_unset_failure() {
    assert!(unset_outcome(&failed(Some(5), "")).is_ok());
    assert!(unset_outcome(&failed(Some(1), "error: No such section or key")).is_ok());
    assert!(unset_outcome(&failed(Some(1), "error: key does not contain a section: x")).is_ok());
    assert_eq!(
        unset_outcome(&failed(Some(1), " permission denied\n")).unwrap_err().display(),
        "could not run Git: permission denied"
    );
    assert_eq!(
        set_outcome(&failed(Some(1), ""), "hook.x.enabled").unwrap_err().display(),
        "could not run Git: could not set Git config hook.x.enabled"
    );
}

#[test]
fn native_events_route_to_actions() {
    assert_eq!(route("post-commit", &vec![]), HookRoute::Dispatch(EventKind::Commit));
    assert_eq!(route("post-merge", &strings(&["0"])), HookRoute::Dispatch(EventKind::Merge));
    assert_eq!(route("pre-push", &vec![]), HookRoute::Push);
    assert_eq!(route("post-checkout", &vec![]), HookRoute::Checkout);
    assert_eq!(route("reference-transaction", &vec![]), HookRoute::Transaction);
    assert_eq!(route("post-rewrite", &strings(&["rebase"])), HookRoute::Dispatch(EventKind::Rebase));
    assert_eq!(route("post-rewrite", &strings(&["amend"])), HookRoute::Ignore);
    assert_eq!(route("pre-commit", &vec![]), HookRoute::Ignore);
    assert_eq!(push_remote(&vec![]), "origin");
    assert_eq!(push_remote(&strings(&["upstream", "url"])), "upstream");
}

#[test]
fn checkout_decisions() {
    let a = "a".repeat(40);
    let z = "0".repeat(40);
    assert!(checkout_applies(&strings(&[&a, &a, "1"])));
    assert!(!checkout_applies(&strings(&[&a, &a, "0"])));
    assert!(!checkout_applies(&strings(&[&z, &a, "1"])));
    assert!(!checkout_applies(&strings(&[&a, &a])));
    assert!(matches!(checkout_after_branch("", true), CheckoutAction::Ignore));
    assert!(matches!(checkout_after_branch("main", true), CheckoutAction::TakePending { .. }));
    assert!(matches!(
        checkout_after_branch("main", false),
        CheckoutAction::Dispatch { event: EventKind::BranchSwitch, .. }
    ));
    let pending = PendingBranch {
        repository: "repo".to_owned(),
        branch: "feature".to_owned(),
        object_id: "abc".to_owned(),
        created_at_ms: 1,
    };
    match checkout_after_pending(Some(pending), "feature") {
        CheckoutAction::Dispatch { event, branch } => {
            assert_eq!(event, EventKind::BranchCreate);
            assert_eq!(branch, "feature");
        }
        _ => panic!("expected a branch creation"),
    }
    assert!(matches!(checkout_after_pending(None, "x"), CheckoutAction::TakeRecent { .. }));
    assert!(matches!(checkout_after_recent(true, "x"), CheckoutAction::Ignore));
}

#[test]
fn transactions_announce_created_and_deleted_branches() {
    let a = "a".repeat(40);
    let z = "0".repeat(40);
    assert!(transaction_applies(&strings(&["committed"])));
    assert!(!transaction_applies(&strings(&["prepared"])));
    let input = format!(
        "refs/heads/feature {z} {a}\nrefs/heads/old {a} {z}\nrefs/tags/v1 {z} {a}\nbad line\nrefs/heads/same {a} {a}\n"
    );
    let changes = branch_changes(&input, true);
    assert_eq!(changes.len(), 2);
    match &changes[0] {
        BranchChange::Created { branch, object_id } => {
            assert_eq!(branch, "feature");
            assert_eq!(object_id, &a);
        }
        _ => panic!("expected a creation"),
    }
    match &changes[1] {
        BranchChange::Deleted { branch } => assert_eq!(branch, "old"),
        _ => panic!("expected a deletion"),
    }
    let quiet = branch_changes(&input, false);
    assert_eq!(quiet.len(), 1);
}
