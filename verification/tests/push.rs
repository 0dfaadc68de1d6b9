use gitsama::events::EventKind;
use gitsama::git;
use gitsama::push::{
    classify, classify_count, local_branch_tips, parse_line, parse_stdin, remote_tracking_tips,
    PushRef,
};

fn ref_line(local: &str, remote: &str) -> String {
    format!("refs/heads/main {} refs/heads/main {remote}", local)
}

#[test]
fn parses_push_stdin_and_deletions() {
    let parsed = parse_line(&ref_line(&"a".repeat(40), &"b".repeat(40))).expect("line");
    assert!(parsed.is_branch());
    assert!(!parsed.is_deleted());

    let deleted = parse_line(&ref_line(&"0".repeat(40), &"b".repeat(40))).expect("line");
    assert!(deleted.is_deleted());
    assert!(parse_stdin("").expect("empty").is_empty());
    assert!(parse_line("too short").is_err());
}

#[test]
fn threshold_is_inclusive() {
    assert_eq!(classify_count(49, 50).event, EventKind::Push);
    assert_eq!(classify_count(50, 50).event, EventKind::MassivePush);
    assert_eq!(classify_count(51, 50).event, EventKind::MassivePush);
}

#[test]
fn zero_oid_is_shared_with_git_helpers() {
    assert!(git::is_zero_oid(&"0".repeat(40)));
}

#[test]
fn stdin_skips_blank_lines_and_reports_the_first_bad_line() {
    let a = "a".repeat(40);
    let b = "b".repeat(40);
    let text = format!("\n{}\n   \n{}\n", ref_line(&a, &b), ref_line(&b, &a));
    let refs = parse_stdin(&text).unwrap();
    assert_eq!(refs.len(), 2);
    assert_eq!(refs[1].local_object_id, b);
    let bad = format!("{}\none two\nx\n", ref_line(&a, &b));
    assert_eq!(
        parse_stdin(&bad).unwrap_err().display(),
        "pre-push ref line should have four fields, got 2"
    );
}

fn push_ref(local_ref: &str, local: &str, remote: &str) -> PushRef {
    PushRef {
        local_ref: local_ref.to_owned(),
        local_object_id: local.to_owned(),
        remote_ref: "refs/heads/main".to_owned(),
        remote_object_id: remote.to_owned(),
    }
}

#[test]
fn counting_runs_rev_list_per_branch_and_counts_each_commit_once() {
    let a = "a".repeat(40);
    let z = "0".repeat(40);
    let refs = vec![
        push_ref("refs/heads/main", &a, &"b".repeat(40)),
        push_ref("refs/tags/v1", &a, &z),
        push_ref("refs/heads/gone", &z, &a),
        push_ref("refs/heads/feature", &"c".repeat(40), &z),
    ];
    assert!(classify(refs.clone(), 0).is_err());
    let mut counter = classify(refs, 3).unwrap();
    let exclusions = vec!["e1".to_owned(), "e2".to_owned()];
    let first = counter.next_rev_list(&exclusions).unwrap();
    assert_eq!(first, vec!["rev-list".to_owned(), a.clone(), "--not".to_owned(), "b".repeat(40)]);
    assert!(counter.observe("c1\n"));
    assert!(counter.observe("c2"));
    assert!(counter.observe("c1"));
    assert!(counter.observe("   "));
    assert_eq!(counter.commit_count(), 2);
    assert!(counter.reached().is_none());
    let second = counter.next_rev_list(&exclusions).unwrap();
    assert_eq!(
        second,
        vec![
            "rev-list".to_owned(),
            "c".repeat(40),
            "--not".to_owned(),
            "e1".to_owned(),
            "e2".to_owned()
        ]
    );
    assert!(!counter.observe("c3"));
    let reached = counter.reached().unwrap();
    assert_eq!((reached.event, reached.commit_count), (EventKind::MassivePush, 3));
    assert!(counter.next_rev_list(&exclusions).is_none());
    assert_eq!(counter.finish().event, EventKind::MassivePush);
}

#[test]
fn tips_are_read_from_for_each_ref() {
    assert_eq!(remote_tracking_tips("x\n\n y \n"), vec!["x".to_owned(), "y".to_owned()]);
    let pushed = vec![push_ref("refs/heads/main", "x", "0")];
    assert_eq!(local_branch_tips("x\ny\n", &pushed), vec!["y".to_owned()]);
}
