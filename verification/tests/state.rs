use gitsama::platform::Platform;
use gitsama::paths::AppPaths;
use gitsama::state::{
    expired, fresh_pending, mark_recent, pending_path, recent_applies, recent_path, stable_key,
    PendingBranch,
};

#[test]
fn keys_are_fnv1a_in_hex() {
    assert_eq!(stable_key(""), "cbf29ce484222325");
    assert_eq!(stable_key("a"), "af63dc4c8601ec8c");
    assert_eq!(stable_key("a").len(), 16);
}

#[test]
fn state_paths_are_scoped_to_repository_and_branch() {
    let paths = AppPaths::from_root("/h/.gitsama".to_owned(), Platform::Unix);
    let a = pending_path(&paths, "repo-a", "main");
    let b = pending_path(&paths, "repo-b", "main");
    let c = pending_path(&paths, "repo-a", "feature");
    assert!(a.starts_with("/h/.gitsama/state/pending-") && a.ends_with(".json"));
    assert_ne!(a, b);
    assert_ne!(a, c);
    assert_eq!(a, pending_path(&paths, "repo-a", "main"));
    assert!(recent_path(&paths, "repo-a", "main").starts_with("/h/.gitsama/state/recent-"));
}

#[test]
fn pending_state_expires() {
    let pending = PendingBranch {
        repository: "repo".to_owned(),
        branch: "old".to_owned(),
        object_id: "abc".to_owned(),
        created_at_ms: 0,
    };
    assert!(fresh_pending(pending.clone(), 1, 2).is_none());
    assert!(fresh_pending(pending, 5000, 10).is_some());
    assert!(!expired(100, 10, 50));
    assert!(expired(0, 10, 11));
    assert!(!expired(0, 10, 10));
}

#[test]
fn recent_markers_apply_to_their_branch_until_they_expire() {
    let recent = mark_recent("main", 1000, 500);
    assert_eq!(recent.expires_at_ms, 1500);
    assert!(recent_applies(&recent, "main", 1500));
    assert!(!recent_applies(&recent, "main", 1501));
    assert!(!recent_applies(&recent, "feature", 1000));
}

#[test]
fn state_files_stay_directly_in_the_state_directory() {
    let paths = AppPaths::from_root("/h/.gitsama".to_owned(), Platform::Unix);
    for (repo, branch) in [("/r/.git", "feature/x"), ("../..", "../../etc"), ("", "")] {
        for path in [pending_path(&paths, repo, branch), recent_path(&paths, repo, branch)] {
            assert!(path.starts_with("/h/.gitsama/state/"));
            assert_eq!(path.matches('/').count(), 4);
        }
    }
}
