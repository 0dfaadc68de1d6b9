use gitsama::platform::Platform;
use gitsama::git::{
    checked, config_value, config_values, current_branch, git_dir, is_zero_oid, require_supported,
    version, GitOutput, GitVersion,
};

fn output(success: bool, stdout: &str, stderr: &str) -> GitOutput {
    GitOutput {
        success,
        code: Some(if success { 0 } else { 1 }),
        status: if success { "exit status: 0".to_owned() } else { "exit status: 1".to_owned() },
        stdout: stdout.to_owned(),
        stderr: stderr.to_owned(),
    }
}

#[test]
fn parses_windows_and_release_versions() {
    let version = GitVersion::parse("git version 2.55.1.windows.1").expect("version");
    assert_eq!(version.short(), "2.55.1.windows.1");
    assert!(version.is_supported());

    let old = GitVersion::parse("git version 2.53.9").expect("version");
    assert!(!old.is_supported());
}

#[test]
fn recognizes_zero_object_ids() {
    assert!(is_zero_oid(&"0".repeat(40)));
    assert!(is_zero_oid(&"0".repeat(64)));
    assert!(!is_zero_oid("0000abc"));
    assert!(!is_zero_oid(""));
}

#[test]
fn version_fields_are_split_as_git_prints_them() {
    let v = GitVersion::parse("git version 2.54.0\n").unwrap();
    assert_eq!((v.major, v.minor, v.patch, v.suffix.as_str()), (2, 54, 0, ""));
    assert!(v.is_supported());
    let v = GitVersion::parse("git version 3.0").unwrap();
    assert_eq!((v.major, v.minor, v.patch, v.suffix.as_str()), (3, 0, 0, ""));
    assert_eq!(v.short(), "3.0.0");
    let v = GitVersion::parse("2.45.rc1").unwrap();
    assert_eq!((v.patch, v.suffix.as_str()), (0, "rc1"));
    assert!(!v.is_supported());
    let v = GitVersion::parse("git version 2.54.99999999999999999999x").unwrap();
    assert_eq!((v.patch, v.suffix.as_str()), (0, "x"));
}

#[test]
fn version_errors() {
    assert_eq!(
        GitVersion::parse("git version").unwrap_err().display(),
        "could not run Git: Git did not report a version"
    );
    assert_eq!(
        GitVersion::parse("git version 2").unwrap_err().display(),
        "could not run Git: could not parse Git version from 'git version 2'"
    );
    assert!(GitVersion::parse("2.x.1").is_err());
}

#[test]
fn version_runs_are_checked() {
    let ok = output(true, "git version 2.55.0\n", "");
    assert_eq!(version(&ok).unwrap().short(), "2.55.0");
    assert!(require_supported(&ok).is_ok());
    let old = output(true, "git version 2.40.1\n", "");
    assert_eq!(
        require_supported(&old).unwrap_err().display(),
        "GitSama requires Git 2.54 or newer (detected 2.40.1)"
    );
    let failed = output(false, "", " boom \n");
    assert_eq!(version(&failed).unwrap_err().display(), "could not run Git: boom");
}

#[test]
fn failed_runs_report_stderr_or_status() {
    assert_eq!(checked(&output(true, "out\n", "")).unwrap(), "out\n");
    assert_eq!(
        checked(&output(false, "", "  ")).unwrap_err().display(),
        "could not run Git: Git exited with exit status: 1"
    );
    assert_eq!(
        current_branch(&output(false, "", "fatal: not a branch\n")).unwrap_err().display(),
        "could not run Git: fatal: not a branch"
    );
    assert_eq!(current_branch(&output(true, "main\n", "")).unwrap(), "main");
}

#[test]
fn config_values_are_trimmed_lines() {
    assert_eq!(config_value(&output(true, " post-commit\n", "")), Some("post-commit".to_owned()));
    assert_eq!(config_value(&output(false, "", "")), None);
    assert_eq!(
        config_values(&output(true, "a\n\n  b \r\n", "")),
        vec!["a".to_owned(), "b".to_owned()]
    );
    assert!(config_values(&output(false, "a\n", "")).is_empty());
}

#[test]
fn git_dir_is_taken_from_the_working_directory() {
    assert_eq!(git_dir(&output(true, ".git\n", ""), "/work/repo", Platform::Unix).unwrap(), "/work/repo/.git");
    assert_eq!(git_dir(&output(true, "/abs/.git\n", ""), "/work/repo", Platform::Unix).unwrap(), "/abs/.git");
    assert_eq!(
        git_dir(&output(false, "", "fatal: not a git repository\n"), "/w", Platform::Unix).unwrap_err().display(),
        "could not run Git: fatal: not a git repository"
    );
}

#[test]
fn short_versions_read_back() {
    for text in ["git version 2.55.1.windows.1", "2.54.0", "git version 10.0.7-rc2"] {
        let v = GitVersion::parse(text).unwrap();
        assert_eq!(GitVersion::parse(&v.short()).unwrap(), v);
    }
}
