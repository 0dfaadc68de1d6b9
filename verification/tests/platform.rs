use gitsama::platform::{
    executable_name, git_ancestor_of, installed_binary, parent_git_pid, normalize_windows_path, path_separator, reg_path_of,
    remove_path_markers, schedule_cleanup, shell_quote, windows_cmd_quote, windows_path_edit,
    Platform, WindowsPathEdit,
};
use gitsama::paths::AppPaths;

#[test]
fn quotes_paths_with_spaces() {
    let quoted = shell_quote("/tmp/Git Sama/bin/gitsama", Platform::Unix);
    assert!(quoted.starts_with('\''));
    assert!(quoted.contains("Git Sama"));
    let quoted = shell_quote(r"C:\Git Sama\bin\gitsama.exe", Platform::Windows);
    assert!(quoted.starts_with('\''));
    assert!(quoted.contains("Git Sama"));
}

#[test]
fn quotes_single_quotes_and_shell_metacharacters() {
    assert_eq!(
        shell_quote("/tmp/O'Reilly/$HOME `name`/gitsama", Platform::Unix),
        "'/tmp/O'\\''Reilly/$HOME `name`/gitsama'"
    );
}

#[test]
fn normalizes_verbatim_drive_and_unc_paths_for_git_shell() {
    assert_eq!(
        shell_quote(r"\\?\C:\Git Sama\bin\gitsama.exe", Platform::Windows),
        "'C:/Git Sama/bin/gitsama.exe'"
    );
    assert_eq!(
        shell_quote(r"\\?\UNC\server\share\Git Sama\gitsama.exe", Platform::Windows),
        "'//server/share/Git Sama/gitsama.exe'"
    );
}

#[test]
fn platform_names_and_paths() {
    assert_eq!(executable_name(Platform::Unix), "gitsama");
    assert_eq!(executable_name(Platform::Windows), "gitsama.exe");
    assert_eq!(path_separator(Platform::Windows), ';');
    let paths = AppPaths::from_root("/home/u/.gitsama".to_owned(), Platform::Unix);
    assert_eq!(installed_binary(&paths, Platform::Unix), "/home/u/.gitsama/bin/gitsama");
    assert_eq!(normalize_windows_path(r"C:/Users/Me/.gitsama/bin\\"), r"c:\users\me\.gitsama\bin");
    assert_eq!(windows_cmd_quote(r#"C:\a "b"\c"#), r#""C:\a \"b\"\c""#);
}

#[test]
fn removes_profile_markers_and_their_path_line() {
    let text = "export A=1\n# GitSama PATH\nexport PATH=\"/h/.gitsama/bin:$PATH\"\nexport B=2\n";
    assert_eq!(
        remove_path_markers(text, "/h/.gitsama/bin"),
        Some("export A=1\nexport B=2\n".to_owned())
    );
    // A marker whose next line does not name the directory leaves that line.
    assert_eq!(
        remove_path_markers("  # GitSama PATH  \nexport C=3", "/h/.gitsama/bin"),
        Some("export C=3".to_owned())
    );
    assert_eq!(remove_path_markers("export A=1\n", "/h/.gitsama/bin"), None);
}

#[test]
fn cleanup_commands_for_each_platform() {
    let unix = schedule_cleanup(Platform::Unix, "/h/.gitsama/bin/gitsama", Some("/h/.gitsama"));
    assert_eq!(unix.program, "sh");
    assert_eq!(
        unix.args,
        vec![
            "-c".to_owned(),
            "sleep 1; rm -f -- \"$1\"; rm -rf -- \"$2\"".to_owned(),
            "gitsama-cleanup".to_owned(),
            "/h/.gitsama/bin/gitsama".to_owned(),
            "/h/.gitsama".to_owned(),
        ]
    );
    let unix = schedule_cleanup(Platform::Unix, "/x/gitsama", None);
    assert_eq!(unix.args.len(), 4);
    assert_eq!(unix.args[1], "sleep 1; rm -f -- \"$1\"");
    let win = schedule_cleanup(Platform::Windows, r"C:\g\gitsama.exe", Some(r"C:\g"));
    assert_eq!(win.program, "cmd.exe");
    assert_eq!(
        win.args,
        vec![
            "/C".to_owned(),
            r#"cd /d "%TEMP%" >nul 2>nul & timeout /t 1 /nobreak >nul & del /f /q "C:\g\gitsama.exe" & rmdir /s /q "C:\g""#
                .to_owned(),
        ]
    );
}

#[test]
fn reads_the_user_path_from_reg_output() {
    let output = "\r\nHKEY_CURRENT_USER\\Environment\r\n    Path    REG_EXPAND_SZ    C:\\a;C:\\Users\\Me\\.gitsama\\bin  \r\n\r\n";
    assert_eq!(
        reg_path_of(output),
        Some(r"C:\a;C:\Users\Me\.gitsama\bin".to_owned())
    );
    assert_eq!(reg_path_of("nothing here\n"), None);
    assert_eq!(reg_path_of("Path REG_SZ"), None);
}

#[test]
fn edits_the_windows_path_value() {
    let bin = r"C:\Users\Me\.gitsama\bin";
    match windows_path_edit(r"C:\a; c:/users/me/.gitsama/bin\ ;;C:\b", bin) {
        WindowsPathEdit::Replace(v) => assert_eq!(v, r"C:\a;C:\b"),
        other => panic!("unexpected edit {other:?}"),
    }
    assert!(matches!(windows_path_edit(r"C:\a;C:\b", bin), WindowsPathEdit::Unchanged));
    assert!(matches!(
        windows_path_edit(r"C:\Users\Me\.gitsama\bin;", bin),
        WindowsPathEdit::Delete
    ));
}

#[test]
fn finds_the_git_process_behind_a_hook() {
    assert_eq!(parent_git_pid("4242"), Some(4242));
    assert_eq!(parent_git_pid("1"), None);
    assert_eq!(parent_git_pid("0"), None);
    assert_eq!(parent_git_pid("+7"), Some(7));
    assert_eq!(parent_git_pid(" 7"), None);
    assert_eq!(parent_git_pid("4294967296"), None);
    let table = vec![(10, 9, false), (9, 8, false), (8, 7, true), (7, 1, false)];
    assert_eq!(git_ancestor_of(&table, 10), Some(8));
    assert_eq!(git_ancestor_of(&table, 8), Some(8));
    assert_eq!(git_ancestor_of(&table, 7), None);
    assert_eq!(git_ancestor_of(&table, 99), None);
    let chain: Vec<(u32, u32, bool)> = (1..=20).map(|i| (i, i + 1, i == 20)).collect();
    assert_eq!(git_ancestor_of(&chain, 5), Some(20));
    assert_eq!(git_ancestor_of(&chain, 4), None);
}

// A POSIX shell reading the word: quotes removed, `\'` kept as a quote.
fn unquote(word: &str) -> String {
    let mut out = String::new();
    let mut quoted = false;
    let mut chars = word.chars();
    while let Some(c) = chars.next() {
        match (quoted, c) {
            (_, '\'') => quoted = !quoted,
            (false, '\\') => out.push(chars.next().unwrap()),
            (_, c) => out.push(c),
        }
    }
    out
}

#[test]
fn quoted_paths_read_back_in_a_posix_shell() {
    for path in ["/tmp/O'Reilly/$HOME `name`/gitsama", "''", "/a b/c"] {
        assert_eq!(unquote(&shell_quote(path, Platform::Unix)), path);
    }
}

#[test]
fn removing_path_entries_twice_changes_nothing_more() {
    let text = "a\r\n# GitSama PATH\r\nexport PATH=\"/h/bin:$PATH\"\r\n  # GitSama PATH\n\nb";
    let once = remove_path_markers(text, "/h/bin").expect("markers found");
    assert_eq!(once, "a\n\nb");
    assert_eq!(remove_path_markers(&once, "/h/bin"), None);

    let bin = r"C:\Users\Me\.gitsama\bin";
    let value = match windows_path_edit(r" C:\a ;C:\Users\Me\.gitsama\bin\;; C:\b", bin) {
        WindowsPathEdit::Replace(v) => v,
        other => panic!("unexpected edit {other:?}"),
    };
    assert_eq!(value, r"C:\a;C:\b");
    assert!(matches!(windows_path_edit(&value, bin), WindowsPathEdit::Unchanged));
}
