use gitsama::platform::Platform;
use gitsama::logging::{log_line, needs_rotation};
use gitsama::paths::{join, starts_with_path, AppPaths};

#[test]
fn layout_under_the_root() {
    let paths = AppPaths::from_root("/home/u/.gitsama".to_owned(), Platform::Unix);
    assert_eq!(paths.config, "/home/u/.gitsama/config.toml");
    assert_eq!(paths.log, "/home/u/.gitsama/logs/gitsama.log");
    assert_eq!(paths.bin, "/home/u/.gitsama/bin");
    assert!(paths.contains(&paths.state));
    for inside in [&paths.config, &paths.packs, &paths.logs, &paths.log, &paths.bin] {
        assert!(paths.contains(inside));
    }
    let relative = AppPaths::from_root("data".to_owned(), Platform::Unix);
    assert!(relative.contains(&relative.log));
    assert!(paths.contains("/home/u/.gitsama/./packs/x/"));
    assert!(!paths.contains("/home/u/.gitsamax"));
    assert!(!paths.contains("/home"));
}

#[test]
fn joining_and_prefixes_follow_posix_paths() {
    assert_eq!(join("a/", "b", Platform::Unix), "a/b");
    assert_eq!(join("", "b", Platform::Unix), "b");
    assert_eq!(join("a", "/b", Platform::Unix), "/b");
    assert!(starts_with_path("/a/b/c", "/a//b/"));
    assert!(!starts_with_path("a/b", "/a"));
    assert!(starts_with_path("./a/b", "."));
}

#[test]
fn log_lines_and_rotation() {
    assert_eq!(log_line(42, "hello"), "42 hello");
    assert!(!needs_rotation(256 * 1024 - 1));
    assert!(needs_rotation(256 * 1024));
}

#[test]
fn windows_paths_join_by_windows_rules() {
    let w = Platform::Windows;
    assert_eq!(join(r"C:\Users\u", "packs", w), r"C:\Users\u\packs");
    assert_eq!(join(r"C:\x\", "a", w), r"C:\x\a");
    assert_eq!(join("C:/x", "a/b", w), r"C:/x\a/b");
    assert_eq!(join("C:", "a", w), "C:a");
    assert_eq!(join("", "a", w), "a");
    assert_eq!(join(r"C:\x", r"D:\y", w), r"D:\y");
    assert_eq!(join(r"C:\x", "D:y", w), "D:y");
    assert_eq!(join(r"C:\x", r"\\server\share\f", w), r"\\server\share\f");
    assert_eq!(join(r"C:\x", r"\y", w), r"C:\y");
    assert_eq!(join(r"\\server\share\x", "/y", w), r"\\server\share/y");
    assert_eq!(join("x", "/y", w), "/y");
    assert_eq!(join(r"\\?\C:\x", "a/./b/../c", w), r"\\?\C:\x\a\c");
    assert_eq!(join(r"\\?\C:\", "..", w), r"\\?\C:\");
    assert_eq!(join(r"\\?\C:\x", r"\y", w), r"\\?\C:\y");
    let paths = AppPaths::from_root(r"C:\Users\u\.gitsama".to_owned(), w);
    assert_eq!(paths.log, r"C:\Users\u\.gitsama\logs\gitsama.log");
    assert_eq!(paths.packs, r"C:\Users\u\.gitsama\packs");
}
