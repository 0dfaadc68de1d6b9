use gitsama::cli::{
    dashboard_state, menu_answer, parse_threshold, parse_volume, set_threshold, set_volume, status_state,
    test_selection, yes_no_answer, TestSelection,
};
use gitsama::events::EventKind;

#[test]
fn numeric_settings_are_bounded() {
    assert!(parse_volume("80").is_ok());
    assert!(parse_volume("101").is_err());
    assert!(parse_threshold("1").is_ok());
    assert!(parse_threshold("0").is_err());
}

#[test]
fn numeric_settings_read_like_rust_numbers() {
    assert_eq!(parse_volume(" 35 ").unwrap(), 35);
    assert_eq!(parse_volume("+7").unwrap(), 7);
    assert!(parse_volume("-1").is_err());
    assert!(parse_volume("256").is_err());
    assert!(parse_volume("").is_err());
    assert_eq!(parse_threshold("4294967295").unwrap(), u32::MAX);
    assert!(parse_threshold("4294967296").is_err());
}

#[test]
fn volume_and_threshold_errors_name_the_rule() {
    let message = |r: gitsama::error::Error| r.display();
    assert_eq!(message(parse_volume("x").unwrap_err()), "volume must be a number from 0 to 100");
    assert_eq!(message(parse_volume("101").unwrap_err()), "volume must be between 0 and 100");
    assert_eq!(
        message(parse_threshold("-3").unwrap_err()),
        "massive push threshold must be a positive number"
    );
    assert_eq!(
        message(parse_threshold("0").unwrap_err()),
        "massive push threshold must be at least 1"
    );
    assert!(set_volume(101).is_err());
    assert_eq!(set_volume(100).unwrap(), 100);
    assert!(set_threshold(0).is_err());
    assert_eq!(set_threshold(25).unwrap(), 25);
}

#[test]
fn yes_no_answers_default_when_empty() {
    assert!(yes_no_answer("", true));
    assert!(!yes_no_answer("", false));
    assert!(yes_no_answer("Yes", false));
    assert!(!yes_no_answer("no", true));
}

#[test]
fn test_selection_reads_all_numbers_and_names() {
    assert_eq!(test_selection("ALL").unwrap(), TestSelection::All);
    assert_eq!(test_selection("1").unwrap(), TestSelection::One(EventKind::Commit));
    assert_eq!(test_selection("8").unwrap(), TestSelection::One(EventKind::Rebase));
    assert_eq!(
        test_selection("massive-push").unwrap(),
        TestSelection::One(EventKind::MassivePush)
    );
    assert!(test_selection("9").is_err());
    assert!(test_selection("0").is_err());
}

#[test]
fn state_lines_follow_the_settings() {
    assert_eq!(status_state(true, true, false, 6, 6), "disabled in this repository");
    assert_eq!(status_state(false, false, false, 6, 6), "muted");
    assert_eq!(status_state(false, true, true, 6, 6), "muted");
    assert_eq!(status_state(false, true, false, 3, 6), "not set up");
    assert_eq!(status_state(false, true, false, 6, 6), "globally enabled");
    assert_eq!(dashboard_state(false, true), "MUTED");
    assert_eq!(dashboard_state(true, true), "DISABLED HERE");
    assert_eq!(dashboard_state(true, false), "ON");
}

#[test]
fn test_menu_answers() {
    assert_eq!(menu_answer("Q"), None);
    assert_eq!(menu_answer("9"), Some("all".to_owned()));
    assert_eq!(menu_answer("3"), Some("3".to_owned()));
    assert_eq!(menu_answer("merge"), Some("merge".to_owned()));
}
