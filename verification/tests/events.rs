use gitsama::events::EventKind;

#[test]
fn event_names_read_back() {
    for event in EventKind::all() {
        assert_eq!(EventKind::parse(event.as_str()).unwrap(), event);
        assert_eq!(EventKind::from_name(event.as_str()), Some(event));
    }
    assert_eq!(EventKind::all().len(), 8);
}

#[test]
fn parse_ignores_case_space_and_dashes() {
    assert_eq!(EventKind::parse("  Branch-Create\n").unwrap(), EventKind::BranchCreate);
    assert_eq!(EventKind::parse("MASSIVE_PUSH").unwrap(), EventKind::MassivePush);
    let error = EventKind::parse("status").unwrap_err();
    assert_eq!(error.display(), "unknown GitSama event 'status'");
}

#[test]
fn labels_and_push_kinds() {
    assert_eq!(EventKind::MassivePush.label(), "Massive Push");
    assert_eq!(EventKind::BranchSwitch.as_str(), "branch_switch");
    assert!(EventKind::Push.is_push());
    assert!(EventKind::MassivePush.is_push());
    assert!(!EventKind::Merge.is_push());
}
