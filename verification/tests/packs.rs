use gitsama::events::EventKind;
use gitsama::packs::{
    check_audio_extension, find, is_valid_id, remove, safe_relative_path, scaffold, slugify,
    sort_by_name, starter_file_name, starter_manifest, starter_tones, summary, tone_header,
    validate_manifest, Pack, PackManifest, PACK_SCHEMA_VERSION,
};
use gitsama::paths::{components_of, starts_with_path, AppPaths};
use gitsama::platform::Platform;

fn manifest(path: &str) -> PackManifest {
    PackManifest {
        schema_version: PACK_SCHEMA_VERSION,
        id: "sample".to_owned(),
        name: "Sample".to_owned(),
        author: "Tester".to_owned(),
        version: "1.0.0".to_owned(),
        description: "Test".to_owned(),
        license: "test".to_owned(),
        events: vec![("commit".to_owned(), vec![path.to_owned()])],
    }
}

fn insert(events: &mut Vec<(String, Vec<String>)>, key: &str) {
    events.push((key.to_owned(), vec![]));
    events.sort_by(|a, b| a.0.cmp(&b.0));
}

fn remove_key(events: &mut Vec<(String, Vec<String>)>, key: &str) {
    events.retain(|(k, _)| k != key);
}

#[test]
fn validates_safe_paths_and_rejects_traversal() {
    assert!(safe_relative_path("audio/commit.wav", Platform::Unix).is_ok());
    assert!(safe_relative_path("../outside.wav", Platform::Unix).is_err());
    assert!(safe_relative_path("/absolute.wav", Platform::Unix).is_err());
    assert!(safe_relative_path("", Platform::Unix).is_err());
}

#[test]
fn rejects_unknown_events_and_future_schema() {
    let mut value = manifest("audio/commit.wav");
    insert(&mut value.events, "status");
    assert!(validate_manifest(&value).is_err());
    remove_key(&mut value.events, "status");
    insert(&mut value.events, "branch-create");
    assert!(validate_manifest(&value).is_err());
    remove_key(&mut value.events, "branch-create");
    value.schema_version = PACK_SCHEMA_VERSION + 1;
    assert!(validate_manifest(&value).is_err());
}

#[test]
fn slugifies_pack_names() {
    assert_eq!(slugify("Pain Arc"), "pain-arc");
    assert_eq!(slugify("  My__Pack  "), "my__pack");
    assert_eq!(
        EventKind::parse("branch-create").expect("event"),
        EventKind::BranchCreate
    );
}

#[test]
fn scaffold_rejects_an_empty_name() {
    assert!(scaffold(" ", "/tmp/packs", Platform::Unix).is_err());
}

#[test]
fn resolves_multiple_files_and_massive_push_fallback() {
    let mut pack = Pack { root: "/tmp/pack".to_owned(), manifest: manifest("audio/push-1.wav") };
    pack.manifest.events = vec![(
        "push".to_owned(),
        vec!["audio/push-1.wav".to_owned(), "audio/push-2.wav".to_owned()],
    )];
    let (resolved, path) = pack.resolve(EventKind::MassivePush, Platform::Unix).expect("push fallback");
    assert_eq!(resolved, EventKind::Push);
    assert!(path.ends_with("push-1.wav") || path.ends_with("push-2.wav"));
    assert!(pack.resolve(EventKind::Merge, Platform::Unix).is_none());
}

#[test]
fn valid_manifest_passes_and_errors_name_the_field() {
    assert!(validate_manifest(&manifest("audio/commit.wav")).is_ok());
    let mut value = manifest("audio/commit.wav");
    value.author = " ".to_owned();
    assert_eq!(validate_manifest(&value).unwrap_err().display(), "invalid pack: author cannot be empty");
    let mut value = manifest("audio/commit.wav");
    value.schema_version = 2;
    assert_eq!(
        validate_manifest(&value).unwrap_err().display(),
        "invalid pack: schema 2 is unsupported; this build supports schema 1"
    );
    let mut value = manifest("audio/commit.wav");
    value.events = vec![("Commit".to_owned(), vec![])];
    assert_eq!(
        validate_manifest(&value).unwrap_err().display(),
        "invalid pack: event 'Commit' must use the canonical name 'commit'"
    );
    value.events = vec![("status".to_owned(), vec![])];
    assert_eq!(validate_manifest(&value).unwrap_err().display(), "unknown GitSama event 'status'");
}

#[test]
fn ids_follow_the_rules() {
    assert!(is_valid_id("my-pack_2"));
    assert!(!is_valid_id("-pack"));
    assert!(!is_valid_id("My"));
    assert!(!is_valid_id(""));
    assert!(is_valid_id(&"a".repeat(64)));
    assert!(!is_valid_id(&"a".repeat(65)));
    let paths = AppPaths::from_root("/home/u/.gitsama".to_owned(), Platform::Unix);
    assert_eq!(find(&paths, "naruto").unwrap(), "/home/u/.gitsama/packs/naruto");
    assert!(find(&paths, "../x").is_err());
    assert!(remove(&paths, "starter").is_err());
    assert_eq!(remove(&paths, "mine").unwrap(), "/home/u/.gitsama/packs/mine");
}

#[test]
fn files_are_found_under_the_root() {
    let pack = Pack { root: "/p".to_owned(), manifest: manifest("audio/c.wav") };
    assert_eq!(pack.files_for(EventKind::Commit, Platform::Unix), vec!["/p/audio/c.wav".to_owned()]);
    assert!(pack.files_for(EventKind::Push, Platform::Unix).is_empty());
    let s = summary(&pack);
    assert_eq!((s.id.as_str(), s.root.as_str(), s.valid), ("sample", "/p", true));
}

#[test]
fn audio_extensions() {
    assert!(check_audio_extension("/p/audio/a.WAV", "audio/a.WAV", Platform::Unix).is_ok());
    assert!(check_audio_extension("/p/audio/a.flac", "audio/a.flac", Platform::Unix).is_ok());
    assert_eq!(
        check_audio_extension("/p/audio/commit.exe", "audio/commit.exe", Platform::Unix).unwrap_err().display(),
        "invalid pack: unsupported audio extension '.exe' for audio/commit.exe"
    );
    assert_eq!(
        check_audio_extension("/p/audio/.wav", "audio/.wav", Platform::Unix).unwrap_err().display(),
        "invalid pack: unsupported audio extension '.' for audio/.wav"
    );
}

#[test]
fn scaffold_and_starter_manifests_are_valid() {
    let made = scaffold("My Custom Pack", "./packs", Platform::Unix).unwrap();
    assert_eq!(made.id, "my-custom-pack");
    assert_eq!(made.root, "./packs/my-custom-pack");
    assert_eq!(made.manifest.name, "My Custom Pack");
    assert_eq!(made.manifest.events.len(), 8);
    assert!(made.manifest.events.iter().all(|(_, files)| files.is_empty()));
    assert!(made.readme.contains("gitsama use my-custom-pack"));
    assert!(validate_manifest(&made.manifest).is_ok());
    let starter = starter_manifest();
    assert!(validate_manifest(&starter).is_ok());
    assert_eq!(starter.events[4], ("massive_push".to_owned(), vec!["audio/massive-push.wav".to_owned()]));
    assert_eq!(starter_file_name(EventKind::BranchSwitch), "branch-switch.wav");
    assert_eq!(slugify("!!!"), "pack");
}

#[test]
fn starter_tone_headers_describe_the_samples() {
    let (header, samples) = tone_header(180);
    assert_eq!(samples, 7938);
    assert_eq!(header.len(), 44);
    assert_eq!(&header[0..4], b"RIFF");
    assert_eq!(&header[4..8], &(36u32 + 2 * 7938).to_le_bytes());
    assert_eq!(&header[8..16], b"WAVEfmt ");
    assert_eq!(&header[16..20], &16u32.to_le_bytes());
    assert_eq!(&header[20..24], &[1, 0, 1, 0]);
    assert_eq!(&header[24..28], &44_100u32.to_le_bytes());
    assert_eq!(&header[28..32], &88_200u32.to_le_bytes());
    assert_eq!(&header[32..36], &[2, 0, 16, 0]);
    assert_eq!(&header[36..40], b"data");
    assert_eq!(&header[40..44], &(2u32 * 7938).to_le_bytes());
    assert_eq!(starter_tones().len(), 8);
    assert_eq!(starter_tones()[2], (EventKind::MassivePush, 659, 320));
}

#[test]
fn installed_packs_are_listed_by_name() {
    let named = |name: &str| {
        let mut m = manifest("audio/commit.wav");
        m.name = name.to_owned();
        Pack { root: format!("/p/{name}"), manifest: m }
    };
    let sorted = sort_by_name(vec![named("Naruto"), named("Starter"), named("Bleach"), named("Aa")]);
    let names: Vec<&str> = sorted.iter().map(|p| p.manifest.name.as_str()).collect();
    assert_eq!(names, vec!["Aa", "Bleach", "Naruto", "Starter"]);
    let sorted = sort_by_name(vec![named("b"), named("B"), named("ab"), named("a")]);
    let names: Vec<&str> = sorted.iter().map(|p| p.manifest.name.as_str()).collect();
    assert_eq!(names, vec!["B", "a", "ab", "b"]);
    assert!(sort_by_name(Vec::new()).is_empty());
}

#[test]
fn pack_directories_stay_inside_the_packs_directory() {
    let paths = AppPaths::from_root("/home/u/.gitsama".to_owned(), Platform::Unix);
    let dir = find(&paths, "my-pack").unwrap();
    assert_eq!(dir, "/home/u/.gitsama/packs/my-pack");
    assert!(starts_with_path(&dir, &paths.packs));
    assert_eq!(components_of(&dir).len(), components_of(&paths.packs).len() + 1);
    assert!(find(&paths, "../evil").is_err());
    assert!(remove(&paths, "a/b").is_err());
}

#[test]
fn windows_audio_paths_follow_windows_rules() {
    let w = Platform::Windows;
    assert!(safe_relative_path(r"audio\commit.wav", w).is_ok());
    assert!(safe_relative_path("audio/./commit.wav", w).is_ok());
    assert_eq!(
        safe_relative_path(r"..\x.wav", w).unwrap_err().display(),
        r"invalid pack: unsafe audio path: ..\x.wav"
    );
    assert_eq!(
        safe_relative_path("C:x.wav", w).unwrap_err().display(),
        "invalid pack: unsafe audio path: C:x.wav"
    );
    assert_eq!(
        safe_relative_path(r"\x.wav", w).unwrap_err().display(),
        r"invalid pack: unsafe audio path: \x.wav"
    );
    assert_eq!(
        safe_relative_path(r"C:\x.wav", w).unwrap_err().display(),
        r"invalid pack: audio path must be relative: C:\x.wav"
    );
    assert_eq!(
        safe_relative_path(r"\\server\share\x.wav", w).unwrap_err().display(),
        r"invalid pack: audio path must be relative: \\server\share\x.wav"
    );
    assert_eq!(
        safe_relative_path(r"\\?\C:\x.wav", w).unwrap_err().display(),
        r"invalid pack: audio path must be relative: \\?\C:\x.wav"
    );
    assert!(safe_relative_path(r"\\x", w).unwrap_err().display().contains("unsafe"));
    // On POSIX a backslash is an ordinary character.
    assert!(safe_relative_path(r"..\x.wav", Platform::Unix).is_ok());
    assert!(check_audio_extension(r"C:\p.d\audio\a.WAV", "a", w).is_ok());
    assert!(check_audio_extension(r"C:\p.d\audio\file", "a", w).is_err());
    assert!(check_audio_extension(r"/p.d/audio\file", "a", Platform::Unix).is_err());
}

#[test]
fn slugs_settle_after_one_pass() {
    for name in ["Pain Arc", "--Sage Mode--", "  My__Pack  ", "!!!", "a - b", "Ünïcode pack-"] {
        let slug = slugify(name);
        assert!(!slug.is_empty());
        assert!(!slug.starts_with('-') && !slug.ends_with('-'));
        assert_eq!(slugify(&slug), slug);
    }
    assert_eq!(slugify("--Sage Mode--"), "sage-mode");
    let made = scaffold("Ordered", "./packs", Platform::Unix).unwrap();
    let keys: Vec<&String> = made.manifest.events.iter().map(|(key, _)| key).collect();
    assert!(keys.windows(2).all(|pair| pair[0] < pair[1]));
    let starter = starter_manifest();
    assert!(starter.events.windows(2).all(|pair| pair[0].0 < pair[1].0));
}

#[test]
fn packs_with_the_same_name_keep_their_order() {
    let at = |name: &str, root: &str| {
        let mut m = manifest("audio/commit.wav");
        m.name = name.to_owned();
        Pack { root: root.to_owned(), manifest: m }
    };
    let sorted = sort_by_name(vec![
        at("Same", "/p/third"),
        at("Other", "/p/other"),
        at("Same", "/p/first"),
        at("Same", "/p/second"),
    ]);
    let roots: Vec<&str> = sorted.iter().map(|p| p.root.as_str()).collect();
    assert_eq!(roots, vec!["/p/other", "/p/third", "/p/first", "/p/second"]);
}
