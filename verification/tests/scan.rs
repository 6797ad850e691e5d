use obsidian_vault_grouper::scan::{
    file_record, has_packable_extension, is_listed_extension, screen_entry, to_unix_path,
    walk_warning, walks_entry,
};
use obsidian_vault_grouper::{build_glob_set, PACKABLE_EXTENSIONS};
use std::path::PathBuf;

#[test]
fn packable_extensions() {
    assert_eq!(PACKABLE_EXTENSIONS.len(), 38);
    for extension in PACKABLE_EXTENSIONS {
        assert!(has_packable_extension(extension));
        assert!(has_packable_extension(&extension.to_uppercase()));
    }
    assert!(has_packable_extension("Md"));
    assert!(is_listed_extension("md"));
    assert!(!is_listed_extension("Md"));
    assert!(has_packable_extension("MAR\u{212a}DOWN"));
    for extension in ["", "png", "m", "mdx", ".md", " md", "rst "] {
        assert!(!has_packable_extension(extension));
    }
}

#[test]
fn hidden_entries_are_left_out() {
    assert!(!walks_entry(Some(".obsidian"), false));
    assert!(!walks_entry(Some("."), false));
    assert!(walks_entry(Some(".obsidian"), true));
    assert!(walks_entry(Some("notes"), false));
    assert!(walks_entry(Some("a.b"), false));
    assert!(walks_entry(Some(""), false));
    assert!(walks_entry(None, false));
    assert!(walks_entry(None, true));
}

#[test]
fn failed_entries_are_warned_of() {
    assert_eq!(
        walk_warning("IO error: the path does not exist", Some("C:\\deep")),
        "Warning: Cannot traverse path (likely exceeds Windows MAX_PATH): C:\\deep"
    );
    assert_eq!(
        walk_warning("path too long", None),
        "Warning: Cannot traverse path (likely exceeds Windows MAX_PATH): "
    );
    assert_eq!(
        walk_warning("permission denied", Some("x")),
        "Warning: Skipping unreadable entry during scan: permission denied"
    );
}

#[test]
fn paths_take_slashes() {
    assert_eq!(to_unix_path("a\\b\\\\c.md"), "a/b//c.md");
    assert_eq!(to_unix_path("a/b.md"), "a/b.md");
    assert!(!to_unix_path("\\\u{e9}\\").contains('\\'));
}

#[test]
fn entries_are_screened() {
    let set = build_glob_set(&["drafts/**".to_string()]).unwrap();
    let all = None;
    let some = set.as_ref();
    assert_eq!(screen_entry(true, Some("MD"), Some("a\\b.MD"), all), Some("a/b.MD".to_string()));
    assert_eq!(screen_entry(false, Some("md"), Some("b.md"), all), None);
    assert_eq!(screen_entry(true, None, Some("b"), all), None);
    assert_eq!(screen_entry(true, Some("png"), Some("b.png"), all), None);
    assert_eq!(screen_entry(true, Some("md"), None, all), None);
    assert_eq!(screen_entry(true, Some("md"), Some("drafts\\b.md"), some), None);
    assert_eq!(screen_entry(true, Some("md"), Some("b.md"), some), Some("b.md".to_string()));
}

#[test]
fn files_are_recorded() {
    let record = |secs| file_record(PathBuf::from("/v/a.md"), "a.md".to_string(), 12, secs);
    let file = record(Some(1_700_000_000));
    assert_eq!(file.abs, PathBuf::from("/v/a.md"));
    assert_eq!(file.rel_unix, "a.md");
    assert_eq!(file.size, 12);
    assert_eq!(file.mtime, 1_700_000_000);
    assert_eq!(record(None).mtime, 0);
    assert_eq!(record(Some(i64::MAX as u64)).mtime, i64::MAX);
    assert_eq!(record(Some(1 << 63)).mtime, i64::MIN);
    assert_eq!(record(Some(u64::MAX)).mtime, -1);
}
