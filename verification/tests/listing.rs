use globset::GlobSet;
use obsidian_vault_grouper::globs::is_excluded;
use obsidian_vault_grouper::listing::{list_files, meets_entry, Entry};
use obsidian_vault_grouper::scan::{file_record, to_unix_path};
use obsidian_vault_grouper::{build_glob_set, MdFile};
use std::path::PathBuf;

const PATHS: [(&str, u64); 9] = [
    ("notes/a.md", 5),
    (".obsidian/app.json", 9),
    ("notes/.draft.md", 7),
    ("z.md", 5),
    ("image.png", 8),
    ("notes/old/b.TXT", 1),
    ("a.b/c.md", 3),
    ("notes/.x/y.md", 6),
    ("dot./d.md", 2),
];

fn entry(rel: &str, modified: u64) -> Entry {
    Entry {
        names: rel.split(['/', '\\']).map(|name| Some(name.to_string())).collect(),
        is_file: true,
        extension: rel.rsplit_once('.').map(|(_, e)| e.to_string()),
        rel: Some(rel.to_string()),
        record: Some(file_record(PathBuf::from(rel), to_unix_path(rel), 1, Some(modified))),
    }
}

fn scan(include_hidden: bool, exclude_globs: Option<&GlobSet>) -> Vec<MdFile> {
    let entries = PATHS.iter().map(|&(rel, modified)| entry(rel, modified)).collect();
    list_files(Some("vault"), entries, include_hidden, exclude_globs)
}

fn rels(files: &[MdFile]) -> Vec<&str> {
    files.iter().map(|f| f.rel_unix.as_str()).collect()
}

#[test]
fn scans_list_packable_files_newest_first() {
    assert_eq!(
        rels(&scan(true, None)),
        vec![
            ".obsidian/app.json",
            "notes/.draft.md",
            "notes/.x/y.md",
            "notes/a.md",
            "z.md",
            "a.b/c.md",
            "dot./d.md",
            "notes/old/b.TXT",
        ]
    );
}

#[test]
fn scans_leave_out_what_is_no_file_or_was_not_read() {
    let mut directory = entry("d.md", 1);
    directory.is_file = false;
    let mut unread = entry("u.md", 2);
    unread.record = None;
    let mut outside = entry("o.md", 3);
    outside.rel = None;
    let mut bare = entry("b.md", 4);
    bare.extension = None;
    let entries = vec![directory, unread, outside, bare, entry("x\\y.md", 5)];
    assert_eq!(rels(&list_files(None, entries, false, None)), vec!["x/y.md"]);
}

#[test]
fn hidden_roots_hide_everything() {
    assert!(list_files(Some(".vault"), vec![entry("a.md", 1)], false, None).is_empty());
    assert_eq!(list_files(Some(".vault"), vec![entry("a.md", 1)], true, None).len(), 1);
}

#[test]
fn every_name_on_the_way_counts() {
    assert!(meets_entry(None, &entry("a/b/c.md", 1), false));
    assert!(!meets_entry(None, &entry("a/.b/c.md", 1), false));
    assert!(meets_entry(None, &entry("a/.b/c.md", 1), true));
    let mut odd = entry("a.md", 1);
    odd.names.push(None);
    assert!(meets_entry(Some("v"), &odd, false));
    assert!(!meets_entry(Some(".v"), &odd, false));
}

#[test]
fn patterns_only_filter_a_scan() {
    for patterns in [["notes/**", "z.md"], ["notes\\old/*", "**/*.md"]] {
        let patterns: Vec<String> = patterns.iter().map(|p| p.to_string()).collect();
        let set = build_glob_set(&patterns).unwrap();
        for include_hidden in [false, true] {
            let mut all = scan(include_hidden, None);
            let kept = scan(include_hidden, set.as_ref());
            all.retain(|f| !is_excluded(set.as_ref(), &f.rel_unix));
            assert_eq!(rels(&kept), rels(&all));
        }
    }
    let set = build_glob_set(&["notes/**".to_string(), "z.md".to_string()]).unwrap();
    assert_eq!(rels(&scan(false, set.as_ref())), vec!["a.b/c.md", "dot./d.md"]);
}

#[test]
fn hidden_names_only_filter_a_scan() {
    let mut all = scan(true, None);
    let kept = scan(false, None);
    assert_eq!(all.len(), 8);
    all.retain(|f| !f.rel_unix.split('/').any(|name| name.starts_with('.')));
    assert_eq!(rels(&kept), rels(&all));
    assert_eq!(
        rels(&kept),
        vec!["notes/a.md", "z.md", "a.b/c.md", "dot./d.md", "notes/old/b.TXT"]
    );
}
