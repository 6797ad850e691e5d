use obsidian_vault_grouper::order::newest_first;
use obsidian_vault_grouper::{plan_packs, MdFile};
use std::path::PathBuf;

fn modified(abs: &str, rel: &str, mtime: i64) -> MdFile {
    MdFile { abs: PathBuf::from(abs), rel_unix: rel.to_string(), size: 0, mtime }
}

fn rels(files: &[MdFile]) -> Vec<&str> {
    files.iter().map(|f| f.rel_unix.as_str()).collect()
}

#[test]
fn newer_files_come_first() {
    let sorted = newest_first(vec![
        modified("", "old.md", -5),
        modified("", "new.md", 90),
        modified("", "mid.md", 0),
    ]);
    assert_eq!(rels(&sorted), vec!["new.md", "mid.md", "old.md"]);
    assert!(newest_first(Vec::new()).is_empty());
}

#[test]
fn files_of_one_time_go_by_path() {
    let paths = ["b.md", "\u{e9}.md", "a/b.md", "Z.md", "a.md", "", "\u{1f600}", "\u{ffff}", "a"];
    let sorted = newest_first(paths.iter().map(|p| modified("", p, 7)).collect());
    let mut expected = paths.to_vec();
    expected.sort();
    assert_eq!(rels(&sorted), expected);
    assert_eq!(expected, vec!["", "Z.md", "a", "a.md", "a/b.md", "b.md", "\u{e9}.md", "\u{ffff}", "\u{1f600}"]);
}

#[test]
fn equal_files_keep_their_order() {
    let sorted = newest_first(vec![
        modified("first", "same.md", 3),
        modified("other", "other.md", 4),
        modified("second", "same.md", 3),
        modified("third", "same.md", 3),
    ]);
    let abs: Vec<String> = sorted.iter().map(|f| f.abs.display().to_string()).collect();
    assert_eq!(abs, vec!["other", "first", "second", "third"]);
}

#[test]
fn order_does_not_depend_on_the_start() {
    let a = newest_first(vec![modified("", "x", 1), modified("", "y", 2), modified("", "z", 1)]);
    let b = newest_first(vec![modified("", "z", 1), modified("", "x", 1), modified("", "y", 2)]);
    assert_eq!(rels(&a), rels(&b));
    assert_eq!(rels(&a), vec!["y", "x", "z"]);
}

#[test]
fn packs_go_from_new_to_old() {
    let files = newest_first((0..50).map(|i| modified("", "f", i * 37 % 50)).collect());
    let plan = plan_packs(&files, 2000);
    assert_eq!(plan.boundaries.len(), 10);
    for pair in plan.boundaries.windows(2) {
        let oldest = files[pair[0].1 - 1].mtime;
        let newest = files[pair[1].0].mtime;
        assert!(oldest >= newest);
    }
}

#[test]
fn filtering_and_ordering_commute() {
    let files = || {
        vec![
            modified("1", "b.md", 3),
            modified("2", "a.md", 9),
            modified("3", "b.md", 3),
            modified("4", "c.md", 3),
            modified("5", "a.md", 1),
        ]
    };
    let keep = |f: &MdFile| f.rel_unix != "c.md" && f.mtime < 9;
    let mut after = newest_first(files());
    after.retain(keep);
    let mut kept = files();
    kept.retain(keep);
    let before = newest_first(kept);
    let abs = |files: &[MdFile]| -> Vec<PathBuf> { files.iter().map(|f| f.abs.clone()).collect() };
    assert_eq!(abs(&before), abs(&after));
    assert_eq!(abs(&after), vec![PathBuf::from("1"), PathBuf::from("3"), PathBuf::from("5")]);
}
