use obsidian_vault_grouper::order::newest_first;
use obsidian_vault_grouper::summary::{summarize_pack, summary_line};
use obsidian_vault_grouper::MdFile;
use std::path::PathBuf;

fn file(size: u64, mtime: i64) -> MdFile {
    MdFile { abs: PathBuf::new(), rel_unix: "f.md".to_string(), size, mtime }
}

#[test]
fn packs_are_summed_up() {
    let files = vec![file(1, 172_800), file(20, 86_400), file(300, 0)];
    let summary = summarize_pack(&files, 0, 2).unwrap();
    assert_eq!(summary.files, 2);
    assert_eq!(summary.raw_bytes, 21);
    assert_eq!((summary.newest, summary.oldest), (172_800, 86_400));
    assert_eq!(
        summary_line(3, &summary),
        "  Pack 0003: 2 files, 21 raw content bytes, mtime span [1970-01-02 00:00:00 UTC to 1970-01-03 00:00:00 UTC]"
    );
}

#[test]
fn empty_packs_span_nothing() {
    let summary = summarize_pack(&[file(1, 9)], 1, 1).unwrap();
    assert_eq!((summary.files, summary.raw_bytes), (0, 0));
    assert_eq!((summary.newest, summary.oldest), (0, 0));
}

#[test]
fn sums_beyond_the_range_are_refused() {
    let files = vec![file(u64::MAX, 0), file(1, 0)];
    assert!(summarize_pack(&files, 0, 2).is_none());
    assert_eq!(summarize_pack(&files, 0, 1).unwrap().raw_bytes, u64::MAX);
}

#[test]
fn spans_hold_every_time() {
    let files = newest_first(vec![file(0, 3), file(0, 9), file(0, -4), file(0, 9)]);
    let summary = summarize_pack(&files, 0, 4).unwrap();
    assert!(files.iter().all(|f| summary.oldest <= f.mtime && f.mtime <= summary.newest));
    assert_eq!((summary.oldest, summary.newest), (-4, 9));
}
