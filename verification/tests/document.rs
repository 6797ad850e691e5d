use obsidian_vault_grouper::document::{
    manifest_entries, manifest_is_due, manifest_row, render_manifest, render_pack, PriorManifest,
};
use obsidian_vault_grouper::naming::pack_jobs;
use obsidian_vault_grouper::resume::{skip_already_packed, PackedPaths};
use obsidian_vault_grouper::{
    plan_packs, read_already_packed_rel_paths, MdFile, PackOptions, PackPlan,
};
use std::path::{Path, PathBuf};

const GENERATED: &str = "2024-01-02 03:04:05 UTC";

fn options(resume: bool, write_manifest: bool) -> PackOptions<'static> {
    PackOptions {
        vault_name: "my_vault",
        out_dir: Path::new("out"),
        resume,
        write_manifest,
        available_bytes: 1100,
        quiet: true,
    }
}

fn file(rel: &str, size: u64, mtime: i64) -> MdFile {
    MdFile { abs: PathBuf::from(rel), rel_unix: rel.to_string(), size, mtime }
}

fn manifest(resume: bool, prior: PriorManifest) -> String {
    let files = vec![file("a_b.md", 3, 0), file("c|d.md", 10, 60)];
    let plan = PackPlan { boundaries: vec![(0, 1), (1, 2)] };
    let opts = options(resume, true);
    let entries = manifest_entries(&plan, 4);
    String::from_utf8(render_manifest(&opts, GENERATED, &prior, &files, &entries)).unwrap()
}

const ROWS: &str = "\
| a\\_b.md | my\\_vault\\_pack\\_0004.md | 1970-01-01 00:00:00 UTC | 3 |
| c\\|d.md | my\\_vault\\_pack\\_0005.md | 1970-01-01 00:01:00 UTC | 10 |
";

const HEAD: &str = "\
# Manifest for my_vault
<!-- Generation Date: 2024-01-02 03:04:05 UTC -->

| Relative Path | Pack File | Last Modified | Size (bytes) |
| :--- | :--- | :--- | :--- |
";

#[test]
fn packs_hold_their_files() {
    let files = vec![file("x.md", 1, 0), file("n/a.md", 5, 0), file("b.md", 0, 86_400)];
    let plan = PackPlan { boundaries: vec![(0, 1), (1, 3)] };
    let opts = options(false, true);
    let jobs = pack_jobs(&plan, &opts, 1);
    let contents = vec![Some(b"hi\xff\n".to_vec()), None];
    let expected: Vec<u8> = [
        b"# Vault Pack: my_vault\n<!-- Pack Number: 2 -->\n".as_slice(),
        b"<!-- Generation Date: 2024-01-02 03:04:05 UTC -->\n\n",
        b"<!-- File: n/a.md | Last Modified: 1970-01-01 00:00:00 UTC -->\n",
        b"## Path: n/a.md\n\n",
        b"hi\xff\n",
        b"\n---\n\n",
        b"<!-- File: b.md | Last Modified: 1970-01-02 00:00:00 UTC -->\n",
        b"## Path: b.md\n\n",
        b"*[File contents unreadable]*\n",
        b"\n---\n\n",
    ]
    .concat();
    assert_eq!(render_pack(&opts, &jobs[1], GENERATED, &files, &contents), expected);
}

#[test]
fn empty_packs_hold_the_preamble() {
    let plan = PackPlan { boundaries: vec![(0, 0)] };
    let opts = options(false, true);
    let jobs = pack_jobs(&plan, &opts, 7);
    assert_eq!(
        render_pack(&opts, &jobs[0], "g", &[], &[]),
        b"# Vault Pack: my_vault\n<!-- Pack Number: 7 -->\n<!-- Generation Date: g -->\n\n".to_vec()
    );
}

#[test]
fn entries_list_every_file_once() {
    let plan = PackPlan { boundaries: vec![(0, 2), (2, 3), (3, 6)] };
    let entries: Vec<(usize, usize)> =
        manifest_entries(&plan, 9).iter().map(|e| (e.file_idx, e.pack_num)).collect();
    assert_eq!(entries, vec![(0, 9), (1, 9), (2, 10), (3, 11), (4, 11), (5, 11)]);
}

#[test]
fn manifests_are_due_where_there_is_something_to_list() {
    let plan = PackPlan { boundaries: vec![(0, 1)] };
    let entries = manifest_entries(&plan, 1);
    assert!(manifest_is_due(&options(false, true), &entries));
    assert!(!manifest_is_due(&options(false, false), &entries));
    assert!(!manifest_is_due(&options(false, true), &[]));
}

#[test]
fn new_manifests_begin_with_a_head() {
    let expected = format!("{HEAD}{ROWS}");
    assert_eq!(manifest(false, PriorManifest::Absent), expected);
    assert_eq!(manifest(true, PriorManifest::Absent), expected);
    assert_eq!(manifest(false, PriorManifest::Present(b"old\n".to_vec())), expected);
    assert_eq!(manifest(false, PriorManifest::Unreadable), expected);
}

#[test]
fn resumed_manifests_continue_the_prior_one() {
    let resumed = manifest(true, PriorManifest::Present(b"old\n".to_vec()));
    assert_eq!(resumed, format!("old\n\n{ROWS}"));
    assert_eq!(manifest(true, PriorManifest::Unreadable), ROWS);
}

#[test]
fn rows_have_four_cells_on_one_line() {
    let row = manifest_row(&file("a|b\n`c\\", 1, -1), "v|w", 3);
    assert_eq!(
        row,
        "| a\\|b \\`c\\\\ | v\\|w\\_pack\\_0003.md | 1969-12-31 23:59:59 UTC | 1 |\n"
    );
    let mut bars = 0;
    let mut literal = false;
    for c in row.chars() {
        if literal {
            literal = false;
        } else if c == '\\' {
            literal = true;
        } else if c == '|' {
            bars += 1;
        }
    }
    assert_eq!(bars, 5);
    assert_eq!(row.matches('\n').count(), 1);
}

fn packed_again(files: &[MdFile], contents: &[Option<Vec<u8>>]) -> PackedPaths {
    let opts = options(false, true);
    let plan = plan_packs(files, opts.available_bytes);
    let mut found = PackedPaths::new();
    for job in pack_jobs(&plan, &opts, 1) {
        let document =
            render_pack(&opts, &job, GENERATED, files, &contents[job.start..job.end]);
        read_already_packed_rel_paths(&document, &mut found);
    }
    found
}

#[test]
fn finished_runs_leave_nothing() {
    let files: Vec<MdFile> =
        ["a.md", "b|c.md", "d |e.md", "\u{e9}\\.md", "x y.md"].iter().map(|p| file(p, 9, 5)).collect();
    let contents = vec![
        Some(b"no line feed at the end".to_vec()),
        None,
        Some(Vec::new()),
        Some("t\u{e9}xt\r\n".as_bytes().to_vec()),
        Some(b"\xff".to_vec()),
    ];
    let found = packed_again(&files, &contents);
    assert!(skip_already_packed(files, &found).is_empty());
}

#[test]
fn paths_like_the_end_of_a_path_are_not_found() {
    let files = vec![file("a | b.md", 0, 0)];
    let found = packed_again(&files, &[None]);
    assert!(found.contains("a"));
    assert!(!found.contains("a | b.md"));
}

#[test]
fn files_behind_contents_that_are_no_text_are_not_found() {
    let files = vec![file("a.bin.md", 0, 0), file("b.md", 0, 0)];
    let found = packed_again(&files, &[Some(b"\xff".to_vec()), None]);
    assert!(found.contains("a.bin.md"));
    assert!(!found.contains("b.md"));
}

#[test]
fn runs_read_back_exactly() {
    let rels = ["a.md", "b|c.md", "d |e.md", "x\r", "## Path: y.md"];
    let files: Vec<MdFile> = rels.iter().map(|p| file(p, 9, 5)).collect();
    let contents = vec![
        Some(b"text <!-- File: no.md | x\n".to_vec()),
        None,
        Some(b" <!-- File: no.md | x\r".to_vec()),
        Some(Vec::new()),
        Some(b"<!-- File:no.md | x".to_vec()),
    ];
    let found = packed_again(&files, &contents);
    for rel in rels {
        assert!(found.contains(rel));
    }
    let mut quoted = PackedPaths::new();
    for content in contents.into_iter().flatten() {
        read_already_packed_rel_paths(&content, &mut quoted);
    }
    assert!(quoted.is_empty());
    for other in ["no.md", "my_vault", "", "y.md", "---", "2"] {
        assert!(!found.contains(other));
    }
}

#[test]
fn quoted_file_lines_are_found_too() {
    let files = vec![file("a.md", 9, 5)];
    let found = packed_again(&files, &[Some(b"<!-- File: other.md | x".to_vec())]);
    assert!(found.contains("a.md"));
    assert!(found.contains("other.md"));
}
