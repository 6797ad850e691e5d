use obsidian_vault_grouper::resume::{path_on_line, skip_already_packed, PackedPaths};
use obsidian_vault_grouper::{read_already_packed_rel_paths, MdFile};
use std::path::PathBuf;

fn file(rel: &str, mtime: i64) -> MdFile {
    MdFile { abs: PathBuf::from(rel), rel_unix: rel.to_string(), size: 0, mtime }
}

fn found_in(document: &[u8]) -> PackedPaths {
    let mut found = PackedPaths::new();
    read_already_packed_rel_paths(document, &mut found);
    found
}

#[test]
fn lines_name_files() {
    assert_eq!(
        path_on_line("<!-- File: a/b.md | Last Modified: x -->"),
        Some("a/b.md".to_string())
    );
    assert_eq!(path_on_line("<!-- File: a | b.md | Last"), Some("a".to_string()));
    assert_eq!(path_on_line("<!-- File: a|b.md"), Some("a|b.md".to_string()));
    assert_eq!(path_on_line("<!-- File: "), Some(String::new()));
    assert_eq!(path_on_line("<!-- File:  | x"), Some(String::new()));
    assert_eq!(path_on_line(" <!-- File: a.md | x"), None);
    assert_eq!(path_on_line("<!-- File:a.md"), None);
    assert_eq!(path_on_line(""), None);
}

#[test]
fn documents_name_files() {
    let found = found_in(
        b"# Vault Pack: v\n<!-- File: a.md | x -->\r\n## Path: a.md\n\n<!-- File: b.md | y -->",
    );
    assert!(found.contains("a.md"));
    assert!(found.contains("b.md"));
    assert!(!found.contains("v"));
    assert!(!found.contains("## Path: a.md"));
    assert!(!found.is_empty());
    assert!(found_in(b"").is_empty());
    assert!(found_in(b"text\n\n").is_empty());
}

#[test]
fn carriage_returns_end_lines_with_line_feeds_only() {
    let found = found_in(b"<!-- File: a.md\r\n<!-- File: b.md\r\r\n<!-- File: c.md\r");
    assert!(found.contains("a.md"));
    assert!(found.contains("b.md\r"));
    assert!(found.contains("c.md\r"));
}

#[test]
fn reading_stops_at_a_line_that_is_no_text() {
    let found = found_in(b"<!-- File: a.md | x\n\xff\xfe\n<!-- File: b.md | y\n");
    assert!(found.contains("a.md"));
    assert!(!found.contains("b.md"));
    let found = found_in("<!-- File: \u{e9}.md | x\n".as_bytes());
    assert!(found.contains("\u{e9}.md"));
}

#[test]
fn documents_add_up() {
    let mut found = found_in(b"<!-- File: a.md | x\n");
    found.insert("c.md".to_string());
    read_already_packed_rel_paths(b"<!-- File: b.md | x\n", &mut found);
    assert!(found.contains("a.md") && found.contains("b.md") && found.contains("c.md"));
}

#[test]
fn packed_files_are_skipped_in_order() {
    let found = found_in(b"<!-- File: b.md | x\n<!-- File: d.md | x\n");
    let files = vec![file("a.md", 5), file("b.md", 4), file("c.md", 3), file("d.md", 2), file("e.md", 1)];
    let active = skip_already_packed(files, &found);
    let rels: Vec<&str> = active.iter().map(|f| f.rel_unix.as_str()).collect();
    assert_eq!(rels, vec!["a.md", "c.md", "e.md"]);
    assert!(active.windows(2).all(|w| w[0].mtime >= w[1].mtime));
}

#[test]
fn fresh_vaults_are_packed_whole() {
    let active = skip_already_packed(vec![file("a.md", 2), file("b.md", 1)], &PackedPaths::new());
    assert_eq!(active.len(), 2);
    assert_eq!(active[0].rel_unix, "a.md");
}
