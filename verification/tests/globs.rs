use obsidian_vault_grouper::build_glob_set;
use obsidian_vault_grouper::globs::{invalid_pattern_message, is_excluded, trim, GlobSetError};

fn owned(patterns: &[&str]) -> Vec<String> {
    patterns.iter().map(|p| p.to_string()).collect()
}

fn excludes(patterns: &[&str], rel: &str) -> bool {
    let set = build_glob_set(&owned(patterns)).unwrap();
    is_excluded(set.as_ref(), rel)
}

#[test]
fn no_patterns_make_no_set() {
    assert!(matches!(build_glob_set(&[]), Ok(None)));
    assert!(!is_excluded(None, "a.md"));
}

#[test]
fn blank_patterns_exclude_nothing() {
    assert!(matches!(build_glob_set(&owned(&["", " \t"])), Ok(Some(_))));
    assert!(!excludes(&["", " \t"], "a.md"));
    assert!(!excludes(&["", " \t"], ""));
}

#[test]
fn patterns_match_paths() {
    assert!(excludes(&["*.log"], "a/b.log"));
    assert!(!excludes(&["*.log"], "a/b.md"));
    assert!(excludes(&["drafts/**", "*.tmp.md"], "drafts/x/y.md"));
    assert!(excludes(&["drafts/**", "*.tmp.md"], "x.tmp.md"));
    assert!(!excludes(&["drafts/**", "*.tmp.md"], "final/x.md"));
    assert!(excludes(&["[ab].md"], "b.md"));
    assert!(!excludes(&["[ab].md"], "c.md"));
}

#[test]
fn patterns_are_trimmed() {
    assert!(excludes(&["  *.txt\n"], "a.txt"));
    assert!(excludes(&["\u{3000}*.txt\u{a0}"], "a.txt"));
}

#[test]
fn trimming_cuts_white_space_off_both_ends() {
    assert_eq!(trim(" \t a b \r\n"), "a b");
    assert_eq!(trim("\u{2003}x\u{85}"), "x");
    assert_eq!(trim(" \u{3000} "), "");
    assert_eq!(trim("\u{200b}x"), "\u{200b}x");
    assert_eq!(trim(""), "");
}

#[test]
fn first_malformed_pattern_is_reported() {
    match build_glob_set(&owned(&["*.md", " [ ", "{a"])) {
        Err(GlobSetError::InvalidPattern { pattern, cause }) => {
            assert_eq!(pattern, "[");
            assert!(matches!(cause.kind(), globset::ErrorKind::UnclosedClass));
        }
        _ => unreachable!(),
    }
    assert_eq!(invalid_pattern_message("["), "Invalid glob pattern: '['");
}

#[test]
fn patterns_too_large_to_match_are_reported() {
    let huge = "?".repeat(1_000_000);
    assert!(matches!(build_glob_set(&[huge]), Err(GlobSetError::Unbuildable { .. })));
}

#[test]
fn plain_patterns_stand_for_one_path() {
    let patterns = ["notes/a.md", " b,c]!.md ", "\u{e9}^-.md"];
    assert!(matches!(build_glob_set(&owned(&patterns)), Ok(Some(_))));
    assert!(excludes(&patterns, "notes/a.md"));
    assert!(excludes(&patterns, "b,c]!.md"));
    assert!(excludes(&patterns, "\u{e9}^-.md"));
    assert!(!excludes(&patterns, "a.md"));
    assert!(!excludes(&patterns, "x/notes/a.md"));
    let long = "a".repeat(1_000_000);
    assert!(matches!(build_glob_set(&[long]), Ok(Some(_))));
}

#[test]
fn literals_with_stars_at_an_end_are_taken() {
    let long = "x".repeat(1_000_000);
    let text = "x".repeat(300);
    for pattern in [
        format!("a\\b{long}"),
        format!("**/{long}"),
        format!("**/*.{long}"),
        format!("{text}*"),
        format!("{text}/**"),
        format!("*{text}"),
        format!("**/{text}/a.md"),
    ] {
        assert!(matches!(build_glob_set(&[pattern]), Ok(Some(_))));
    }
    let short = ["/**", "*.", "*a/", "**//", "\\/**", "a\\b*", "*\\b", "**/\\b"];
    assert!(matches!(build_glob_set(&owned(&short)), Ok(Some(_))));
}

#[test]
fn stars_at_an_end_match() {
    assert!(excludes(&["drafts/*"], "drafts/x/y.md"));
    assert!(!excludes(&["drafts/*"], "final/x.md"));
    assert!(excludes(&["*.tmp.md"], "a/b.tmp.md"));
    assert!(excludes(&["**/name.md"], "a/name.md"));
    assert!(!excludes(&["**/name.md"], "a/other_name.md"));
    assert!(excludes(&["**/a/b.md"], "x/a/b.md"));
    assert!(!excludes(&["**/a/b.md"], "xa/b.md"));
    assert!(excludes(&["**/*.log"], "x/y.log"));
}

#[test]
fn white_space_is_that_of_unicode() {
    for n in 0..=0x10ffff_u32 {
        if let Some(c) = char::from_u32(n) {
            let white = matches!(
                n,
                0x9..=0xd | 0x20 | 0x85 | 0xa0 | 0x1680 | 0x2000..=0x200a | 0x2028 | 0x2029
                    | 0x202f | 0x205f | 0x3000
            );
            assert_eq!(c.is_whitespace(), white);
            assert_eq!(trim(&c.to_string()).is_empty(), white);
        }
    }
}
