use obsidian_vault_grouper::escape_md_cell;

#[test]
fn escapes_markup() {
    assert_eq!(
        escape_md_cell("a|b\\c`d*e_f[g]h"),
        "a\\|b\\\\c\\`d\\*e\\_f\\[g\\]h"
    );
    assert_eq!(escape_md_cell(""), "");
    assert_eq!(escape_md_cell("notes/\u{e9}t\u{e9}.md"), "notes/\u{e9}t\u{e9}.md");
}

#[test]
fn line_breaks_become_spaces() {
    assert_eq!(escape_md_cell("one\r\ntwo\nthree"), "one  two three");
}

#[test]
fn escaped_text_reads_back() {
    let text = "a_b|c\\d[e]`*";
    let mut back = String::new();
    let mut literal = false;
    for c in escape_md_cell(text).chars() {
        if !literal && c == '\\' {
            literal = true;
        } else {
            back.push(c);
            literal = false;
        }
    }
    assert_eq!(back, text);
}
