use obsidian_vault_grouper::text::{
    chars_of, decimal, find, has_prefix, has_suffix, padded_decimal, same_text, string_of, text_le,
};

#[test]
fn numbers_are_written_out() {
    assert_eq!(decimal(0), "0");
    assert_eq!(decimal(1024), "1024");
    assert_eq!(decimal(u64::MAX), "18446744073709551615");
    assert_eq!(padded_decimal(7, 4), "0007");
    assert_eq!(padded_decimal(12345, 4), "12345");
    assert_eq!(padded_decimal(0, 0), "0");
}

#[test]
fn texts_and_characters_convert() {
    let text = "a\u{e9}\u{1f600}";
    assert_eq!(chars_of(text), vec!['a', '\u{e9}', '\u{1f600}']);
    assert_eq!(string_of(&chars_of(text)), text);
}

#[test]
fn texts_compare_as_strings_do() {
    for a in ["", "a", "ab", "b", "Z", "\u{e9}", "\u{ffff}", "\u{10000}"] {
        for b in ["", "a", "ab", "b", "Z", "\u{e9}", "\u{ffff}", "\u{10000}"] {
            assert_eq!(text_le(a, b), a <= b);
            assert_eq!(same_text(a, b), a == b);
        }
    }
}

#[test]
fn parts_are_found() {
    let text = chars_of("abcabc");
    assert!(has_prefix(&text, &chars_of("abc")));
    assert!(!has_prefix(&text, &chars_of("bc")));
    assert!(has_suffix(&text, &chars_of("bc")));
    assert!(!has_suffix(&text, &chars_of("ab")));
    assert!(!has_prefix(&chars_of("a"), &chars_of("ab")));
    assert_eq!(find(&text, &chars_of("ca")), Some(2));
    assert_eq!(find(&text, &chars_of("c")), Some(2));
    assert_eq!(find(&text, &chars_of("")), Some(0));
    assert_eq!(find(&text, &chars_of("cb")), None);
}
