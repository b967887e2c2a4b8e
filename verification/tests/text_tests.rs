use mirufm_core::text::{chars_eq, chars_of, decimal_chars, find_char, push_all, split, string_of, trim};

fn text_chars(s: &str) -> Vec<char> {
    s.chars().collect()
}

#[test]
fn chars_and_strings_round_trip() {
    assert_eq!(chars_of("héllo"), text_chars("héllo"));
    assert_eq!(string_of(&text_chars("héllo")), "héllo");
    assert_eq!(string_of(&[]), "");
}

#[test]
fn trim_removes_unicode_whitespace_at_both_ends() {
    assert_eq!(trim(&text_chars("  a b \t\n")), text_chars("a b"));
    assert_eq!(trim(&text_chars("\u{3000}x\u{00A0}")), text_chars("x"));
    assert_eq!(trim(&text_chars("   ")), Vec::<char>::new());
    assert_eq!(trim(&text_chars("")), Vec::<char>::new());
}

#[test]
fn trimming_twice_is_trimming_once() {
    let once = trim(&text_chars(" \t name \r\n"));
    assert_eq!(trim(&once), once);
}

#[test]
fn split_keeps_empty_pieces() {
    let pieces: Vec<String> = split(&text_chars("a;;b;"), ';')
        .into_iter()
        .map(|p| p.into_iter().collect())
        .collect();
    assert_eq!(pieces, vec!["a", "", "b", ""]);
    assert_eq!(split(&text_chars(""), ';').len(), 1);
}

#[test]
fn find_char_gives_first_index() {
    assert_eq!(find_char(&text_chars("k=v=w"), '='), Some(1));
    assert_eq!(find_char(&text_chars("kv"), '='), None);
}

#[test]
fn chars_eq_compares_contents() {
    assert!(chars_eq(&text_chars("abc"), &text_chars("abc")));
    assert!(!chars_eq(&text_chars("abc"), &text_chars("abd")));
    assert!(!chars_eq(&text_chars("ab"), &text_chars("abc")));
}

#[test]
fn decimal_chars_writes_numbers() {
    assert_eq!(decimal_chars(0), text_chars("0"));
    assert_eq!(decimal_chars(7), text_chars("7"));
    assert_eq!(decimal_chars(1024), text_chars("1024"));
    assert_eq!(decimal_chars(u64::MAX), text_chars("18446744073709551615"));
}

#[test]
fn push_all_appends() {
    let mut v = text_chars("ab");
    push_all(&mut v, &text_chars("cd"));
    assert_eq!(v, text_chars("abcd"));
}

#[test]
fn is_whitespace_agrees_with_std() {
    for c in (0u32..=0x3100).chain(0xFEFF..=0xFF00).filter_map(char::from_u32) {
        assert_eq!(mirufm_core::text::is_whitespace(c), c.is_whitespace(), "{:?}", c);
    }
}
