use bposit_calc::text::{is_space, push_json_string, str_trim};

#[test]
fn trimming_removes_unicode_white_space_at_both_ends() {
    assert_eq!(str_trim("  1.5\t\n"), "1.5");
    assert_eq!(str_trim("\u{3000}\u{a0}0x7f\u{2029}"), "0x7f");
    assert_eq!(str_trim("1 e"), "1 e");
    assert_eq!(str_trim("   "), "");
    assert_eq!(str_trim(""), "");
    for s in ["a", " a b ", "\u{85}x\u{1680}", "\u{200b}y"] {
        assert_eq!(str_trim(s), s.trim(), "{s:?}");
    }
}

#[test]
fn white_space_is_the_unicode_property() {
    for c in (0u32..0x3100).filter_map(char::from_u32) {
        assert_eq!(is_space(c), c.is_whitespace(), "{:#x}", c as u32);
    }
}

#[test]
fn json_strings_are_quoted_and_escaped() {
    let mut s = String::from("x=");
    push_json_string(&mut s, "a\"b\\c\nd\te\u{1}\u{1f}\u{2212}");
    assert_eq!(s, "x=\"a\\\"b\\\\c\\nd\\te\\u0001\\u001f\u{2212}\"");
    let mut t = String::new();
    push_json_string(&mut t, "");
    assert_eq!(t, "\"\"");
}
