use wavemark::text::{chars_of, is_whitespace, push_decimal, push_padded, split_chars, string_of, trimmed, Strip};

#[test]
fn whitespace_matches_the_standard_library() {
    for u in 0..=0x10FFFFu32 {
        if let Some(c) = char::from_u32(u) {
            assert_eq!(is_whitespace(c), c.is_whitespace(), "U+{u:04X}");
        }
    }
}

#[test]
fn trims_match_str_trim() {
    for s in ["  a b  ", "\t\n", "", "x", "\u{3000}y\u{85}", "--a-b--"] {
        let t = trimmed(&chars_of(s), Strip::Whitespace);
        assert_eq!(string_of(&t), s.trim());
        let d = trimmed(&chars_of(s), Strip::Dash);
        assert_eq!(string_of(&d), s.trim_matches('-'));
    }
}

#[test]
fn split_matches_str_split() {
    for s in ["a:b:c", "", ":", "a::", "no sep"] {
        let parts = split_chars(&chars_of(s), ':');
        let want: Vec<String> = s.split(':').map(String::from).collect();
        assert_eq!(parts, want, "{s:?}");
    }
}

#[test]
fn decimal_rendering() {
    let mut out = Vec::new();
    push_decimal(&mut out, 0);
    push_decimal(&mut out, 1234);
    push_padded(&mut out, 7, 3);
    push_padded(&mut out, 12345, 3);
    push_decimal(&mut out, u64::MAX);
    assert_eq!(string_of(&out), format!("01234007{}{}", 12345, u64::MAX));
}
