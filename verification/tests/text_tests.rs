use thearf::text::{chars_of, is_whitespace, str_contains, str_eq};

#[test]
fn whitespace_like_std() {
    for u in 0u32..0x3100 {
        if let Some(c) = char::from_u32(u) {
            assert_eq!(is_whitespace(c), c.is_whitespace(), "{u:#x}");
        }
    }
    assert!(!is_whitespace('\u{10FFFF}'));
}

#[test]
fn chars_of_string() {
    assert_eq!(chars_of("añb\n"), vec!['a', 'ñ', 'b', '\n']);
    assert_eq!(chars_of(""), Vec::<char>::new());
}

#[test]
fn string_equality_and_search() {
    assert!(str_eq("super", "super"));
    assert!(!str_eq("super", "supe"));
    assert!(!str_eq("ab", "ba"));
    assert!(str_contains("a\0b", '\0'));
    assert!(!str_contains("ab", '\0'));
}
