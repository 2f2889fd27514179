use fever::chars::{
    eq_ignore_ascii_case, is_ascii_alphabetic, is_ascii_punctuation, is_whitespace, len_utf8,
    to_ascii_lowercase, to_ascii_uppercase,
};

#[test]
fn char_classes_match_std() {
    for u in 0u32..0x3100 {
        if let Some(c) = char::from_u32(u) {
            assert_eq!(is_ascii_punctuation(c), c.is_ascii_punctuation(), "{u:#x}");
            assert_eq!(is_whitespace(c), c.is_whitespace(), "{u:#x}");
            assert_eq!(is_ascii_alphabetic(c), c.is_ascii_alphabetic(), "{u:#x}");
            assert_eq!(to_ascii_lowercase(c), c.to_ascii_lowercase(), "{u:#x}");
            assert_eq!(to_ascii_uppercase(c), c.to_ascii_uppercase(), "{u:#x}");
            assert_eq!(len_utf8(c), c.len_utf8(), "{u:#x}");
        }
    }
    for c in ['\u{10000}', '\u{10FFFF}', '\u{FEFF}', '\u{FFFF}'] {
        assert_eq!(is_whitespace(c), c.is_whitespace());
        assert_eq!(len_utf8(c), c.len_utf8());
    }
}

#[test]
fn eq_ignore_ascii_case_examples() {
    assert!(eq_ignore_ascii_case('a', 'A'));
    assert!(eq_ignore_ascii_case('Z', 'z'));
    assert!(!eq_ignore_ascii_case('a', 'b'));
    assert!(!eq_ignore_ascii_case('é', 'É'));
    assert!(eq_ignore_ascii_case(' ', ' '));
}
