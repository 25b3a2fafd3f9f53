use pos_core::text::{chars_of, is_blank, replace};

#[test]
fn replace_is_left_to_right_without_overlap() {
    assert_eq!(replace("aaa", "aa", "b"), "ba");
    assert_eq!(replace("R$ 1,5", "R$", ""), " 1,5");
    assert_eq!(replace("realreais", "real", "X"), "Xreais");
    assert_eq!(replace("", "x", "y"), "");
    assert_eq!(replace("ação", "ç", "c"), "acão");
}

#[test]
fn blank_means_only_white_space() {
    assert!(is_blank(""));
    assert!(is_blank(" \t\n\r\u{a0}"));
    assert!(!is_blank(" a "));
}

#[test]
fn chars_are_unicode_characters() {
    assert_eq!(chars_of("ção"), vec!['ç', 'ã', 'o']);
}

#[test]
fn white_space_agrees_with_std_on_every_char() {
    for v in 0..=0x10FFFFu32 {
        if let Some(c) = char::from_u32(v) {
            assert_eq!(pos_core::text::is_white_space(c), c.is_whitespace(), "U+{:04X}", v);
        }
    }
}

#[test]
fn blank_agrees_with_trim() {
    for t in ["", " ", "\u{2000}\u{3000}", "\u{180e}", "a", " \u{85}x", "\u{feff}"] {
        assert_eq!(is_blank(t), t.trim().is_empty(), "{:?}", t);
    }
}
