use process_rules::text::{contains_control_or_line_separator, is_unicode_white_space, validate_display_name};

#[test]
fn white_space_matches_std_for_every_char() {
    for code in 0u32..=0x10FFFF {
        if let Some(c) = char::from_u32(code) {
            assert_eq!(is_unicode_white_space(c), c.is_whitespace(), "{code:#x}");
        }
    }
}

#[test]
fn control_and_line_separators_are_detected() {
    assert!(contains_control_or_line_separator("a\nb"));
    assert!(contains_control_or_line_separator("\u{7f}"));
    assert!(contains_control_or_line_separator("x\u{2028}"));
    assert!(contains_control_or_line_separator("x\u{2029}"));
    assert!(contains_control_or_line_separator("\u{85}"));
    assert!(!contains_control_or_line_separator("plain text é 漢字"));
}

#[test]
fn display_names_are_trimmed_single_line_text() {
    assert_eq!(validate_display_name("Example App"), Ok(()));
    assert!(validate_display_name("").is_err());
    assert!(validate_display_name(" padded").is_err());
    assert!(validate_display_name("padded\u{3000}").is_err());
    assert!(validate_display_name("first\nsecond").is_err());
}
