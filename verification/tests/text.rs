use tokon_tech_log::text::char_is_whitespace;

#[test]
fn los_espacios_son_los_de_unicode() {
    for code in 0u32..0x4000 {
        if let Some(c) = char::from_u32(code) {
            assert_eq!(char_is_whitespace(c), c.is_whitespace(), "U+{code:04X}");
        }
    }
    assert!(!char_is_whitespace('\u{10FFFF}'));
}
