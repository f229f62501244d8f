use markymark_index::text::is_whitespace;

#[test]
fn whitespace_matches_std_on_every_char() {
    for v in 0u32..=0x10FFFF {
        if let Some(c) = char::from_u32(v) {
            assert_eq!(is_whitespace(c), c.is_whitespace(), "U+{v:04X}");
        }
    }
}
