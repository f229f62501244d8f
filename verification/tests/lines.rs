use markymark_index::document::lines::{byte_offset_line_starts, byte_offset_to_position};
use markymark_index::Position;

#[test]
fn line_starts_of_empty_text_is_zero_only() {
    assert_eq!(byte_offset_line_starts(""), vec![0u32]);
}

#[test]
fn line_starts_follow_each_newline() {
    assert_eq!(byte_offset_line_starts("ab\ncd\n\nx"), vec![0u32, 3, 6, 7]);
}

#[test]
fn line_starts_count_bytes_not_chars() {
    // "é" is two bytes in UTF-8.
    assert_eq!(byte_offset_line_starts("é\nb"), vec![0u32, 3]);
}

#[test]
fn line_starts_trailing_newline_opens_empty_last_line() {
    assert_eq!(byte_offset_line_starts("a\n"), vec![0u32, 2]);
}

#[test]
fn position_at_line_start_is_column_zero() {
    let starts = byte_offset_line_starts("ab\ncd\n\nx");
    assert_eq!(byte_offset_to_position(&starts, 0), Position::new(0, 0));
    assert_eq!(byte_offset_to_position(&starts, 3), Position::new(1, 0));
    assert_eq!(byte_offset_to_position(&starts, 7), Position::new(3, 0));
}

#[test]
fn position_inside_a_line_counts_bytes_from_its_start() {
    let starts = byte_offset_line_starts("ab\ncd\n\nx");
    assert_eq!(byte_offset_to_position(&starts, 1), Position::new(0, 1));
    assert_eq!(byte_offset_to_position(&starts, 4), Position::new(1, 1));
    // The newline byte itself belongs to the line it ends.
    assert_eq!(byte_offset_to_position(&starts, 5), Position::new(1, 2));
    assert_eq!(byte_offset_to_position(&starts, 6), Position::new(2, 0));
}

#[test]
fn position_past_the_end_stays_on_the_last_line() {
    let starts = byte_offset_line_starts("ab\ncd");
    assert_eq!(byte_offset_to_position(&starts, 10), Position::new(1, 7));
}
