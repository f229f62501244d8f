use markymark_index::{find_frontmatter_close, frontmatter_byte_end, mask_frontmatter};

#[test]
fn mask_frontmatter_crlf() {
    let source = "---\r\ntitle: Hello\r\n---\r\nBody\r\n";
    let masked = mask_frontmatter(source);
    assert!(
        !masked.starts_with("---"),
        "frontmatter delimiters should be masked"
    );
    assert!(masked.contains("Body"), "body content should be preserved");
}

#[test]
fn mask_frontmatter_lf_still_works() {
    let source = "---\ntitle: Hello\n---\nBody\n";
    let masked = mask_frontmatter(source);
    assert!(
        !masked.starts_with("---"),
        "LF frontmatter should be masked"
    );
    assert!(masked.contains("Body"), "body should be preserved");
}

#[test]
fn mask_frontmatter_mixed_endings_picks_earliest_close() {
    let source = "---\ntitle: A\n---\nbogus: B\r\n---\r\nMore\n";
    let masked = mask_frontmatter(source);
    assert!(
        masked.contains("bogus"),
        "body content after LF close must be preserved, not masked"
    );
}

#[test]
fn mask_frontmatter_empty_lf() {
    let source = "---\n---\nBody";
    let masked = mask_frontmatter(source);
    assert!(
        !masked.starts_with("---"),
        "empty frontmatter delimiters should be masked"
    );
    assert!(
        masked.contains("Body"),
        "body after empty frontmatter should be preserved"
    );
}

#[test]
fn mask_frontmatter_empty_crlf() {
    let source = "---\r\n---\r\nBody";
    let masked = mask_frontmatter(source);
    assert!(
        !masked.starts_with("---"),
        "empty CRLF frontmatter delimiters should be masked"
    );
    assert!(
        masked.contains("Body"),
        "body after empty CRLF frontmatter should be preserved"
    );
}

#[test]
fn mask_frontmatter_exact_bytes() {
    let source = "---\ntitle: Hi\n---\nBody\n";
    assert_eq!(mask_frontmatter(source), "   \n         \n   \nBody\n");
}

#[test]
fn mask_frontmatter_keeps_crlf_and_length() {
    let source = "---\r\na: é\r\n---\r\nRest é";
    let masked = mask_frontmatter(source);
    assert_eq!(masked.len(), source.len());
    assert_eq!(masked, "   \r\n     \r\n   \r\nRest é");
}

#[test]
fn mask_frontmatter_without_frontmatter_is_identity() {
    for s in ["# Title\n", "", "--- not frontmatter", "---\nno close here\n"] {
        assert_eq!(mask_frontmatter(s), s);
    }
}

#[test]
fn frontmatter_byte_end_values() {
    assert_eq!(frontmatter_byte_end("# Title\n"), 0);
    assert_eq!(frontmatter_byte_end("---\ntitle: Hi\n---\nBody\n"), 18);
    assert_eq!(frontmatter_byte_end("---\r\ntitle: Hi\r\n---\r\nBody"), 21);
    assert_eq!(frontmatter_byte_end("---\n---\nBody"), 8);
    assert_eq!(frontmatter_byte_end("---\nkey: v\n---"), 14);
    assert_eq!(frontmatter_byte_end("---\r\nkey: v\r\n---"), 16);
    assert_eq!(frontmatter_byte_end("---\n---"), 7);
    assert_eq!(frontmatter_byte_end("---\nunclosed\n"), 0);
}

#[test]
fn find_frontmatter_close_cases() {
    assert_eq!(find_frontmatter_close(b"---"), Some((0, 3)));
    assert_eq!(find_frontmatter_close(b"---\r"), Some((0, 4)));
    assert_eq!(find_frontmatter_close(b"---\r\nrest"), Some((0, 5)));
    assert_eq!(find_frontmatter_close(b"---\nrest"), Some((0, 4)));
    assert_eq!(find_frontmatter_close(b"a: 1\n---\nrest"), Some((4, 5)));
    assert_eq!(find_frontmatter_close(b"a: 1\n---\r\nrest"), Some((4, 6)));
    assert_eq!(find_frontmatter_close(b"a: 1\n---"), Some((4, 4)));
    assert_eq!(find_frontmatter_close(b"a: 1\r\n---"), Some((4, 5)));
    assert_eq!(find_frontmatter_close(b"a: 1\n"), None);
    // The earliest of several closings wins.
    assert_eq!(
        find_frontmatter_close(b"a\n---\r\nb\n---\nc"),
        Some((1, 6))
    );
    assert_eq!(
        find_frontmatter_close(b"title: A\n---\nbogus: B\r\n---\r\nMore\n"),
        Some((8, 5))
    );
}
