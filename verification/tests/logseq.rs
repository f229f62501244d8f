use markymark_index::document::logseq::is_logseq_heading;

#[test]
fn bullet_then_hash_is_a_logseq_heading() {
    assert!(is_logseq_heading("- # Logseq Heading"));
    assert!(is_logseq_heading("* ## Sub"));
    assert!(is_logseq_heading("+ #tagged-looking"));
    assert!(is_logseq_heading("  \t- # Indented\nsecond line"));
}

#[test]
fn plain_list_items_are_not_headings() {
    assert!(!is_logseq_heading("- item"));
    assert!(!is_logseq_heading("-# no space"));
    assert!(!is_logseq_heading("1. # numbered"));
    assert!(!is_logseq_heading("# heading without bullet"));
    assert!(!is_logseq_heading(""));
    assert!(!is_logseq_heading("   "));
}

#[test]
fn only_the_first_line_counts() {
    assert!(!is_logseq_heading("- item\n- # later"));
    assert!(!is_logseq_heading("- \n#"));
    assert!(!is_logseq_heading("\n- # after a blank line"));
}
