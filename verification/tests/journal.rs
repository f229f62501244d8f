use markymark_index::detect_journal_date;

#[test]
fn tests_test_journal_date_detected_underscore_separator() {
    let u = "file:///vault/journals/2024_01_15.md";
    assert_eq!(detect_journal_date(u), Some((2024, 1, 15)), "expected (2024,1,15) for 2024_01_15.md");
}

#[test]
fn tests_test_journal_date_detected_dash_separator() {
    let u = "file:///vault/journals/2024-01-15.md";
    assert_eq!(detect_journal_date(u), Some((2024, 1, 15)), "expected (2024,1,15) for 2024-01-15.md");
}

#[test]
fn tests_test_journal_date_rejected_for_non_journal_filename() {
    let u = "file:///vault/notes/meeting.md";
    assert_eq!(detect_journal_date(u), None, "meeting.md should not be a journal");
}

#[test]
fn tests_test_journal_date_rejected_for_suffix_filename() {
    let u = "file:///vault/journals/2024_01_15_extra_notes.md";
    assert_eq!(detect_journal_date(u), None, "2024_01_15_extra_notes.md should not match — stem too long");
}

#[test]
fn tests_test_journal_date_rejected_for_mixed_separators() {
    let u = "file:///vault/journals/2024-01_15.md";
    assert_eq!(detect_journal_date(u), None, "mixed separators (2024-01_15.md) should not match");
}

#[test]
fn tests_test_journal_date_rejected_for_invalid_month() {
    let u = "file:///vault/journals/2024_13_01.md";
    assert_eq!(detect_journal_date(u), None, "month=13 is invalid, should return None");
}

#[test]
fn core_test_journal_date_detected_underscore_separator() {
    let u = "file:///vault/journals/2024_01_15.md";
    assert_eq!(detect_journal_date(u), Some((2024, 1, 15)), "expected (2024,1,15) for 2024_01_15.md");
}

#[test]
fn core_test_journal_date_detected_dash_separator() {
    let u = "file:///vault/journals/2024-01-15.md";
    assert_eq!(detect_journal_date(u), Some((2024, 1, 15)), "expected (2024,1,15) for 2024-01-15.md");
}

#[test]
fn core_test_journal_date_rejected_for_non_journal_filename() {
    let u = "file:///vault/notes/meeting.md";
    assert_eq!(detect_journal_date(u), None, "meeting.md should not be a journal");
}

#[test]
fn core_test_journal_date_rejected_for_suffix_filename() {
    let u = "file:///vault/journals/2024_01_15_extra_notes.md";
    assert_eq!(detect_journal_date(u), None, "2024_01_15_extra_notes.md should not match — stem too long");
}

#[test]
fn core_test_journal_date_rejected_for_mixed_separators() {
    let u = "file:///vault/journals/2024-01_15.md";
    assert_eq!(detect_journal_date(u), None, "mixed separators (2024-01_15.md) should not match");
}

#[test]
fn core_test_journal_date_rejected_for_invalid_month() {
    let u = "file:///vault/journals/2024_13_01.md";
    assert_eq!(detect_journal_date(u), None, "month=13 is invalid, should return None");
}

#[test]
fn mod_test_journal_date_detected_underscore_separator() {
    let u = "file:///vault/journals/2024_01_15.md";
    assert_eq!(detect_journal_date(u), Some((2024, 1, 15)), "expected (2024,1,15) for 2024_01_15.md");
}

#[test]
fn mod_test_journal_date_detected_dash_separator() {
    let u = "file:///vault/journals/2024-01-15.md";
    assert_eq!(detect_journal_date(u), Some((2024, 1, 15)), "expected (2024,1,15) for 2024-01-15.md");
}

#[test]
fn mod_test_journal_date_rejected_for_non_journal_filename() {
    let u = "file:///vault/notes/meeting.md";
    assert_eq!(detect_journal_date(u), None, "meeting.md should not be a journal");
}

#[test]
fn mod_test_journal_date_rejected_for_suffix_filename() {
    let u = "file:///vault/journals/2024_01_15_extra_notes.md";
    assert_eq!(detect_journal_date(u), None, "2024_01_15_extra_notes.md should not match — stem too long");
}

#[test]
fn mod_test_journal_date_rejected_for_mixed_separators() {
    let u = "file:///vault/journals/2024-01_15.md";
    assert_eq!(detect_journal_date(u), None, "mixed separators (2024-01_15.md) should not match");
}

#[test]
fn mod_test_journal_date_rejected_for_invalid_month() {
    let u = "file:///vault/journals/2024_13_01.md";
    assert_eq!(detect_journal_date(u), None, "month=13 is invalid, should return None");
}

#[test]
fn journal_date_accepts_markdown_extension() {
    assert_eq!(detect_journal_date("file:///j/2023_12_31.markdown"), Some((2023, 12, 31)));
}

#[test]
fn journal_date_without_directory() {
    assert_eq!(detect_journal_date("1999-02-03.md"), Some((1999, 2, 3)));
}

#[test]
fn journal_date_rejects_out_of_range_year_and_day() {
    assert_eq!(detect_journal_date("file:///j/1899_01_01.md"), None);
    assert_eq!(detect_journal_date("file:///j/2101_01_01.md"), None);
    assert_eq!(detect_journal_date("file:///j/2024_01_32.md"), None);
    assert_eq!(detect_journal_date("file:///j/2024_01_00.md"), None);
}

#[test]
fn journal_date_range_edges() {
    assert_eq!(detect_journal_date("file:///j/1900_01_01.md"), Some((1900, 1, 1)));
    assert_eq!(detect_journal_date("file:///j/2100_12_31.md"), Some((2100, 12, 31)));
}

#[test]
fn journal_date_rejects_other_separators_and_extensions() {
    assert_eq!(detect_journal_date("file:///j/2024.01.15.md"), None);
    assert_eq!(detect_journal_date("file:///j/2024_01_15.txt"), None);
    assert_eq!(detect_journal_date("file:///j/2024_01_15"), None);
    assert_eq!(detect_journal_date("file:///j/2024_aa_15.md"), None);
}

#[test]
fn journal_date_fields_are_digits_only() {
    assert_eq!(detect_journal_date("file:///j/2024_+1_15.md"), None);
    assert_eq!(detect_journal_date("file:///j/+999_01_15.md"), None);
    assert_eq!(detect_journal_date("file:///j/2024_01_+5.md"), None);
    assert_eq!(detect_journal_date("file:///j/2024_01_ 5.md"), None);
}

#[test]
fn journal_date_uses_last_path_segment() {
    assert_eq!(detect_journal_date("file:///2024_01_15.md/notes.md"), None);
    assert_eq!(detect_journal_date("file:///notes/x/2020-06-07.md"), Some((2020, 6, 7)));
}
