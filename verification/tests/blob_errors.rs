use markymark_index::BlobError;

const ALL: [BlobError; 6] = [
    BlobError::TooSmall,
    BlobError::InvalidMagic,
    BlobError::UnsupportedVersion,
    BlobError::SizeMismatch,
    BlobError::TextPoolOutOfBounds,
    BlobError::InvalidUtf8,
];

fn check_messages(version_substr: &str) {
    // Each variant must produce a non-empty, distinct human-readable message.
    let cases: &[(BlobError, &str)] = &[
        (BlobError::TooSmall, "64 bytes"),
        (BlobError::InvalidMagic, "MKSC"),
        (BlobError::UnsupportedVersion, version_substr),
        (BlobError::SizeMismatch, "size mismatch"),
        (BlobError::TextPoolOutOfBounds, "text pool"),
        (BlobError::InvalidUtf8, "UTF-8"),
    ];
    for (err, expected_substr) in cases {
        let msg = err.message().to_string();
        assert!(
            msg.contains(expected_substr),
            "Display for {err:?} = {msg:?}; expected to contain {expected_substr:?}"
        );
    }
}

fn check_distinct() {
    let mut messages: Vec<String> = ALL.iter().map(|e| e.message().to_string()).collect();
    messages.sort();
    messages.dedup();
    assert_eq!(
        messages.len(),
        6,
        "All BlobError variants must have distinct Display messages"
    );
}

#[test]
fn from_blob_test_blob_error_display_messages() {
    check_messages("version 1");
}

#[test]
fn from_blob_test_blob_error_display_all_variants_distinct() {
    check_distinct();
}

#[test]
fn tests_test_blob_error_display_messages() {
    check_messages("versions 1 and 2");
}

#[test]
fn tests_test_blob_error_display_all_variants_distinct() {
    check_distinct();
}

#[test]
fn golden_tests_test_blob_error_display_messages() {
    check_messages("versions 1 and 2");
}

#[test]
fn golden_tests_test_blob_error_display_all_variants_distinct() {
    check_distinct();
}
