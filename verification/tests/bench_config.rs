use markymark_index::bench::config::{doc_counts_from, sample_size_from};

#[test]
fn uses_default_when_no_env_is_set() {
    assert_eq!(sample_size_from(None, false, 20), 20);
}

#[test]
fn supports_legacy_heavy_flag() {
    assert_eq!(sample_size_from(None, true, 20), 100);
}

#[test]
fn supports_tier_names() {
    assert_eq!(sample_size_from(Some("light"), false, 20), 10);
    assert_eq!(sample_size_from(Some("medium"), false, 20), 50);
    assert_eq!(sample_size_from(Some("heavy"), false, 20), 100);
}

#[test]
fn supports_numeric_override() {
    assert_eq!(sample_size_from(Some("75"), false, 20), 75);
}

#[test]
fn invalid_values_fallback_to_default() {
    assert_eq!(sample_size_from(Some("banana"), false, 20), 20);
}

#[test]
fn explicit_samples_env_takes_precedence_over_legacy_heavy() {
    assert_eq!(sample_size_from(Some("50"), true, 20), 50);
}

#[test]
fn doc_tier_defaults_to_medium() {
    assert_eq!(doc_counts_from(None), vec![100, 1_000]);
}

#[test]
fn doc_tier_supports_named_levels() {
    assert_eq!(doc_counts_from(Some("light")), vec![100]);
    assert_eq!(doc_counts_from(Some("medium")), vec![100, 1_000]);
    assert_eq!(doc_counts_from(Some("heavy")), vec![100, 1_000, 5_000]);
    assert_eq!(doc_counts_from(Some("extreme")), vec![100, 1_000, 5_000, 10_000]);
}

#[test]
fn doc_tier_invalid_value_falls_back_to_medium() {
    assert_eq!(doc_counts_from(Some("banana")), vec![100, 1_000]);
}

#[test]
fn sample_setting_is_trimmed_and_case_folded() {
    assert_eq!(sample_size_from(Some("  Heavy\n"), false, 20), 100);
    assert_eq!(sample_size_from(Some(" 30 "), false, 20), 30);
    assert_eq!(doc_counts_from(Some("\tEXTREME ")), vec![100, 1_000, 5_000, 10_000]);
}

#[test]
fn small_or_malformed_numbers_fall_back() {
    assert_eq!(sample_size_from(Some("9"), false, 20), 20);
    assert_eq!(sample_size_from(Some("10"), false, 20), 10);
    assert_eq!(sample_size_from(Some("+12"), false, 20), 12);
    assert_eq!(sample_size_from(Some("-12"), false, 20), 20);
    assert_eq!(sample_size_from(Some(""), true, 20), 20);
    assert_eq!(
        sample_size_from(Some("99999999999999999999999"), false, 20),
        20
    );
}
