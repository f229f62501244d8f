use markymark_index::document::slug::dedup_slug;
use markymark_index::slugify;

#[test]
fn slugify_lowercases_and_dashes_spaces() {
    assert_eq!(slugify("Hello World"), "hello-world");
    assert_eq!(slugify("Title One"), "title-one");
}

#[test]
fn slugify_drops_punctuation() {
    assert_eq!(slugify("What's new? (2024)"), "whats-new-2024");
    assert_eq!(slugify("Foo!"), "foo");
}

#[test]
fn slugify_collapses_and_trims_dashes() {
    assert_eq!(slugify("  a  --  b  "), "a-b");
    assert_eq!(slugify("---x---"), "x");
    assert_eq!(slugify("-"), "");
    assert_eq!(slugify(""), "");
}

#[test]
fn slugify_keeps_unicode_letters() {
    assert_eq!(slugify("Ünïcödé Title"), "ünïcödé-title");
    assert_eq!(slugify("日本 語"), "日本-語");
}

#[test]
fn slugify_tab_is_dropped_not_dashed() {
    assert_eq!(slugify("a\tb"), "ab");
}

#[test]
fn dedup_slug_numbers_repeats_in_order() {
    let mut used: Vec<String> = Vec::new();
    assert_eq!(dedup_slug("a", &mut used), "a");
    assert_eq!(dedup_slug("a", &mut used), "a-1");
    assert_eq!(dedup_slug("b", &mut used), "b");
    assert_eq!(dedup_slug("a", &mut used), "a-2");
    assert_eq!(used, vec!["a", "a-1", "b", "a-2"]);
}

#[test]
fn dedup_slug_skips_a_numbered_slug_already_handed_out() {
    let mut used: Vec<String> = Vec::new();
    assert_eq!(dedup_slug("title", &mut used), "title");
    assert_eq!(dedup_slug("title-1", &mut used), "title-1");
    assert_eq!(dedup_slug("title", &mut used), "title-2");
    assert_eq!(dedup_slug("title-1", &mut used), "title-1-1");
}

#[test]
fn dedup_slug_hands_out_distinct_slugs() {
    let mut used: Vec<String> = Vec::new();
    for base in ["title", "title", "title-1", "title-2", "title", "x", "x-1", "x"] {
        dedup_slug(base, &mut used);
    }
    let mut sorted = used.clone();
    sorted.sort();
    sorted.dedup();
    assert_eq!(sorted.len(), used.len());
}

#[test]
fn dedup_slug_ten_repeats_use_two_digits() {
    let mut used: Vec<String> = Vec::new();
    let mut last = String::new();
    for _ in 0..11 {
        last = dedup_slug("x", &mut used);
    }
    assert_eq!(last, "x-10");
}
