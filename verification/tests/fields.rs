use markymark_index::document::fields::{
    collect_alias_strings, frontmatter_entries, frontmatter_fields, FrontmatterField, FrontmatterRaw,
};
use markymark_index::FrontmatterValueOwned;

fn keys(fields: &[FrontmatterField]) -> Vec<&str> {
    fields.iter().map(|f| f.key.as_str()).collect()
}

fn scalar(f: &FrontmatterField) -> &str {
    match &f.value {
        FrontmatterRaw::Scalar(s) => s.as_str(),
        FrontmatterRaw::List(_) => panic!("expected a scalar"),
    }
}

fn list(f: &FrontmatterField) -> Vec<&str> {
    match &f.value {
        FrontmatterRaw::List(items) => items.iter().map(|s| s.as_str()).collect(),
        FrontmatterRaw::Scalar(_) => panic!("expected a list"),
    }
}

#[test]
fn crlf_frontmatter_fields_are_found() {
    let fields = frontmatter_fields("---\r\ntitle: Hello\r\ntags: [a, b]\r\n---\r\nBody\r\n");
    assert_eq!(keys(&fields), vec!["title", "tags"]);
    assert_eq!(scalar(&fields[0]), "Hello");
    assert_eq!(list(&fields[1]), vec!["a", "b"]);
}

#[test]
fn lf_frontmatter_fields_are_found() {
    let fields = frontmatter_fields("---\ntitle: Hello\n---\nBody\n");
    assert_eq!(keys(&fields), vec!["title"]);
    assert_eq!(scalar(&fields[0]), "Hello");
}

#[test]
fn mixed_endings_stop_at_the_earliest_close() {
    let fields = frontmatter_fields("---\ntitle: A\n---\nbogus: B\r\n---\r\nMore\n");
    assert_eq!(keys(&fields), vec!["title"]);
}

#[test]
fn empty_frontmatter_has_no_fields() {
    assert!(frontmatter_fields("---\n---\nBody").is_empty());
    assert!(frontmatter_fields("---\r\n---\r\nBody").is_empty());
    assert!(frontmatter_fields("---\n---\n").is_empty());
}

#[test]
fn text_without_frontmatter_has_no_fields() {
    assert!(frontmatter_fields("").is_empty());
    assert!(frontmatter_fields("# Title\nkey: value\n").is_empty());
    assert!(frontmatter_fields("---\ntitle: never closed\n").is_empty());
}

#[test]
fn only_the_first_colon_splits_key_and_value() {
    let fields = frontmatter_fields("---\nurl: http://x.y\n---\n");
    assert_eq!(keys(&fields), vec!["url"]);
    assert_eq!(scalar(&fields[0]), "http://x.y");
}

#[test]
fn lines_without_colon_or_key_are_skipped() {
    let fields = frontmatter_fields("---\njust text\n: no key\n  spaced :  value  \n---\n");
    assert_eq!(keys(&fields), vec!["spaced"]);
    assert_eq!(scalar(&fields[0]), "value");
}

#[test]
fn list_items_are_trimmed_and_empty_ones_dropped() {
    let fields = frontmatter_fields("---\naliases: [ one , , two,]\nempty: []\n---\n");
    assert_eq!(list(&fields[0]), vec!["one", "two"]);
    assert!(list(&fields[1]).is_empty());
}

#[test]
fn collect_alias_strings_takes_non_empty_strings() {
    let mut aliases = vec!["first".to_string()];
    collect_alias_strings(&FrontmatterValueOwned::String("second".to_string()), &mut aliases);
    collect_alias_strings(&FrontmatterValueOwned::String(String::new()), &mut aliases);
    collect_alias_strings(&FrontmatterValueOwned::Integer(3), &mut aliases);
    collect_alias_strings(
        &FrontmatterValueOwned::List(vec![
            FrontmatterValueOwned::String("third".to_string()),
            FrontmatterValueOwned::Boolean(true),
            FrontmatterValueOwned::String(String::new()),
            FrontmatterValueOwned::String("fourth".to_string()),
        ]),
        &mut aliases,
    );
    assert_eq!(aliases, vec!["first", "second", "third", "fourth"]);
}

#[test]
fn frontmatter_entries_keep_order_and_gather_aliases() {
    let (entries, aliases) = frontmatter_entries(vec![
        ("title".to_string(), FrontmatterValueOwned::String("T".to_string())),
        (
            "aliases".to_string(),
            FrontmatterValueOwned::List(vec![
                FrontmatterValueOwned::String("a1".to_string()),
                FrontmatterValueOwned::String("a2".to_string()),
            ]),
        ),
        ("count".to_string(), FrontmatterValueOwned::Integer(2)),
        ("aliases".to_string(), FrontmatterValueOwned::String("a3".to_string())),
    ]);
    let ks: Vec<&str> = entries.iter().map(|e| e.key.as_str()).collect();
    assert_eq!(ks, vec!["title", "aliases", "count", "aliases"]);
    assert!(matches!(entries[2].value, FrontmatterValueOwned::Integer(2)));
    assert_eq!(aliases, vec!["a1", "a2", "a3"]);
}

#[test]
fn frontmatter_entries_ignore_aliases_under_other_keys() {
    let (entries, aliases) = frontmatter_entries(vec![(
        "alias".to_string(),
        FrontmatterValueOwned::String("x".to_string()),
    )]);
    assert_eq!(entries.len(), 1);
    assert!(aliases.is_empty());
}
