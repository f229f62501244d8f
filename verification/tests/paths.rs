use markymark_index::realm::paths::{linked_document_uri, resolve_relative_path};

#[test]
fn tests_test_resolve_relative_path_normal() {
    // From /vault/docs/api → ../guide/overview.md = /vault/docs/guide/overview.md
    let result = resolve_relative_path("/vault/docs/api", "../guide/overview.md");
    assert_eq!(result, "/vault/docs/guide/overview.md");
}

#[test]
fn tests_test_resolve_relative_path_dot_underflow_clamps_at_root() {
    // Excessive `..` must not produce a relative path — result must stay absolute.
    let result = resolve_relative_path("/vault", "../../file.md");
    assert!(
        std::path::Path::new(&result).is_absolute(),
        "excessive `..` must not produce a relative path; got: {:?}",
        result
    );
}

#[test]
fn tests_test_resolve_relative_path_single_dot_is_noop() {
    let result = resolve_relative_path("/vault/docs", "./same.md");
    assert_eq!(result, "/vault/docs/same.md");
}

#[test]
fn tests_test_resolve_relative_path_no_segments() {
    let result = resolve_relative_path("/vault/docs", "file.md");
    assert_eq!(result, "/vault/docs/file.md");
}

#[test]
fn core_test_resolve_relative_path_normal() {
    // From /vault/docs/api → ../guide/overview.md = /vault/docs/guide/overview.md
    let result = resolve_relative_path("/vault/docs/api", "../guide/overview.md");
    assert_eq!(result, "/vault/docs/guide/overview.md");
}

#[test]
fn core_test_resolve_relative_path_dot_underflow_clamps_at_root() {
    // Excessive `..` must not produce a relative path — result must stay absolute.
    let result = resolve_relative_path("/vault", "../../file.md");
    assert!(
        std::path::Path::new(&result).is_absolute(),
        "excessive `..` must not produce a relative path; got: {:?}",
        result
    );
}

#[test]
fn core_test_resolve_relative_path_single_dot_is_noop() {
    let result = resolve_relative_path("/vault/docs", "./same.md");
    assert_eq!(result, "/vault/docs/same.md");
}

#[test]
fn core_test_resolve_relative_path_no_segments() {
    let result = resolve_relative_path("/vault/docs", "file.md");
    assert_eq!(result, "/vault/docs/file.md");
}

#[test]
fn mod_test_resolve_relative_path_normal() {
    // From /vault/docs/api → ../guide/overview.md = /vault/docs/guide/overview.md
    let result = resolve_relative_path("/vault/docs/api", "../guide/overview.md");
    assert_eq!(result, "/vault/docs/guide/overview.md");
}

#[test]
fn mod_test_resolve_relative_path_dot_underflow_clamps_at_root() {
    // Excessive `..` must not produce a relative path — result must stay absolute.
    let result = resolve_relative_path("/vault", "../../file.md");
    assert!(
        std::path::Path::new(&result).is_absolute(),
        "excessive `..` must not produce a relative path; got: {:?}",
        result
    );
}

#[test]
fn mod_test_resolve_relative_path_single_dot_is_noop() {
    let result = resolve_relative_path("/vault/docs", "./same.md");
    assert_eq!(result, "/vault/docs/same.md");
}

#[test]
fn mod_test_resolve_relative_path_no_segments() {
    let result = resolve_relative_path("/vault/docs", "file.md");
    assert_eq!(result, "/vault/docs/file.md");
}

#[test]
fn relative_path_clamps_to_the_root_itself() {
    assert_eq!(resolve_relative_path("/vault", "../../file.md"), "/file.md");
    assert_eq!(resolve_relative_path("/", ".."), "/");
}

#[test]
fn relative_path_skips_empty_segments_and_keeps_relative_bases_relative() {
    assert_eq!(resolve_relative_path("/vault//docs/", "a//b/./c.md"), "/vault/docs/a/b/c.md");
    assert_eq!(resolve_relative_path("notes", "../x.md"), "x.md");
    assert_eq!(resolve_relative_path("", ""), "");
}

#[test]
fn linked_uri_resolves_against_the_linking_documents_directory() {
    assert_eq!(
        linked_document_uri("file:///vault/docs/a.md", "../guide/b.md").as_deref(),
        Some("file:///vault/guide/b.md")
    );
    assert_eq!(linked_document_uri("file:///a.md", "b.md").as_deref(), Some("file:///b.md"));
    assert_eq!(linked_document_uri("https://host/a.md", "b.md"), None);
}
