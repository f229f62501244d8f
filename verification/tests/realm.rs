use std::collections::HashMap;

use markymark_index::realm::stem::stem_of;

use markymark_index::{
    resolve_block_ref, resolve_markdown_link, resolve_wiki_link, DocumentIndex, RealmIndex, ResolvedTarget,
};

/// Writes v1 scan blobs holding headings, tags, block ids and code spans.
struct Doc {
    pool: Vec<u8>,
    headings: Vec<u8>,
    tags: Vec<u8>,
    blocks: Vec<u8>,
    spans: Vec<u8>,
}

fn put(rec: &mut [u8], off: usize, v: u32) {
    rec[off..off + 4].copy_from_slice(&v.to_le_bytes());
}

impl Doc {
    fn new() -> Self {
        Doc { pool: Vec::new(), headings: Vec::new(), tags: Vec::new(), blocks: Vec::new(), spans: Vec::new() }
    }

    fn text(&mut self, s: &str) -> (u32, u32) {
        let off = self.pool.len() as u32;
        self.pool.extend_from_slice(s.as_bytes());
        (off, s.len() as u32)
    }

    fn heading(mut self, text: &str, slug: &str, level: u8, line: u32) -> Self {
        let mut r = vec![0u8; 40];
        let (o, l) = self.text(text);
        put(&mut r, 0, o);
        put(&mut r, 4, l);
        let (o, l) = self.text(slug);
        put(&mut r, 8, o);
        put(&mut r, 12, l);
        put(&mut r, 20, line);
        put(&mut r, 28, line);
        put(&mut r, 32, level as u32 + 1 + text.len() as u32);
        r[36] = level;
        self.headings.extend(r);
        self
    }

    fn tag(mut self, name: &str) -> Self {
        let mut r = vec![0u8; 24];
        let (o, l) = self.text(name);
        put(&mut r, 0, o);
        put(&mut r, 4, l);
        self.tags.extend(r);
        self
    }

    fn block(mut self, id: &str, line: u32) -> Self {
        let mut r = vec![0u8; 28];
        let (o, l) = self.text(id);
        put(&mut r, 0, o);
        put(&mut r, 4, l);
        put(&mut r, 12, line);
        put(&mut r, 16, 5);
        put(&mut r, 20, line);
        put(&mut r, 24, 5 + 1 + l);
        self.blocks.extend(r);
        self
    }

    fn code_span(mut self, text: &str, start: u32) -> Self {
        let mut r = vec![0u8; 32];
        let (o, l) = self.text(text);
        put(&mut r, 0, o);
        put(&mut r, 4, l);
        put(&mut r, 8, start);
        put(&mut r, 12, start + l + 2);
        put(&mut r, 20, start);
        put(&mut r, 28, start + l + 2);
        self.spans.extend(r);
        self
    }

    fn index(&self) -> DocumentIndex {
        let mut out = vec![0u8; 64];
        out[0..4].copy_from_slice(&0x4D4B_5343u32.to_le_bytes());
        out[4..6].copy_from_slice(&1u16.to_le_bytes());
        put(&mut out, 16, (self.headings.len() / 40) as u32);
        put(&mut out, 24, (self.tags.len() / 24) as u32);
        put(&mut out, 28, (self.blocks.len() / 28) as u32);
        put(&mut out, 32, 1);
        put(&mut out, 36, self.pool.len() as u32);
        put(&mut out, 48, (self.spans.len() / 32) as u32);
        out.extend(&self.headings);
        out.extend(&self.tags);
        out.extend(&self.blocks);
        out.extend(&self.spans);
        out.extend(0u32.to_le_bytes());
        out.extend(&self.pool);
        let total = out.len() as u32;
        put(&mut out, 44, total);
        DocumentIndex::from_blob(&out).expect("blob decodes")
    }
}

fn uri(name: &str) -> String {
    format!("file:///vault/{name}")
}

/// `# Hello\n## World`
fn hello_world() -> DocumentIndex {
    Doc::new().heading("Hello", "hello", 1, 0).heading("World", "world", 2, 1).index()
}

/// `# Intro` followed by one backtick code span per text.
fn with_code_spans(texts: &[&str]) -> DocumentIndex {
    let mut d = Doc::new().heading("Intro", "intro", 1, 0);
    for (i, t) in texts.iter().enumerate() {
        d = d.code_span(t, 9 + 10 * i as u32);
    }
    d.index()
}

fn tag_count_map(realm: &RealmIndex) -> HashMap<String, usize> {
    realm.tag_counts().into_iter().collect()
}

fn has_heading_of(realm: &RealmIndex, slug: &str, u: &str) -> bool {
    realm.lookup_heading(slug).iter().any(|(x, _)| x == u)
}

#[test]
fn tests_test_add_markdown_document() {
    let mut realm = RealmIndex::new();
    let uri = uri("test.md");
    realm.add_document(uri.clone(), hello_world());

    assert_eq!(realm.document_count(), 1);
    assert_eq!(realm.markdown_count(), 1);
    assert_eq!(realm.structured_count(), 0);
    assert!(realm.get_document(&uri).is_some());
}

#[test]
fn tests_test_markdown_cross_doc_still_works() {
    let mut realm = RealmIndex::new();
    let uri = uri("doc.md");
    realm.add_document(uri.clone(), hello_world());

    let headings = realm.lookup_heading("hello");
    assert_eq!(headings.len(), 1);
    assert_eq!(headings[0].0, uri);
}

#[test]
fn tests_test_realm_indexes_journal_by_date() {
    let mut realm = RealmIndex::new();
    let journal_uri = uri("journals/2024_01_15.md");
    realm.add_document(journal_uri.clone(), Doc::new().heading("Jan 15", "jan-15", 1, 0).index());

    let results = realm.lookup_journal_by_month(2024, 1);
    assert_eq!(results.len(), 1, "expected 1 journal doc for Jan 2024");
    assert_eq!(results[0].1, 15u8, "expected day=15");
}

#[test]
fn tests_test_realm_lookup_journal_by_month_multiple() {
    let mut realm = RealmIndex::new();
    realm.add_document(uri("journals/2024_01_01.md"), Doc::new().index());
    realm.add_document(uri("journals/2024_01_15.md"), Doc::new().index());
    realm.add_document(uri("journals/2024_01_31.md"), Doc::new().index());
    realm.add_document(uri("journals/2024_02_01.md"), Doc::new().index());
    realm.add_document(uri("journals/2024_02_15.md"), Doc::new().index());

    let jan = realm.lookup_journal_by_month(2024, 1);
    assert_eq!(jan.len(), 3, "expected 3 Jan docs, got {}", jan.len());

    let feb = realm.lookup_journal_by_month(2024, 2);
    assert_eq!(feb.len(), 2, "expected 2 Feb docs, got {}", feb.len());
}

#[test]
fn tests_test_realm_remove_journal_doc_cleans_up_date_index() {
    let mut realm = RealmIndex::new();
    let journal_uri = uri("journals/2024_03_10.md");
    realm.add_document(journal_uri.clone(), Doc::new().index());
    realm.remove_document(&journal_uri);

    let results = realm.lookup_journal_by_month(2024, 3);
    assert!(results.is_empty(), "after removal, lookup should return empty — got {} docs", results.len());
}

#[test]
fn tests_test_add_document_populates_code_spans() {
    let mut realm = RealmIndex::new();
    let u = uri("test.md");
    realm.add_document(u.clone(), with_code_spans(&["HashMap"]));

    let results = realm.lookup_code_span("HashMap");
    assert_eq!(results.len(), 1, "expected 1 code span entry");
    assert_eq!(results[0].0, u);
    assert_eq!(results[0].1.text, "HashMap");
}

#[test]
fn tests_test_remove_document_cleans_code_spans() {
    let mut realm = RealmIndex::new();
    let u = uri("test.md");
    realm.add_document(u.clone(), with_code_spans(&["Vec"]));
    assert_eq!(realm.lookup_code_span("Vec").len(), 1);

    realm.remove_document(&u);
    assert!(realm.lookup_code_span("Vec").is_empty(), "code span should be cleaned up after removal");
}

#[test]
fn tests_test_code_span_dedup_per_document() {
    let mut realm = RealmIndex::new();
    let u = uri("test.md");
    realm.add_document(u.clone(), with_code_spans(&["Result", "Result", "Result"]));

    let results = realm.lookup_code_span("Result");
    assert_eq!(results.len(), 1, "same text 3x in one doc should produce 1 entry, got {}", results.len());
}

#[test]
fn tests_test_code_span_cross_doc() {
    let mut realm = RealmIndex::new();
    let u1 = uri("a.md");
    let u2 = uri("b.md");
    realm.add_document(u1.clone(), with_code_spans(&["Option"]));
    realm.add_document(u2.clone(), with_code_spans(&["Option"]));

    let results = realm.lookup_code_span("Option");
    assert_eq!(results.len(), 2, "expected 2 docs, got {}", results.len());
    let uris: Vec<_> = results.iter().map(|(u, _)| u.clone()).collect();
    assert!(uris.contains(&u1));
    assert!(uris.contains(&u2));
}

#[test]
fn tests_test_lookup_code_span_not_found() {
    let realm = RealmIndex::new();
    assert!(realm.lookup_code_span("NonExistent").is_empty(), "empty realm should return no results");
}

#[test]
fn code_span_test_lookup_code_span_not_found() {
    let realm = RealmIndex::new();
    assert!(realm.lookup_code_span("NonExistent").is_empty(), "empty realm should return no results");
}

#[test]
fn mod_test_lookup_code_span_not_found() {
    let realm = RealmIndex::new();
    assert!(realm.lookup_code_span("NonExistent").is_empty(), "empty realm should return no results");
}

/// `# Intro\n\n## Details\n\n### Deep\n\n#rust #zig`
fn three_headings_two_tags() -> DocumentIndex {
    Doc::new()
        .heading("Intro", "intro", 1, 0)
        .heading("Details", "details", 2, 2)
        .heading("Deep", "deep", 3, 4)
        .tag("rust")
        .tag("zig")
        .index()
}

fn heading_entry_count(realm: &RealmIndex) -> usize {
    ["intro", "details", "deep"].iter().map(|s| realm.lookup_heading(s).len()).sum()
}

#[test]
fn tests_test_update_no_structural_change() {
    let mut realm = RealmIndex::new();
    let u = uri("update_noop.md");
    realm.add_document(u.clone(), three_headings_two_tags());

    let heading_count_before = heading_entry_count(&realm);
    let tag_count_before: usize = realm.tag_counts().iter().map(|(_, c)| c).sum();

    realm.update_document(u.clone(), three_headings_two_tags());

    let heading_count_after = heading_entry_count(&realm);
    let tag_count_after: usize = realm.tag_counts().iter().map(|(_, c)| c).sum();

    assert_eq!(heading_count_before, heading_count_after, "heading entries unchanged on no-op update");
    assert_eq!(tag_count_before, tag_count_after, "tag entries unchanged on no-op update");
    assert!(realm.get_document(&u).is_some(), "document still in docs");
}

#[test]
fn tests_test_update_heading_added() {
    let mut realm = RealmIndex::new();
    let u = uri("update_heading_add.md");
    realm.add_document(u.clone(), Doc::new().heading("Intro", "intro", 1, 0).index());

    realm.update_document(
        u.clone(),
        Doc::new().heading("Intro", "intro", 1, 0).heading("Details", "details", 2, 2).index(),
    );

    assert!(has_heading_of(&realm, "intro", &u), "intro still has our doc");
    assert!(has_heading_of(&realm, "details", &u), "details added for our doc");
}

#[test]
fn tests_test_update_heading_removed() {
    let mut realm = RealmIndex::new();
    let u = uri("update_heading_rm.md");
    realm.add_document(
        u.clone(),
        Doc::new().heading("Intro", "intro", 1, 0).heading("Details", "details", 2, 2).index(),
    );
    let interned = realm.interner_len();

    realm.update_document(u.clone(), Doc::new().heading("Intro", "intro", 1, 0).index());

    assert!(!realm.lookup_heading("intro").is_empty(), "intro still present");
    assert!(!has_heading_of(&realm, "details", &u), "details removed for our doc");
    // Interned strings are never given back.
    assert_eq!(realm.interner_len(), interned);
}

#[test]
fn tests_test_update_tag_added_removed() {
    let mut realm = RealmIndex::new();
    let u = uri("update_tags.md");
    realm.add_document(u.clone(), Doc::new().heading("H", "h", 1, 0).tag("rust").tag("zig").index());

    realm.update_document(u.clone(), Doc::new().heading("H", "h", 1, 0).tag("rust").tag("wasm").index());

    let counts = tag_count_map(&realm);
    assert_eq!(counts.get("rust"), Some(&1), "rust tag still present");
    assert_eq!(counts.get("wasm"), Some(&1), "wasm tag added");
    assert_eq!(counts.get("zig"), None, "zig tag removed");
}

#[test]
fn tests_test_update_code_span_added() {
    let mut realm = RealmIndex::new();
    let u = uri("update_cs.md");
    realm.add_document(u.clone(), Doc::new().heading("H", "h", 1, 0).index());

    realm.update_document(u.clone(), with_code_spans(&["HashMap"]));

    let entries = realm.lookup_code_span("HashMap");
    assert!(!entries.is_empty(), "HashMap entry exists");
    assert!(entries.iter().any(|(x, _)| x == &u), "code span added for our doc");
}

#[test]
fn tests_test_update_block_id_removed() {
    let mut realm = RealmIndex::new();
    let u = uri("update_block.md");
    realm.add_document(u.clone(), Doc::new().heading("H", "h", 1, 0).block("abc", 2).index());
    assert!(realm.lookup_block("abc").is_some());

    realm.update_document(u.clone(), Doc::new().heading("H", "h", 1, 0).index());

    let has_our_doc = realm.lookup_block("abc").map(|(x, _)| x == u).unwrap_or(false);
    assert!(!has_our_doc, "block id removed for our doc");
}

#[test]
fn tests_test_update_preserves_other_docs_entries() {
    let mut realm = RealmIndex::new();
    let ua = uri("update_a.md");
    let ub = uri("update_b.md");
    realm.add_document(ua.clone(), Doc::new().heading("Intro", "intro", 1, 0).index());
    realm.add_document(ub.clone(), Doc::new().heading("Intro", "intro", 1, 0).index());

    let before = realm.lookup_heading("intro").len();
    assert_eq!(before, 2, "both docs contribute to intro");

    realm.update_document(ua.clone(), Doc::new().heading("Changed", "changed", 1, 0).index());

    assert!(has_heading_of(&realm, "intro", &ub), "doc B's intro entry preserved after doc A update");
    assert!(!has_heading_of(&realm, "intro", &ua), "doc A's intro entry removed");
}

// Properties of the realm on concrete documents.

#[test]
fn remove_after_add_restores_every_lookup() {
    let mut realm = RealmIndex::new();
    realm.add_document(uri("a.md"), three_headings_two_tags());
    let intro = realm.lookup_heading("intro");
    let tags = tag_count_map(&realm);

    let b = uri("b.md");
    realm.add_document(
        b.clone(),
        Doc::new().heading("Intro", "intro", 1, 0).tag("rust").block("x", 1).code_span("f", 3).index(),
    );
    assert_eq!(realm.lookup_heading("intro").len(), 2);
    realm.remove_document(&b);

    let after = realm.lookup_heading("intro");
    assert_eq!(after.len(), intro.len());
    assert_eq!(after[0].0, intro[0].0);
    assert_eq!(after[0].1.slug, intro[0].1.slug);
    assert_eq!(tag_count_map(&realm).get("rust"), tags.get("rust"));
    assert!(realm.lookup_block("x").is_none());
    assert!(realm.lookup_code_span("f").is_empty());
    assert_eq!(realm.document_count(), 1);
    assert!(realm.get_document(&b).is_none());
}

#[test]
fn adding_again_replaces_the_document() {
    let mut realm = RealmIndex::new();
    let u = uri("doc.md");
    realm.add_document(u.clone(), Doc::new().heading("Old", "old", 1, 0).tag("a").index());
    realm.add_document(u.clone(), Doc::new().heading("New", "new", 1, 0).tag("b").index());

    assert_eq!(realm.document_count(), 1);
    assert!(realm.lookup_heading("old").is_empty());
    assert_eq!(realm.lookup_heading("new").len(), 1);
    let counts = tag_count_map(&realm);
    assert_eq!(counts.get("a"), None);
    assert_eq!(counts.get("b"), Some(&1));
}

#[test]
fn update_of_a_new_document_adds_it() {
    let mut realm = RealmIndex::new();
    let u = uri("journals/2023-12-24.md");
    realm.update_document(u.clone(), hello_world());
    assert_eq!(realm.document_count(), 1);
    assert_eq!(realm.lookup_heading("world").len(), 1);
    assert_eq!(realm.journal_date(&u), Some((2023, 12, 24)));
    assert_eq!(realm.lookup_journal_by_month(2023, 12), vec![(u.clone(), 24u8)]);
}

#[test]
fn update_keeps_entries_under_unchanged_slugs() {
    // Entries under names both versions have stay as they were.
    let mut realm = RealmIndex::new();
    let u = uri("keep.md");
    realm.add_document(u.clone(), Doc::new().heading("Intro", "intro", 1, 0).index());
    realm.update_document(u.clone(), Doc::new().heading("Intro", "intro", 1, 7).index());
    let hs = realm.lookup_heading("intro");
    assert_eq!(hs.len(), 1);
    assert_eq!(hs[0].1.range.start.line, 0);
    // The document itself is the new version.
    assert_eq!(realm.get_document(&u).unwrap().headings()[0].range.start.line, 7);
}

#[test]
fn lookup_block_gives_the_first_document() {
    let mut realm = RealmIndex::new();
    realm.add_document(uri("first.md"), Doc::new().block("shared", 3).index());
    realm.add_document(uri("second.md"), Doc::new().block("shared", 9).index());
    let (u, b) = realm.lookup_block("shared").unwrap();
    assert_eq!(u, uri("first.md"));
    assert_eq!(b.id, "shared");
    assert_eq!(b.range.start.line, 3);
    assert!(realm.lookup_block("missing").is_none());
}

#[test]
fn headings_with_one_slug_keep_document_order() {
    let mut realm = RealmIndex::new();
    let u = uri("dup.md");
    realm.add_document(u.clone(), Doc::new().heading("Notes", "notes", 1, 0).heading("Notes", "notes", 2, 5).index());
    let hs = realm.lookup_heading("notes");
    assert_eq!(hs.len(), 2);
    assert_eq!(hs[0].1.level, 1);
    assert_eq!(hs[1].1.level, 2);
    assert_eq!(hs[1].1.text, "Notes");
}

#[test]
fn tag_counts_count_documents_once() {
    let mut realm = RealmIndex::new();
    realm.add_document(uri("a.md"), Doc::new().tag("x").tag("x").tag("y").index());
    realm.add_document(uri("b.md"), Doc::new().tag("x").index());
    let counts = tag_count_map(&realm);
    assert_eq!(counts.get("x"), Some(&2));
    assert_eq!(counts.get("y"), Some(&1));
    assert_eq!(counts.len(), 2);
}

#[test]
fn documents_iterate_in_order_and_count() {
    let mut realm = RealmIndex::default();
    assert_eq!(realm.document_count(), 0);
    assert_eq!(realm.interner_len(), 0);
    realm.add_document(uri("a.md"), hello_world());
    realm.add_document(uri("b.md"), Doc::new().index());
    let docs = realm.iter_documents();
    assert_eq!(docs.len(), 2);
    assert_eq!(docs[0].0, &uri("a.md"));
    assert_eq!(docs[1].0, &uri("b.md"));
    assert_eq!(docs[0].1.headings().len(), 2);
    // The slugs "hello" and "world" and the stems "a" and "b" are interned.
    assert_eq!(realm.interner_len(), 4);
}

#[test]
fn journal_date_needs_the_document() {
    let mut realm = RealmIndex::new();
    let u = uri("journals/2024_02_29.md");
    assert_eq!(realm.journal_date(&u), None);
    realm.add_document(u.clone(), Doc::new().index());
    assert_eq!(realm.journal_date(&u), Some((2024, 2, 29)));
    assert_eq!(realm.journal_date(&uri("notes.md")), None);
}

#[test]
fn markdown_anchor_resolves_to_a_heading_of_the_same_page() {
    let mut realm = RealmIndex::new();
    let u = uri("page.md");
    realm.add_document(
        u.clone(),
        Doc::new().heading("Setup", "setup", 1, 0).heading("Setup again", "setup", 2, 4).index(),
    );
    match resolve_markdown_link(&realm, &u, "", Some("setup")) {
        Some(ResolvedTarget::Heading { uri, slug, text }) => {
            assert_eq!(uri, u);
            assert_eq!(slug, "setup");
            // The later heading of a shared slug wins.
            assert_eq!(text, "Setup again");
        }
        other => panic!("unexpected {other:?}"),
    }
    assert!(resolve_markdown_link(&realm, &u, "", Some("missing")).is_none());
    assert!(resolve_markdown_link(&realm, &u, "other.md", Some("setup")).is_none());
    assert!(resolve_markdown_link(&realm, &u, "", None).is_none());
    assert!(resolve_markdown_link(&realm, &uri("absent.md"), "", Some("setup")).is_none());
}

#[test]
fn markdown_link_with_url_resolves_to_a_heading_of_the_linked_document() {
    let mut realm = RealmIndex::new();
    let from = uri("docs/a.md");
    realm.add_document(from.clone(), Doc::new().heading("Intro", "intro", 1, 0).index());
    realm.add_document(uri("guide/b.md"), Doc::new().heading("Setup", "setup", 1, 0).index());
    match resolve_markdown_link(&realm, &from, "../guide/b.md", Some("setup")) {
        Some(ResolvedTarget::Heading { uri: u, slug, text }) => {
            assert_eq!(u, uri("guide/b.md"));
            assert_eq!(slug, "setup");
            assert_eq!(text, "Setup");
        }
        other => panic!("unexpected {other:?}"),
    }
    assert!(resolve_markdown_link(&realm, &from, "../guide/b.md", Some("missing")).is_none());
    assert!(resolve_markdown_link(&realm, &from, "../guide/b.md", None).is_none());
    assert!(resolve_markdown_link(&realm, &from, "./a.md", Some("intro")).is_some());
}

#[test]
fn block_ref_resolves_to_the_first_document_with_the_block() {
    let mut realm = RealmIndex::new();
    realm.add_document(uri("one.md"), Doc::new().block("b1", 2).index());
    realm.add_document(uri("two.md"), Doc::new().block("b1", 7).block("b2", 8).index());
    match resolve_block_ref(&realm, "b1") {
        Some(ResolvedTarget::Block { uri: u, id }) => {
            assert_eq!(u, uri("one.md"));
            assert_eq!(id, "b1");
        }
        other => panic!("unexpected {other:?}"),
    }
    match resolve_block_ref(&realm, "b2") {
        Some(ResolvedTarget::Block { uri: u, .. }) => assert_eq!(u, uri("two.md")),
        other => panic!("unexpected {other:?}"),
    }
    assert!(resolve_block_ref(&realm, "b3").is_none());
}

#[test]
fn wiki_link_resolves_by_page_and_heading() {
    let mut realm = RealmIndex::new();
    let here = uri("here.md");
    let there = uri("There.md");
    realm.add_document(here.clone(), Doc::new().heading("Local", "local", 1, 0).index());
    realm.add_document(there.clone(), Doc::new().heading("Remote", "remote", 2, 3).index());

    // [[#local]]
    match resolve_wiki_link(&realm, &here, "", Some("local")) {
        Some(ResolvedTarget::Heading { uri, slug, text }) => {
            assert_eq!(uri, here);
            assert_eq!(slug, "local");
            assert_eq!(text, "Local");
        }
        other => panic!("unexpected {other:?}"),
    }
    // [[there]], matched by stem without regard to ASCII case.
    match resolve_wiki_link(&realm, &here, "THERE", None) {
        Some(ResolvedTarget::Document(u)) => assert_eq!(u, there),
        other => panic!("unexpected {other:?}"),
    }
    // [[there#remote]]
    match resolve_wiki_link(&realm, &here, "there", Some("remote")) {
        Some(ResolvedTarget::Heading { uri, slug, text }) => {
            assert_eq!(uri, there);
            assert_eq!(slug, "remote");
            assert_eq!(text, "Remote");
        }
        other => panic!("unexpected {other:?}"),
    }
    // A heading that page does not have, a page that is not there, nothing at all.
    assert!(resolve_wiki_link(&realm, &here, "there", Some("local")).is_none());
    assert!(resolve_wiki_link(&realm, &here, "nowhere", None).is_none());
    assert!(resolve_wiki_link(&realm, &here, "nowhere", Some("local")).is_none());
    assert!(resolve_wiki_link(&realm, &here, "", None).is_none());
}

fn check_stem_index_basic_lookup() {
    let mut realm = RealmIndex::new();
    let u = uri("notes.md");
    realm.add_document(u.clone(), hello_world());
    assert_eq!(realm.find_uri_by_stem("notes"), Some(u), "basic stem lookup should find the document");
}

fn check_stem_index_case_insensitive() {
    let mut realm = RealmIndex::new();
    let u = "file:///vault/MyPage.md".to_string();
    realm.add_document(u.clone(), hello_world());
    assert_eq!(realm.find_uri_by_stem("mypage"), Some(u.clone()), "lowercase query should match mixed-case stem");
    assert_eq!(realm.find_uri_by_stem("MYPAGE"), Some(u), "uppercase query should match mixed-case stem");
}

fn check_stem_index_cross_doc_same_stem() {
    let mut realm = RealmIndex::new();
    let u1 = "file:///vault/a/readme.md".to_string();
    let u2 = "file:///vault/b/readme.md".to_string();
    realm.add_document(u1.clone(), hello_world());
    realm.add_document(u2.clone(), hello_world());
    assert_eq!(realm.find_uri_by_stem("readme"), Some(u1), "same-stem collision should return first-added document");
}

fn check_stem_index_remove_then_lookup() {
    let mut realm = RealmIndex::new();
    let u = uri("page.md");
    realm.add_document(u.clone(), hello_world());
    assert!(realm.find_uri_by_stem("page").is_some());
    realm.remove_document(&u);
    assert_eq!(realm.find_uri_by_stem("page"), None, "stem lookup should return None after document removal");
}

fn check_stem_index_replace_document() {
    let mut realm = RealmIndex::new();
    let u = uri("page.md");
    realm.add_document(u.clone(), Doc::new().heading("Old", "old", 1, 0).index());
    realm.add_document(u.clone(), Doc::new().heading("New", "new", 1, 0).index());
    assert_eq!(
        realm.find_uri_by_stem("page"),
        Some(u.clone()),
        "stem lookup should work after document replacement (no duplicates)"
    );
    // Removing it once leaves no stale entry behind.
    realm.remove_document(&u);
    assert_eq!(realm.find_uri_by_stem("page"), None);
}

fn check_stem_index_remove_one_of_two_same_stem() {
    let mut realm = RealmIndex::new();
    let u1 = "file:///vault/a/readme.md".to_string();
    let u2 = "file:///vault/b/readme.md".to_string();
    realm.add_document(u1.clone(), hello_world());
    realm.add_document(u2.clone(), hello_world());
    realm.remove_document(&u1);
    assert_eq!(
        realm.find_uri_by_stem("readme"),
        Some(u2),
        "after removing first doc, stem should resolve to remaining doc"
    );
}

#[test]
fn tests_test_stem_index_basic_lookup() {
    check_stem_index_basic_lookup();
}

#[test]
fn code_span_test_stem_index_basic_lookup() {
    check_stem_index_basic_lookup();
}

#[test]
fn mod_test_stem_index_basic_lookup() {
    check_stem_index_basic_lookup();
}

#[test]
fn tests_test_stem_index_case_insensitive() {
    check_stem_index_case_insensitive();
}

#[test]
fn code_span_test_stem_index_case_insensitive() {
    check_stem_index_case_insensitive();
}

#[test]
fn mod_test_stem_index_case_insensitive() {
    check_stem_index_case_insensitive();
}

#[test]
fn tests_test_stem_index_cross_doc_same_stem() {
    check_stem_index_cross_doc_same_stem();
}

#[test]
fn code_span_test_stem_index_cross_doc_same_stem() {
    check_stem_index_cross_doc_same_stem();
}

#[test]
fn mod_test_stem_index_cross_doc_same_stem() {
    check_stem_index_cross_doc_same_stem();
}

#[test]
fn tests_test_stem_index_remove_then_lookup() {
    check_stem_index_remove_then_lookup();
}

#[test]
fn code_span_test_stem_index_remove_then_lookup() {
    check_stem_index_remove_then_lookup();
}

#[test]
fn mod_test_stem_index_remove_then_lookup() {
    check_stem_index_remove_then_lookup();
}

#[test]
fn tests_test_stem_index_replace_document() {
    check_stem_index_replace_document();
}

#[test]
fn code_span_test_stem_index_replace_document() {
    check_stem_index_replace_document();
}

#[test]
fn mod_test_stem_index_replace_document() {
    check_stem_index_replace_document();
}

#[test]
fn tests_test_stem_index_remove_one_of_two_same_stem() {
    check_stem_index_remove_one_of_two_same_stem();
}

#[test]
fn code_span_test_stem_index_remove_one_of_two_same_stem() {
    check_stem_index_remove_one_of_two_same_stem();
}

#[test]
fn mod_test_stem_index_remove_one_of_two_same_stem() {
    check_stem_index_remove_one_of_two_same_stem();
}

#[test]
fn stems_need_a_file_uri_and_drop_the_extension() {
    assert_eq!(stem_of("file:///vault/Notes.MD").as_deref(), Some("notes"));
    assert_eq!(stem_of("file:///vault/a.b.md").as_deref(), Some("a.b"));
    assert_eq!(stem_of("file:///vault/.hidden").as_deref(), Some(".hidden"));
    assert_eq!(stem_of("file:///vault/README").as_deref(), Some("readme"));
    assert_eq!(stem_of("untitled:Untitled-1"), None);
    assert_eq!(stem_of("file:///vault/"), None);
}

#[test]
fn add_documents_adds_each_in_turn() {
    let mut realm = RealmIndex::new();
    realm.add_documents(vec![
        (uri("a.md"), Doc::new().heading("Shared", "shared", 1, 0).index()),
        (uri("b.md"), Doc::new().heading("Shared", "shared", 1, 0).tag("t").index()),
        (uri("a.md"), Doc::new().tag("t").index()),
    ]);
    assert_eq!(realm.document_count(), 2);
    // The second `a.md` replaced the first, which had the heading.
    let hs: Vec<String> = realm.lookup_heading("shared").into_iter().map(|(u, _)| u).collect();
    assert_eq!(hs, vec![uri("b.md")]);
    assert_eq!(tag_count_map(&realm).get("t"), Some(&2));
    let order: Vec<String> = realm.iter_documents().into_iter().map(|(u, _)| u.clone()).collect();
    assert_eq!(order, vec![uri("b.md"), uri("a.md")]);
}

#[test]
fn add_document_structural_matches_add_document() {
    let mut a = RealmIndex::new();
    let mut b = RealmIndex::new();
    a.add_document(uri("x.md"), hello_world());
    b.add_document_structural(uri("x.md"), hello_world());
    assert_eq!(a.lookup_heading("world").len(), b.lookup_heading("world").len());
    assert_eq!(a.document_count(), b.document_count());
}

#[test]
fn add_documents_with_new_uris_appends_them_in_order() {
    let mut realm = RealmIndex::new();
    realm.add_document(uri("first.md"), hello_world());
    realm.add_documents(vec![
        (uri("c.md"), hello_world()),
        (uri("a.md"), hello_world()),
        (uri("b.md"), hello_world()),
    ]);
    let order: Vec<String> = realm.iter_documents().into_iter().map(|(u, _)| u.clone()).collect();
    assert_eq!(order, vec![uri("first.md"), uri("c.md"), uri("a.md"), uri("b.md")]);
    assert_eq!(realm.lookup_heading("hello").len(), 4);
}

#[test]
fn tag_counts_follow_the_documents_through_updates_and_removals() {
    let mut realm = RealmIndex::new();
    realm.add_document(uri("a.md"), Doc::new().tag("x").tag("y").tag("x").index());
    realm.add_document(uri("b.md"), Doc::new().tag("x").index());
    realm.update_document(uri("a.md"), Doc::new().tag("y").index());
    let counts: HashMap<String, usize> = realm.tag_counts().into_iter().collect();
    assert_eq!(counts.get("x"), Some(&1));
    assert_eq!(counts.get("y"), Some(&1));
    realm.remove_document(&uri("b.md"));
    realm.add_document(uri("c.md"), Doc::new().tag("y").index());
    let counts: HashMap<String, usize> = realm.tag_counts().into_iter().collect();
    assert_eq!(counts.get("x"), None);
    assert_eq!(counts.get("y"), Some(&2));
}

#[test]
fn update_and_remove_then_add_list_the_same_tags() {
    let mut updated = RealmIndex::new();
    let mut readded = RealmIndex::new();
    for realm in [&mut updated, &mut readded] {
        realm.add_document(uri("a.md"), Doc::new().tag("old").index());
        realm.add_document(uri("b.md"), Doc::new().tag("new").index());
    }
    updated.update_document(uri("a.md"), Doc::new().tag("new").index());
    readded.remove_document(&uri("a.md"));
    readded.add_document(uri("a.md"), Doc::new().tag("new").index());
    let mut u: Vec<(String, usize)> = updated.tag_counts();
    let mut r: Vec<(String, usize)> = readded.tag_counts();
    u.sort();
    r.sort();
    assert_eq!(u, r);
    assert_eq!(updated.document_count(), readded.document_count());
}
