use markymark_index::{build_mixed_size_corpus, build_sized_doc, DocSizeTier};

#[test]
fn sized_docs_meet_minimum_target_size() {
    let small = build_sized_doc(1, DocSizeTier::Small);
    let medium = build_sized_doc(2, DocSizeTier::Medium);
    let large = build_sized_doc(3, DocSizeTier::Large);

    assert!(small.len() >= 1_024);
    assert!(medium.len() >= 10_240);
    assert!(large.len() >= 102_400);
}

#[test]
fn mixed_corpus_respects_requested_count() {
    let docs = build_mixed_size_corpus(37);
    assert_eq!(docs.len(), 37);
}

#[test]
fn mixed_corpus_contains_multiple_size_bands() {
    let docs = build_mixed_size_corpus(6);
    let lengths: Vec<usize> = docs.iter().map(String::len).collect();

    assert!(lengths[0] < lengths[1]);
    assert!(lengths[1] < lengths[2]);
    assert!(lengths[3] < lengths[4]);
    assert!(lengths[4] < lengths[5]);
}

#[test]
fn sized_doc_starts_with_numbered_header() {
    let doc = build_sized_doc(42, DocSizeTier::Small);
    assert!(doc.starts_with("# Synthetic Document 42\n\ntitle: synthetic-42\nkind: benchmark\n---\n\n## Section A\n"));
    assert!(doc.contains("[markdown links](https://example.com/42)."));
    assert!(doc.contains("<task id=\"t42\" owner=\"bench\">alpha</task>\n\n- item 42\n"));
    assert!(doc.ends_with("- json-ish {\"id\": 42, \"state\": \"active\"}\n\n"));
}

#[test]
fn sized_doc_stops_at_first_chunk_past_target() {
    // Removing the last repeated block must leave the document under the target.
    let doc = build_sized_doc(7, DocSizeTier::Small);
    let chunk = "- item 7\n- nested detail for ^block-7\n- xml <meta key=\"k7\" value=\"v7\" />\n- json-ish {\"id\": 7, \"state\": \"active\"}\n\n";
    assert!(doc.len() >= 1_024);
    assert!(doc.len() - chunk.len() < 1_024);
    assert!(doc.ends_with(chunk));
}

#[test]
fn sized_doc_index_zero_uses_digit_zero() {
    let doc = build_sized_doc(0, DocSizeTier::Small);
    assert!(doc.starts_with("# Synthetic Document 0\n"));
    assert!(doc.contains("^block-0\n"));
}

#[test]
fn mixed_corpus_cycles_tiers() {
    let docs = build_mixed_size_corpus(4);
    assert_eq!(docs[0], build_sized_doc(0, DocSizeTier::Small));
    assert_eq!(docs[1], build_sized_doc(1, DocSizeTier::Medium));
    assert_eq!(docs[2], build_sized_doc(2, DocSizeTier::Large));
    assert_eq!(docs[3], build_sized_doc(3, DocSizeTier::Small));
}

#[test]
fn mixed_corpus_of_zero_is_empty() {
    assert!(build_mixed_size_corpus(0).is_empty());
}
