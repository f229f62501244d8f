use markymark_index::document::scan::{
    ScanBlockId, ScanBlockRef, ScanCallout, ScanCodeSpan, ScanEmbed, ScanHeading, ScanLink,
    ScanLinkDefinition, ScanLinkKind, ScanQueryBlock, ScanResults, ScanTag, ScanTask,
};
use markymark_index::{DocumentIndex, Position};

fn empty_scan() -> ScanResults {
    ScanResults {
        headings: Vec::new(),
        links: Vec::new(),
        tags: Vec::new(),
        block_ids: Vec::new(),
        code_spans: Vec::new(),
        tasks: Vec::new(),
        embeds: Vec::new(),
        block_refs: Vec::new(),
        callouts: Vec::new(),
        query_blocks: Vec::new(),
        link_definitions: Vec::new(),
    }
}

fn heading(text: &str, level: u8, offset: u32) -> ScanHeading {
    ScanHeading { text: text.to_string(), level, offset }
}

fn wiki(text: &str, target: &str, offset: u32) -> ScanLink {
    ScanLink { text: text.to_string(), target: target.to_string(), offset, kind: ScanLinkKind::Wiki }
}

fn markdown(text: &str, target: &str, offset: u32) -> ScanLink {
    ScanLink {
        text: text.to_string(),
        target: target.to_string(),
        offset,
        kind: ScanLinkKind::Markdown,
    }
}

fn tag(name: &str) -> ScanTag {
    ScanTag { name: name.to_string() }
}

fn block(id: &str, offset: u32) -> ScanBlockId {
    ScanBlockId { id: id.to_string(), offset }
}

/// What the scanner reports for each of the texts below.
fn scanned(source: &str) -> ScanResults {
    let mut s = empty_scan();
    match source {
        "" => {}
        "# Hello\n" => s.headings.push(heading("Hello", 1, 0)),
        "# First\n\n## Second\n\n### Third\n" => {
            s.headings.push(heading("First", 1, 0));
            s.headings.push(heading("Second", 2, 9));
            s.headings.push(heading("Third", 3, 20));
        }
        "# Root\n\n## Child\n\n### Grandchild\n" => {
            s.headings.push(heading("Root", 1, 0));
            s.headings.push(heading("Child", 2, 8));
            s.headings.push(heading("Grandchild", 3, 18));
        }
        "# Root\n\n## Child\n" => {
            s.headings.push(heading("Root", 1, 0));
            s.headings.push(heading("Child", 2, 8));
        }
        "See [example](https://example.com) here\n" => {
            s.links.push(markdown("example", "https://example.com", 4))
        }
        "See [[My Page]] here\n" => s.links.push(wiki("My Page", "My Page", 4)),
        "See [[target|display]] here\n" => s.links.push(wiki("display", "target", 4)),
        "text #topic #project\n" => {
            s.tags.push(tag("topic"));
            s.tags.push(tag("project"));
        }
        "some content ^my-block\n" => s.block_ids.push(block("my-block", 13)),
        "<goal>Ship</goal>\n" => {}
        _ => panic!("no scan recorded for this text"),
    }
    s
}

fn build_index_from_scan(source: &str) -> DocumentIndex {
    DocumentIndex::from_scan_results(source, scanned(source))
}

#[test]
fn scan_tests_test_from_scan_empty_document() {
    let index = build_index_from_scan("");
    assert!(index.headings().is_empty());
    assert!(index.wiki_links().is_empty());
    assert!(index.tags().is_empty());
    assert!(index.markdown_links().is_empty());
    assert!(index.toc().is_empty());
}

#[test]
fn scan_tests_test_from_scan_single_heading() {
    let index = build_index_from_scan("# Hello\n");
    assert_eq!(index.headings().len(), 1);
    assert_eq!(index.headings()[0].text, "Hello");
    assert_eq!(index.headings()[0].level, 1);
    assert_eq!(index.headings()[0].slug, "hello");
}

#[test]
fn scan_tests_test_from_scan_multiple_headings() {
    let index = build_index_from_scan("# First\n\n## Second\n\n### Third\n");
    assert_eq!(index.headings().len(), 3);
    assert_eq!(index.headings()[0].level, 1);
    assert_eq!(index.headings()[1].level, 2);
    assert_eq!(index.headings()[2].level, 3);
    assert!(index.heading_by_slug("first").is_some());
    assert!(index.heading_by_slug("second").is_some());
}

#[test]
fn scan_tests_test_from_scan_toc_builds() {
    let index = build_index_from_scan("# Root\n\n## Child\n\n### Grandchild\n");
    let toc = index.toc();
    assert_eq!(toc.len(), 3);
    assert_eq!(toc[0].depth, 0);
    assert_eq!(toc[1].depth, 1);
    assert_eq!(toc[2].depth, 2);
}

#[test]
fn scan_tests_test_from_scan_outline_builds() {
    let index = build_index_from_scan("# Root\n\n## Child\n");
    let outline = index.outline();
    assert_eq!(outline.children.len(), 1);
    assert_eq!(outline.children[0].heading.as_ref().unwrap().text, "Root");
}

#[test]
fn scan_tests_test_from_scan_markdown_links() {
    let index = build_index_from_scan("See [example](https://example.com) here\n");
    assert_eq!(index.markdown_links().len(), 1);
    assert_eq!(index.markdown_links()[0].text, "example");
    assert_eq!(index.markdown_links()[0].url, "https://example.com");
}

#[test]
fn scan_tests_test_from_scan_wiki_links() {
    let index = build_index_from_scan("See [[My Page]] here\n");
    assert_eq!(index.wiki_links().len(), 1);
    assert_eq!(index.wiki_links()[0].target, "My Page");
}

#[test]
fn scan_tests_test_from_scan_tags() {
    let index = build_index_from_scan("text #topic #project\n");
    assert_eq!(index.tags().len(), 2);
    assert!(index.tags().iter().any(|t| t.name == "topic"));
    assert!(index.tags().iter().any(|t| t.name == "project"));
}

#[test]
fn scan_tests_test_from_scan_block_ids() {
    let index = build_index_from_scan("some content ^my-block\n");
    assert!(index.block_by_id("my-block").is_some());
}

#[test]
fn scan_tests_test_from_scan_xml_tags_empty() {
    let index = build_index_from_scan("<goal>Ship</goal>\n");
    assert!(index.xml_tags().is_empty());
}

#[test]
fn scan_tests_test_from_scan_wiki_link_range_no_alias() {
    let index = build_index_from_scan("See [[My Page]] here\n");
    let wl = &index.wiki_links()[0];
    assert_eq!(wl.target, "My Page");
    assert_eq!(wl.range.start, Position::new(0, 4));
    assert_eq!(wl.range.end, Position::new(0, 15));
}

#[test]
fn scan_tests_test_from_scan_wiki_link_range_with_alias() {
    let index = build_index_from_scan("See [[target|display]] here\n");
    let wl = &index.wiki_links()[0];
    assert_eq!(wl.target, "target");
    assert!(wl.alias.is_some());
    assert_eq!(wl.alias.clone().unwrap(), "display");
    assert_eq!(wl.range.start, Position::new(0, 4));
    assert_eq!(wl.range.end, Position::new(0, 22));
}

#[test]
fn scan_tests_test_from_scan_markdown_link_range() {
    let index = build_index_from_scan("See [example](https://example.com) here\n");
    let ml = &index.markdown_links()[0];
    assert_eq!(ml.text, "example");
    assert_eq!(ml.range.start, Position::new(0, 4));
    assert_eq!(ml.range.end, Position::new(0, 34));
}

#[test]
fn scan_tests_test_from_scan_block_id_range_nonzero_width() {
    let index = build_index_from_scan("some content ^my-block\n");
    let block = index.block_by_id("my-block").unwrap();
    assert_eq!(block.range.start, Position::new(0, 13));
    assert_eq!(block.range.end, Position::new(0, 22));
    assert_ne!(block.range.start, block.range.end);
}

#[test]
fn tests_test_from_scan_empty_document() {
    let index = build_index_from_scan("");
    assert!(index.headings().is_empty());
    assert!(index.wiki_links().is_empty());
    assert!(index.tags().is_empty());
    assert!(index.markdown_links().is_empty());
    assert!(index.toc().is_empty());
}

#[test]
fn tests_test_from_scan_single_heading() {
    let index = build_index_from_scan("# Hello\n");
    assert_eq!(index.headings().len(), 1);
    assert_eq!(index.headings()[0].text, "Hello");
    assert_eq!(index.headings()[0].level, 1);
    assert_eq!(index.headings()[0].slug, "hello");
}

#[test]
fn tests_test_from_scan_multiple_headings() {
    let index = build_index_from_scan("# First\n\n## Second\n\n### Third\n");
    assert_eq!(index.headings().len(), 3);
    assert_eq!(index.headings()[0].level, 1);
    assert_eq!(index.headings()[1].level, 2);
    assert_eq!(index.headings()[2].level, 3);
    assert!(index.heading_by_slug("first").is_some());
    assert!(index.heading_by_slug("second").is_some());
}

#[test]
fn tests_test_from_scan_toc_builds() {
    let index = build_index_from_scan("# Root\n\n## Child\n\n### Grandchild\n");
    let toc = index.toc();
    assert_eq!(toc.len(), 3);
    assert_eq!(toc[0].depth, 0);
    assert_eq!(toc[1].depth, 1);
    assert_eq!(toc[2].depth, 2);
}

#[test]
fn tests_test_from_scan_outline_builds() {
    let index = build_index_from_scan("# Root\n\n## Child\n");
    let outline = index.outline();
    assert_eq!(outline.children.len(), 1);
    assert_eq!(outline.children[0].heading.as_ref().unwrap().text, "Root");
}

#[test]
fn tests_test_from_scan_markdown_links() {
    let index = build_index_from_scan("See [example](https://example.com) here\n");
    assert_eq!(index.markdown_links().len(), 1);
    assert_eq!(index.markdown_links()[0].text, "example");
    assert_eq!(index.markdown_links()[0].url, "https://example.com");
}

#[test]
fn tests_test_from_scan_wiki_links() {
    let index = build_index_from_scan("See [[My Page]] here\n");
    assert_eq!(index.wiki_links().len(), 1);
    assert_eq!(index.wiki_links()[0].target, "My Page");
}

#[test]
fn tests_test_from_scan_tags() {
    let index = build_index_from_scan("text #topic #project\n");
    assert_eq!(index.tags().len(), 2);
    assert!(index.tags().iter().any(|t| t.name == "topic"));
    assert!(index.tags().iter().any(|t| t.name == "project"));
}

#[test]
fn tests_test_from_scan_block_ids() {
    let index = build_index_from_scan("some content ^my-block\n");
    assert!(index.block_by_id("my-block").is_some());
}

#[test]
fn tests_test_from_scan_xml_tags_empty() {
    let index = build_index_from_scan("<goal>Ship</goal>\n");
    assert!(index.xml_tags().is_empty());
}

#[test]
fn tests_test_from_scan_wiki_link_range_no_alias() {
    let index = build_index_from_scan("See [[My Page]] here\n");
    let wl = &index.wiki_links()[0];
    assert_eq!(wl.target, "My Page");
    assert_eq!(wl.range.start, Position::new(0, 4));
    assert_eq!(wl.range.end, Position::new(0, 15));
}

#[test]
fn tests_test_from_scan_wiki_link_range_with_alias() {
    let index = build_index_from_scan("See [[target|display]] here\n");
    let wl = &index.wiki_links()[0];
    assert_eq!(wl.target, "target");
    assert!(wl.alias.is_some());
    assert_eq!(wl.alias.clone().unwrap(), "display");
    assert_eq!(wl.range.start, Position::new(0, 4));
    assert_eq!(wl.range.end, Position::new(0, 22));
}

#[test]
fn tests_test_from_scan_markdown_link_range() {
    let index = build_index_from_scan("See [example](https://example.com) here\n");
    let ml = &index.markdown_links()[0];
    assert_eq!(ml.text, "example");
    assert_eq!(ml.range.start, Position::new(0, 4));
    assert_eq!(ml.range.end, Position::new(0, 34));
}

#[test]
fn tests_test_from_scan_block_id_range_nonzero_width() {
    let index = build_index_from_scan("some content ^my-block\n");
    let block = index.block_by_id("my-block").unwrap();
    assert_eq!(block.range.start, Position::new(0, 13));
    assert_eq!(block.range.end, Position::new(0, 22));
    assert_ne!(block.range.start, block.range.end);
}

#[test]
fn document_test_from_scan_empty_document() {
    let index = build_index_from_scan("");
    assert!(index.headings().is_empty());
    assert!(index.wiki_links().is_empty());
    assert!(index.tags().is_empty());
    assert!(index.markdown_links().is_empty());
    assert!(index.toc().is_empty());
}

#[test]
fn document_test_from_scan_single_heading() {
    let index = build_index_from_scan("# Hello\n");
    assert_eq!(index.headings().len(), 1);
    assert_eq!(index.headings()[0].text, "Hello");
    assert_eq!(index.headings()[0].level, 1);
    assert_eq!(index.headings()[0].slug, "hello");
}

#[test]
fn document_test_from_scan_multiple_headings() {
    let index = build_index_from_scan("# First\n\n## Second\n\n### Third\n");
    assert_eq!(index.headings().len(), 3);
    assert_eq!(index.headings()[0].level, 1);
    assert_eq!(index.headings()[1].level, 2);
    assert_eq!(index.headings()[2].level, 3);
    assert!(index.heading_by_slug("first").is_some());
    assert!(index.heading_by_slug("second").is_some());
}

#[test]
fn document_test_from_scan_toc_builds() {
    let index = build_index_from_scan("# Root\n\n## Child\n\n### Grandchild\n");
    let toc = index.toc();
    assert_eq!(toc.len(), 3);
    assert_eq!(toc[0].depth, 0);
    assert_eq!(toc[1].depth, 1);
    assert_eq!(toc[2].depth, 2);
}

#[test]
fn document_test_from_scan_outline_builds() {
    let index = build_index_from_scan("# Root\n\n## Child\n");
    let outline = index.outline();
    assert_eq!(outline.children.len(), 1);
    assert_eq!(outline.children[0].heading.as_ref().unwrap().text, "Root");
}

#[test]
fn document_test_from_scan_markdown_links() {
    let index = build_index_from_scan("See [example](https://example.com) here\n");
    assert_eq!(index.markdown_links().len(), 1);
    assert_eq!(index.markdown_links()[0].text, "example");
    assert_eq!(index.markdown_links()[0].url, "https://example.com");
}

#[test]
fn document_test_from_scan_wiki_links() {
    let index = build_index_from_scan("See [[My Page]] here\n");
    assert_eq!(index.wiki_links().len(), 1);
    assert_eq!(index.wiki_links()[0].target, "My Page");
}

#[test]
fn document_test_from_scan_tags() {
    let index = build_index_from_scan("text #topic #project\n");
    assert_eq!(index.tags().len(), 2);
    assert!(index.tags().iter().any(|t| t.name == "topic"));
    assert!(index.tags().iter().any(|t| t.name == "project"));
}

#[test]
fn document_test_from_scan_block_ids() {
    let index = build_index_from_scan("some content ^my-block\n");
    assert!(index.block_by_id("my-block").is_some());
}

#[test]
fn document_test_from_scan_xml_tags_empty() {
    let index = build_index_from_scan("<goal>Ship</goal>\n");
    assert!(index.xml_tags().is_empty());
}

#[test]
fn document_test_from_scan_wiki_link_range_no_alias() {
    let index = build_index_from_scan("See [[My Page]] here\n");
    let wl = &index.wiki_links()[0];
    assert_eq!(wl.target, "My Page");
    assert_eq!(wl.range.start, Position::new(0, 4));
    assert_eq!(wl.range.end, Position::new(0, 15));
}

#[test]
fn document_test_from_scan_wiki_link_range_with_alias() {
    let index = build_index_from_scan("See [[target|display]] here\n");
    let wl = &index.wiki_links()[0];
    assert_eq!(wl.target, "target");
    assert!(wl.alias.is_some());
    assert_eq!(wl.alias.clone().unwrap(), "display");
    assert_eq!(wl.range.start, Position::new(0, 4));
    assert_eq!(wl.range.end, Position::new(0, 22));
}

#[test]
fn document_test_from_scan_markdown_link_range() {
    let index = build_index_from_scan("See [example](https://example.com) here\n");
    let ml = &index.markdown_links()[0];
    assert_eq!(ml.text, "example");
    assert_eq!(ml.range.start, Position::new(0, 4));
    assert_eq!(ml.range.end, Position::new(0, 34));
}

#[test]
fn document_test_from_scan_block_id_range_nonzero_width() {
    let index = build_index_from_scan("some content ^my-block\n");
    let block = index.block_by_id("my-block").unwrap();
    assert_eq!(block.range.start, Position::new(0, 13));
    assert_eq!(block.range.end, Position::new(0, 22));
    assert_ne!(block.range.start, block.range.end);
}


#[test]
fn scan_repeated_heading_slugs_are_numbered() {
    let text = "# A\n# A\n# A-1\n# A\n";
    let mut s = empty_scan();
    s.headings.push(heading("A", 1, 0));
    s.headings.push(heading("A", 1, 4));
    s.headings.push(heading("A-1", 1, 8));
    s.headings.push(heading("A", 1, 14));
    let index = DocumentIndex::from_scan_results(text, s);
    let slugs: Vec<&str> = index.headings().iter().map(|h| h.slug.as_str()).collect();
    assert_eq!(slugs, vec!["a", "a-1", "a-1-1", "a-2"]);
    assert_eq!(index.headings()[3].range.start, Position::new(3, 0));
    assert_eq!(index.headings()[3].range.end, Position::new(3, 3));
}

#[test]
fn scan_markdown_anchor_is_split_off() {
    let text = "x\n[t](other.md#sec)\n";
    let mut s = empty_scan();
    s.links.push(markdown("t", "other.md#sec", 2));
    let index = DocumentIndex::from_scan_results(text, s);
    let ml = &index.markdown_links()[0];
    assert_eq!(ml.url, "other.md");
    assert_eq!(ml.anchor.as_deref(), Some("sec"));
    assert_eq!(ml.range.start, Position::new(1, 0));
    assert_eq!(ml.range.end, Position::new(1, 17));
    assert_eq!(ml.start_byte, 2);
    assert_eq!(ml.end_byte, 19);
}

#[test]
fn scan_wiki_link_keeps_whole_target() {
    let text = "[[Page#Part]]";
    let mut s = empty_scan();
    s.links.push(wiki("Page#Part", "Page#Part", 0));
    let index = DocumentIndex::from_scan_results(text, s);
    let wl = &index.wiki_links()[0];
    assert_eq!(wl.target, "Page#Part");
    assert!(wl.heading.is_none());
    assert!(wl.alias.is_none());
    assert_eq!(wl.end_byte, 13);
}

#[test]
fn scan_links_split_by_syntax_in_order() {
    let text = "[[A]] [b](c) [[D]]";
    let mut s = empty_scan();
    s.links.push(wiki("A", "A", 0));
    s.links.push(markdown("b", "c", 6));
    s.links.push(wiki("D", "D", 13));
    let index = DocumentIndex::from_scan_results(text, s);
    assert_eq!(index.wiki_links().len(), 2);
    assert_eq!(index.wiki_links()[0].target, "A");
    assert_eq!(index.wiki_links()[1].target, "D");
    assert_eq!(index.markdown_links().len(), 1);
    assert!(index.markdown_links()[0].anchor.is_none());
}

#[test]
fn scan_code_spans_tasks_and_embeds_are_placed() {
    let text = "`x`\n- [ ] do\n![[img]]\n";
    let mut s = empty_scan();
    s.code_spans.push(ScanCodeSpan { text: "x".to_string(), offset: 0, end_offset: 3 });
    s.tasks.push(ScanTask {
        state: "unchecked".to_string(),
        text: "do".to_string(),
        offset: 4,
        end_offset: 12,
    });
    s.embeds.push(ScanEmbed { target: "img".to_string(), offset: 13, end_offset: 21 });
    let index = DocumentIndex::from_scan_results(text, s);
    assert_eq!(index.code_spans()[0].text, "x");
    assert_eq!(index.code_spans()[0].range.end, Position::new(0, 3));
    assert_eq!(index.tasks()[0].state, "unchecked");
    assert_eq!(index.tasks()[0].range.start, Position::new(1, 0));
    assert_eq!(index.tasks()[0].range.end, Position::new(1, 8));
    assert_eq!(index.embeds()[0].target, "img");
    assert_eq!(index.embeds()[0].range.start, Position::new(2, 0));
    assert_eq!(index.embeds()[0].end_byte, 21);
}

#[test]
fn scan_block_refs_callouts_queries_and_link_definitions_are_kept() {
    let text = "((abc)) x\n> [!tip] T\n[l]: u (t)\n{{query x}}\n";
    let mut s = empty_scan();
    s.block_refs.push(ScanBlockRef { uuid: "abc".to_string(), offset: 0 });
    s.callouts.push(ScanCallout {
        callout_type: "tip".to_string(),
        title: Some("T".to_string()),
        offset: 10,
        end_offset: 20,
    });
    s.link_definitions.push(ScanLinkDefinition {
        label: "l".to_string(),
        url: "u".to_string(),
        title: Some("t".to_string()),
        offset: 21,
        end_offset: 31,
    });
    s.query_blocks.push(ScanQueryBlock { query: "x".to_string(), offset: 32, end_offset: 43 });
    let index = DocumentIndex::from_scan_results(text, s);
    assert_eq!(index.block_refs().len(), 1);
    assert_eq!(index.block_refs()[0].uuid, "abc");
    assert_eq!(index.block_refs()[0].range.end, Position::new(0, 7));
    assert_eq!(index.callouts()[0].callout_type, "tip");
    assert_eq!(index.callouts()[0].title.as_deref(), Some("T"));
    assert_eq!(index.callouts()[0].range.start, Position::new(1, 0));
    assert_eq!(index.link_definitions()[0].url, "u");
    assert_eq!(index.link_definitions()[0].range.start, Position::new(2, 0));
    assert_eq!(index.query_blocks()[0].query, "x");
    assert_eq!(index.query_blocks()[0].range.start, Position::new(3, 0));
    assert!(index.properties().is_empty());
}

#[test]
fn scan_later_block_with_same_id_wins() {
    let text = "a ^b\nc ^b\n";
    let mut s = empty_scan();
    s.block_ids.push(block("b", 2));
    s.block_ids.push(block("b", 7));
    let index = DocumentIndex::from_scan_results(text, s);
    assert_eq!(index.block_ids().len(), 1);
    assert_eq!(index.block_by_id("b").unwrap().range.start, Position::new(1, 2));
}
