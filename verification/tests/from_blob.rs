use markymark_index::{
    validate_blob, BlobError, DocumentIndex, FrontmatterOwnedEntry, FrontmatterValueOwned,
    Position, Range, XmlTagOwned,
};

/// Writes scan blobs in the engine's layout, record by record.
struct BlobWriter {
    v2: bool,
    pool: Vec<u8>,
    headings: Vec<u8>,
    links: Vec<u8>,
    tags: Vec<u8>,
    blocks: Vec<u8>,
    spans: Vec<u8>,
    tasks: Vec<u8>,
    embeds: Vec<u8>,
    lines: Vec<u32>,
}

fn put(rec: &mut Vec<u8>, off: usize, v: u32) {
    rec[off..off + 4].copy_from_slice(&v.to_le_bytes());
}

impl BlobWriter {
    fn new(v2: bool) -> Self {
        BlobWriter {
            v2,
            pool: Vec::new(),
            headings: Vec::new(),
            links: Vec::new(),
            tags: Vec::new(),
            blocks: Vec::new(),
            spans: Vec::new(),
            tasks: Vec::new(),
            embeds: Vec::new(),
            lines: vec![0],
        }
    }

    fn text(&mut self, s: &str) -> (u32, u32) {
        let off = self.pool.len() as u32;
        self.pool.extend_from_slice(s.as_bytes());
        (off, s.len() as u32)
    }

    fn heading(&mut self, text: &str, slug: &str, level: u8, line: u32) {
        let mut r = vec![0u8; 40];
        let (o, l) = self.text(text);
        put(&mut r, 0, o);
        put(&mut r, 4, l);
        let (o, l) = self.text(slug);
        put(&mut r, 8, o);
        put(&mut r, 12, l);
        put(&mut r, 20, line);
        put(&mut r, 24, 0);
        put(&mut r, 28, line);
        put(&mut r, 32, level as u32 + 1 + text.len() as u32);
        r[36] = level;
        self.headings.extend(r);
    }

    fn link(&mut self, text: &str, target: &str, wiki: bool, offset: u32, line: u32) {
        let mut r = vec![0u8; 40];
        let (o, l) = self.text(text);
        put(&mut r, 0, o);
        put(&mut r, 4, l);
        let (o, l) = self.text(target);
        put(&mut r, 8, o);
        put(&mut r, 12, l);
        put(&mut r, 16, offset);
        put(&mut r, 20, line);
        put(&mut r, 24, 0);
        put(&mut r, 28, line);
        put(&mut r, 32, 10);
        r[36] = wiki as u8;
        self.links.extend(r);
    }

    fn tag(&mut self, name: &str) {
        let mut r = vec![0u8; 24];
        let (o, l) = self.text(name);
        put(&mut r, 0, o);
        put(&mut r, 4, l);
        self.tags.extend(r);
    }

    fn block(&mut self, id: &str, offset: u32, line: u32) {
        let mut r = vec![0u8; 28];
        let (o, l) = self.text(id);
        put(&mut r, 0, o);
        put(&mut r, 4, l);
        put(&mut r, 8, offset);
        put(&mut r, 12, line);
        put(&mut r, 16, 3);
        put(&mut r, 20, line);
        put(&mut r, 24, 3 + 1 + l);
        self.blocks.extend(r);
    }

    fn span_record(&mut self, text: &str, start: u32, end: u32) -> Vec<u8> {
        let mut r = vec![0u8; 32];
        let (o, l) = self.text(text);
        put(&mut r, 0, o);
        put(&mut r, 4, l);
        put(&mut r, 8, start);
        put(&mut r, 12, end);
        put(&mut r, 16, 0);
        put(&mut r, 20, start);
        put(&mut r, 24, 0);
        put(&mut r, 28, end);
        r
    }

    fn code_span(&mut self, text: &str, start: u32, end: u32) {
        let r = self.span_record(text, start, end);
        self.spans.extend(r);
    }

    fn code_span_at(&mut self, text: &str, start: u32, end: u32, line: u32, col: u32) {
        let mut r = self.span_record(text, start, end);
        put(&mut r, 16, line);
        put(&mut r, 20, col);
        put(&mut r, 24, line);
        put(&mut r, 28, col + end - start);
        self.spans.extend(r);
    }

    fn task(&mut self, text: &str, start: u32, end: u32, marker: u8) {
        let mut r = self.span_record(text, start, end);
        r.extend([marker, 0, 0, 0]);
        self.tasks.extend(r);
    }

    fn embed(&mut self, target: &str, start: u32, end: u32) {
        let r = self.span_record(target, start, end);
        self.embeds.extend(r);
    }

    fn build(&self) -> Vec<u8> {
        let header_size = if self.v2 { 128 } else { 64 };
        let mut out = vec![0u8; header_size];
        out[0..4].copy_from_slice(&0x4D4B_5343u32.to_le_bytes());
        out[4..6].copy_from_slice(&(if self.v2 { 2u16 } else { 1u16 }).to_le_bytes());
        put(&mut out, 16, (self.headings.len() / 40) as u32);
        put(&mut out, 20, (self.links.len() / 40) as u32);
        put(&mut out, 24, (self.tags.len() / 24) as u32);
        put(&mut out, 28, (self.blocks.len() / 28) as u32);
        put(&mut out, 32, self.lines.len() as u32);
        put(&mut out, 36, self.pool.len() as u32);
        put(&mut out, 48, (self.spans.len() / 32) as u32);
        if self.v2 {
            put(&mut out, 52, (self.embeds.len() / 32) as u32);
            put(&mut out, 56, (self.tasks.len() / 36) as u32);
        } else {
            assert!(self.tasks.is_empty() && self.embeds.is_empty());
        }
        out.extend(&self.headings);
        out.extend(&self.links);
        out.extend(&self.tags);
        out.extend(&self.blocks);
        out.extend(&self.spans);
        out.extend(&self.tasks);
        out.extend(&self.embeds);
        for l in &self.lines {
            out.extend(l.to_le_bytes());
        }
        out.extend(&self.pool);
        let total = out.len() as u32;
        put(&mut out, 44, total);
        out
    }
}

fn make_v1_empty_blob() -> [u8; 64] {
    let mut buf = [0u8; 64];
    buf[0..4].copy_from_slice(&0x4D4B_5343u32.to_le_bytes());
    buf[4..6].copy_from_slice(&1u16.to_le_bytes());
    buf[44..48].copy_from_slice(&64u32.to_le_bytes());
    buf
}

fn make_v2_empty_blob() -> [u8; 128] {
    let mut buf = [0u8; 128];
    buf[0..4].copy_from_slice(&0x4D4B_5343u32.to_le_bytes());
    buf[4..6].copy_from_slice(&2u16.to_le_bytes());
    buf[44..48].copy_from_slice(&128u32.to_le_bytes());
    buf
}

/// The blob of `[[target]]`-style text: one wiki link record.
fn wiki_blob(text: &str, target: &str) -> Vec<u8> {
    let mut b = BlobWriter::new(true);
    b.link(text, target, true, 0, 0);
    b.build()
}

fn check_from_blob_empty_document() {
    let blob = make_v2_empty_blob();
    let index = DocumentIndex::from_blob(&blob).expect("from_blob failed");
    assert!(index.headings().is_empty());
    assert!(index.wiki_links().is_empty());
    assert!(index.tags().is_empty());
    assert!(index.markdown_links().is_empty());
    assert!(index.toc().is_empty());
    assert_eq!(index.block_ids().len(), 0);
}

fn check_from_blob_single_heading() {
    let mut b = BlobWriter::new(true);
    b.heading("Hello", "hello", 1, 0);
    let index = DocumentIndex::from_blob(&b.build()).expect("from_blob failed");
    assert_eq!(index.headings().len(), 1);
    assert_eq!(index.headings()[0].text, "Hello");
    assert_eq!(index.headings()[0].slug, "hello");
    assert_eq!(index.headings()[0].level, 1);
    assert!(index.heading_by_slug("hello").is_some());
}

fn check_from_blob_multiple_headings_with_dedup_slugs() {
    let mut b = BlobWriter::new(true);
    b.heading("Title", "title", 1, 0);
    b.heading("Title", "title-1", 1, 2);
    let index = DocumentIndex::from_blob(&b.build()).expect("from_blob failed");
    assert_eq!(index.headings().len(), 2);
    assert_eq!(index.headings()[0].slug, "title");
    assert_eq!(index.headings()[1].slug, "title-1");
}

fn check_from_blob_wiki_link() {
    let index = DocumentIndex::from_blob(&wiki_blob("My Page", "My Page")).expect("from_blob failed");
    assert_eq!(index.wiki_links().len(), 1);
    assert_eq!(index.wiki_links()[0].target, "My Page");
    assert_eq!(index.wiki_links()[0].alias, None);
    assert_eq!(index.wiki_links()[0].heading, None);
}

fn check_from_blob_wiki_link_with_alias() {
    let index = DocumentIndex::from_blob(&wiki_blob("display", "target")).expect("from_blob failed");
    assert_eq!(index.wiki_links().len(), 1);
    assert_eq!(index.wiki_links()[0].target, "target");
    assert_eq!(index.wiki_links()[0].alias.as_deref(), Some("display"));
}

fn check_from_blob_wiki_link_with_heading() {
    let index =
        DocumentIndex::from_blob(&wiki_blob("page#heading", "page#heading")).expect("from_blob failed");
    assert_eq!(index.wiki_links().len(), 1);
    let wl = &index.wiki_links()[0];
    assert_eq!(wl.target, "page");
    assert_eq!(wl.heading.as_deref(), Some("heading"));
}

fn check_from_blob_wiki_link_with_heading_and_matching_alias() {
    let index = DocumentIndex::from_blob(&wiki_blob("page", "page#heading")).expect("from_blob failed");
    assert_eq!(index.wiki_links().len(), 1);
    let wl = &index.wiki_links()[0];
    assert_eq!(wl.target, "page", "target should be page-only (anchor stripped)");
    assert_eq!(wl.heading.as_deref(), Some("heading"), "heading field should be populated");
    assert_eq!(
        wl.alias.as_deref(),
        Some("page"),
        "alias should be Some when text differs from full target"
    );
}

fn check_from_blob_wiki_link_with_heading_and_different_alias() {
    let index = DocumentIndex::from_blob(&wiki_blob("other", "page#heading")).expect("from_blob failed");
    assert_eq!(index.wiki_links().len(), 1);
    let wl = &index.wiki_links()[0];
    assert_eq!(wl.target, "page");
    assert_eq!(wl.heading.as_deref(), Some("heading"));
    assert_eq!(wl.alias.as_deref(), Some("other"));
}

fn check_from_blob_wiki_link_with_heading_no_alias() {
    let index =
        DocumentIndex::from_blob(&wiki_blob("page#heading", "page#heading")).expect("from_blob failed");
    assert_eq!(index.wiki_links().len(), 1);
    let wl = &index.wiki_links()[0];
    assert_eq!(wl.target, "page");
    assert_eq!(wl.heading.as_deref(), Some("heading"));
    assert_eq!(wl.alias, None, "no pipe separator means no alias");
}

fn check_from_blob_markdown_link_with_anchor() {
    let mut b = BlobWriter::new(true);
    b.link("text", "url.md#frag", false, 0, 0);
    let index = DocumentIndex::from_blob(&b.build()).expect("from_blob failed");
    assert_eq!(index.markdown_links().len(), 1);
    assert_eq!(index.markdown_links()[0].text, "text");
    assert_eq!(index.markdown_links()[0].url, "url.md");
    assert_eq!(index.markdown_links()[0].anchor.as_deref(), Some("frag"));
}

fn check_from_blob_tags() {
    let mut b = BlobWriter::new(true);
    b.tag("alpha");
    b.tag("beta");
    let index = DocumentIndex::from_blob(&b.build()).expect("from_blob failed");
    assert_eq!(index.tags().len(), 2);
    assert!(index.tags().iter().any(|t| t.name == "alpha"));
    assert!(index.tags().iter().any(|t| t.name == "beta"));
}

fn check_from_blob_block_ids() {
    let mut b = BlobWriter::new(true);
    b.block("my-id", 8, 0);
    let index = DocumentIndex::from_blob(&b.build()).expect("from_blob failed");
    assert!(
        index.block_by_id("my-id").is_some(),
        "block ID 'my-id' should be indexed"
    );
}

fn check_from_blob_toc_and_outline() {
    let mut b = BlobWriter::new(true);
    b.heading("A", "a", 1, 0);
    b.heading("B", "b", 2, 2);
    b.heading("C", "c", 3, 4);
    let index = DocumentIndex::from_blob(&b.build()).expect("from_blob failed");

    let toc = index.toc();
    assert_eq!(toc.len(), 3);
    assert_eq!(toc[0].depth, 0);
    assert_eq!(toc[1].depth, 1);
    assert_eq!(toc[2].depth, 2);

    let outline = index.outline();
    assert_eq!(outline.children.len(), 1, "root has 1 L1 child");
    assert_eq!(outline.children[0].heading.as_ref().unwrap().text, "A");
    assert_eq!(outline.children[0].children.len(), 1, "A has 1 L2 child");
}

fn check_from_blob_rejects_invalid_magic() {
    let mut buf = [0u8; 64];
    buf[0] = 0xEF;
    buf[1] = 0xBE;
    buf[2] = 0xAD;
    buf[3] = 0xDE;
    buf[4] = 1;
    buf[5] = 0;
    buf[44] = 64;
    assert!(matches!(
        DocumentIndex::from_blob(&buf),
        Err(BlobError::InvalidMagic)
    ));
}

fn check_from_blob_rejects_bad_version() {
    let mut buf = [0u8; 64];
    buf[0] = 0x43;
    buf[1] = 0x53;
    buf[2] = 0x4B;
    buf[3] = 0x4D;
    buf[4] = 99;
    buf[5] = 0;
    assert!(matches!(
        DocumentIndex::from_blob(&buf),
        Err(BlobError::UnsupportedVersion)
    ));
}

fn check_from_blob_rejects_truncated() {
    let buf = [0u8; 32];
    assert!(matches!(
        DocumentIndex::from_blob(&buf),
        Err(BlobError::TooSmall)
    ));
}

fn check_from_blob_v2_empty_document() {
    let buf = make_v2_empty_blob();
    let index = DocumentIndex::from_blob(&buf).expect("v2 empty blob should parse");
    assert!(index.headings().is_empty());
    assert!(index.wiki_links().is_empty());
    assert!(index.tags().is_empty());
}

fn check_from_blob_rejects_truncated_v2() {
    let mut buf = [0u8; 80];
    buf[0..4].copy_from_slice(&0x4D4B_5343u32.to_le_bytes());
    buf[4..6].copy_from_slice(&2u16.to_le_bytes());
    assert!(matches!(
        DocumentIndex::from_blob(&buf),
        Err(BlobError::TooSmall)
    ));
}

fn check_from_blob_v2_same_result_as_v1_for_empty_doc() {
    let v1_blob = make_v1_empty_blob();
    let v2_blob = make_v2_empty_blob();
    let v1_index = DocumentIndex::from_blob(&v1_blob).expect("v1 empty blob should parse");
    let v2_index =
        DocumentIndex::from_blob(&v2_blob).expect("v2 empty blob should parse equivalently");
    assert_eq!(v1_index.headings().len(), v2_index.headings().len());
    assert_eq!(v1_index.wiki_links().len(), v2_index.wiki_links().len());
    assert_eq!(
        v1_index.markdown_links().len(),
        v2_index.markdown_links().len()
    );
    assert_eq!(v1_index.tags().len(), v2_index.tags().len());
    assert_eq!(v1_index.block_ids().len(), v2_index.block_ids().len());
}

fn check_from_blob_rejects_size_mismatch() {
    let blob = make_v2_empty_blob().to_vec();
    assert_eq!(blob.len(), 128);
    let mut corrupt = blob.clone();
    corrupt[44] = 64;
    corrupt[45] = 0;
    corrupt[46] = 0;
    corrupt[47] = 0;
    assert!(matches!(
        DocumentIndex::from_blob(&corrupt),
        Err(BlobError::SizeMismatch)
    ));
}

#[test]
fn test_from_blob_with_frontmatter_populates_entries() {
    let mut b = BlobWriter::new(true);
    b.heading("Heading", "heading", 1, 5);
    let blob = b.build();
    let frontmatter = vec![
        FrontmatterOwnedEntry {
            key: "title".to_string(),
            value: FrontmatterValueOwned::String("Hello".to_string()),
        },
        FrontmatterOwnedEntry {
            key: "tags".to_string(),
            value: FrontmatterValueOwned::List(vec![
                FrontmatterValueOwned::String("a".to_string()),
                FrontmatterValueOwned::String("b".to_string()),
            ]),
        },
    ];
    let aliases = vec!["hi".to_string(), "hey".to_string()];
    let index = DocumentIndex::from_blob_with_frontmatter(&blob, frontmatter, aliases)
        .expect("from_blob_with_frontmatter failed");
    assert_eq!(index.frontmatter().len(), 2, "should have 2 frontmatter entries");
    assert_eq!(index.frontmatter()[0].key, "title");
    assert_eq!(index.frontmatter()[1].key, "tags");
    assert_eq!(index.aliases().len(), 2, "should have 2 aliases");
    assert!(index.aliases().iter().any(|a| a == "hi"), "missing alias 'hi'");
    assert!(index.aliases().iter().any(|a| a == "hey"), "missing alias 'hey'");
    assert_eq!(index.headings().len(), 1);
    assert_eq!(index.headings()[0].text, "Heading");
}

#[test]
fn test_from_blob_with_frontmatter_empty_fm_still_works() {
    let mut b = BlobWriter::new(true);
    b.heading("Just a heading", "just-a-heading", 1, 0);
    let index = DocumentIndex::from_blob_with_frontmatter(&b.build(), vec![], vec![])
        .expect("from_blob_with_frontmatter with empty fm failed");
    assert!(index.frontmatter().is_empty());
    assert!(index.aliases().is_empty());
    assert_eq!(index.headings().len(), 1);
    assert_eq!(index.headings()[0].text, "Just a heading");
}

fn check_from_blob_v2_with_tasks() {
    let mut b = BlobWriter::new(true);
    b.task("Todo", 0, 10, b' ');
    b.task("Done", 11, 21, b'x');
    let index = DocumentIndex::from_blob(&b.build()).expect("from_blob failed");
    let tasks = index.tasks();
    assert_eq!(tasks.len(), 2);
    assert_eq!(tasks[0].state, "unchecked");
    assert_eq!(tasks[0].text, "Todo");
    assert_eq!(tasks[1].state, "checked");
    assert_eq!(tasks[1].text, "Done");
}

fn check_from_blob_v2_with_embeds() {
    let mut b = BlobWriter::new(true);
    b.embed("target", 0, 11);
    let index = DocumentIndex::from_blob(&b.build()).expect("from_blob failed");
    let embeds = index.embeds();
    assert_eq!(embeds.len(), 1);
    assert_eq!(embeds[0].target, "target");
}

fn check_from_blob_v1_no_tasks_or_embeds() {
    let blob = make_v1_empty_blob();
    let index = DocumentIndex::from_blob(&blob).expect("from_blob failed");
    assert!(index.tasks().is_empty());
    assert!(index.embeds().is_empty());
}

fn check_from_blob_code_spans_basic() {
    let mut b = BlobWriter::new(true);
    b.code_span("world", 6, 13);
    let index = DocumentIndex::from_blob(&b.build()).expect("from_blob failed");
    let cs = index.code_spans();
    assert_eq!(cs.len(), 1);
    assert_eq!(cs[0].text, "world");
    assert_eq!(cs[0].start_byte, 6);
    assert_eq!(cs[0].end_byte, 13);
    assert!(cs[0].language_hint.is_none());
    assert!(cs[0].kind.is_none());
}

// ── Own tests ──────────────────────────────────────────────────────────

#[test]
fn validate_blob_reads_header_counts() {
    let mut b = BlobWriter::new(false);
    b.heading("A", "a", 1, 0);
    b.link("x", "y", true, 3, 1);
    b.tag("t");
    b.block("id", 0, 2);
    let blob = b.build();
    let h = validate_blob(&blob).expect("valid");
    assert_eq!(h.header_size, 64);
    assert_eq!(h.heading_count, 1);
    assert_eq!(h.link_count, 1);
    assert_eq!(h.tag_count, 1);
    assert_eq!(h.block_id_count, 1);
    assert_eq!(h.task_count, 0);
    assert_eq!(h.text_pool_size, 7);
    assert_eq!(h.line_count, 1);
}

#[test]
fn v1_header_ignores_v2_counts() {
    // A v1 blob whose bytes 52.. are nonzero still reads as having no tasks.
    let mut blob = make_v1_empty_blob().to_vec();
    blob[56] = 7;
    let h = validate_blob(&blob).expect("valid");
    assert_eq!(h.task_count, 0);
}

#[test]
fn size_field_must_match_data_length() {
    let mut blob = make_v1_empty_blob().to_vec();
    blob.push(0);
    assert_eq!(validate_blob(&blob), Err(BlobError::SizeMismatch));
}

#[test]
fn text_pool_out_of_bounds_is_rejected() {
    let mut b = BlobWriter::new(true);
    b.tag("abc");
    let mut blob = b.build();
    // Tag records start right after the 128-byte header; make its length 4.
    blob[128 + 4] = 4;
    assert!(matches!(
        DocumentIndex::from_blob(&blob),
        Err(BlobError::TextPoolOutOfBounds)
    ));
}

#[test]
fn invalid_utf8_in_pool_is_rejected() {
    let mut b = BlobWriter::new(true);
    b.tag("ab");
    let mut blob = b.build();
    let n = blob.len();
    blob[n - 1] = 0xFF;
    assert!(matches!(
        DocumentIndex::from_blob(&blob),
        Err(BlobError::InvalidUtf8)
    ));
}

#[test]
fn first_failing_record_decides_the_error() {
    // A heading with an out-of-bounds text comes before a tag with bad UTF-8.
    let mut b = BlobWriter::new(true);
    b.heading("H", "h", 1, 0);
    b.tag("\u{e9}");
    let mut blob = b.build();
    blob[128 + 4] = 200; // heading text length
    let n = blob.len();
    blob[n - 1] = 0xFF; // breaks the tag's UTF-8
    assert!(matches!(
        DocumentIndex::from_blob(&blob),
        Err(BlobError::TextPoolOutOfBounds)
    ));
}

#[test]
fn later_block_with_same_id_wins() {
    let mut b = BlobWriter::new(true);
    b.block("dup", 5, 1);
    b.block("other", 20, 2);
    b.block("dup", 40, 3);
    let index = DocumentIndex::from_blob(&b.build()).expect("from_blob failed");
    assert_eq!(index.block_ids(), vec!["dup", "other"]);
    let blk = index.block_by_id("dup").expect("dup");
    assert_eq!(blk.start_byte, 40);
    assert_eq!(blk.end_byte, 44);
    assert_eq!(blk.range.start, Position::new(3, 3));
    assert!(index.block_by_id("missing").is_none());
}

#[test]
fn heading_by_slug_prefers_last() {
    let mut b = BlobWriter::new(true);
    b.heading("One", "same", 1, 0);
    b.heading("Two", "same", 2, 2);
    let index = DocumentIndex::from_blob(&b.build()).expect("from_blob failed");
    assert_eq!(index.heading_by_slug("same").expect("found").text, "Two");
    assert!(index.heading_by_slug("nope").is_none());
}

#[test]
fn link_end_bytes_follow_syntax() {
    let mut b = BlobWriter::new(true);
    b.link("alias", "page", true, 10, 0); // [[page|alias]]
    b.link("page", "page", true, 30, 0); // [[page]]
    b.link("text", "https://x.y", false, 50, 0); // [text](https://x.y)
    let index = DocumentIndex::from_blob(&b.build()).expect("from_blob failed");
    assert_eq!(index.wiki_links()[0].start_byte, 10);
    assert_eq!(index.wiki_links()[0].end_byte, 10 + 4 + 5 + 5);
    assert_eq!(index.wiki_links()[1].end_byte, 30 + 4 + 4);
    assert_eq!(index.markdown_links()[0].end_byte, 50 + 4 + 11 + 4);
    assert_eq!(index.markdown_links()[0].anchor, None);
}

#[test]
fn toc_and_outline_follow_levels() {
    let mut b = BlobWriter::new(true);
    b.heading("A", "a", 2, 0);
    b.heading("B", "b", 3, 1);
    b.heading("C", "c", 1, 2);
    b.heading("D", "d", 3, 3);
    b.heading("E", "e", 2, 4);
    let index = DocumentIndex::from_blob(&b.build()).expect("from_blob failed");
    let depths: Vec<usize> = index.toc().iter().map(|t| t.depth).collect();
    assert_eq!(depths, vec![0, 1, 0, 1, 1]);
    let outline = index.outline();
    assert!(outline.heading.is_none());
    assert_eq!(outline.children.len(), 2);
    assert_eq!(outline.children[0].children.len(), 1);
    let c = &outline.children[1];
    assert_eq!(c.heading.as_ref().unwrap().text, "C");
    let kids: Vec<&str> = c
        .children
        .iter()
        .map(|n| n.heading.as_ref().unwrap().text.as_str())
        .collect();
    assert_eq!(kids, vec!["D", "E"]);
}

#[test]
fn xml_tags_keep_last_attribute_value() {
    let blob = make_v1_empty_blob();
    let range = Range::new(Position::new(0, 0), Position::new(0, 9));
    let tags = vec![XmlTagOwned {
        tag_name: "meta".to_string(),
        attributes: vec![
            ("k".to_string(), "1".to_string()),
            ("v".to_string(), "2".to_string()),
            ("k".to_string(), "3".to_string()),
        ],
        is_self_closing: true,
        is_unclosed: false,
        is_inline: true,
        range,
        start_byte: 0,
        end_byte: 9,
    }];
    let index = DocumentIndex::from_blob_with_xml_tags(&blob, tags).expect("from_blob failed");
    assert_eq!(index.xml_tags().len(), 1);
    let x = &index.xml_tags()[0];
    assert_eq!(x.tag_name, "meta");
    assert_eq!(
        x.attributes,
        vec![
            ("k".to_string(), "3".to_string()),
            ("v".to_string(), "2".to_string())
        ]
    );
    assert!(x.is_self_closing && x.is_inline && !x.is_unclosed);
    assert_eq!(x.range, range);
}

#[test]
fn from_blob_has_no_xml_tags_or_frontmatter() {
    let index = DocumentIndex::from_blob(&make_v2_empty_blob()).expect("ok");
    assert!(index.xml_tags().is_empty());
    assert!(index.frontmatter().is_empty());
    assert!(index.aliases().is_empty());
}

// ── Blob contents of the engine's scans of the texts the checks name ──

/// `` `a` and `b` ``
fn check_from_blob_code_spans_multiple() {
    let mut b = BlobWriter::new(true);
    b.code_span("a", 0, 3);
    b.code_span("b", 8, 11);
    let blob = b.build();
    let index = DocumentIndex::from_blob(&blob).expect("from_blob failed");
    let cs = index.code_spans();
    assert_eq!(cs.len(), 2);
    assert_eq!(cs[0].text, "a");
    assert_eq!(cs[1].text, "b");
    assert!(cs[1].start_byte > cs[0].start_byte);
}

/// `No code here`
fn check_from_blob_code_spans_empty() {
    let blob = BlobWriter::new(true).build();
    let index = DocumentIndex::from_blob(&blob).expect("from_blob failed");
    assert!(index.code_spans().is_empty());
}

/// `# Title `code` end`
fn check_from_blob_code_spans_in_heading() {
    let mut b = BlobWriter::new(true);
    b.heading("Title code end", "title-code-end", 1, 0);
    b.code_span("code", 8, 14);
    let blob = b.build();
    let index = DocumentIndex::from_blob(&blob).expect("from_blob failed");
    assert_eq!(index.headings().len(), 1);
    let cs = index.code_spans();
    assert_eq!(cs.len(), 1);
    assert_eq!(cs[0].text, "code");
}

const V1_HEADER_SIZE: usize = 64;
const HEADING_SIZE: usize = 40;

fn check_from_blob_code_spans_backward_compat() {
    // A true v1 blob with 1 heading but no code spans.
    // v1 has code_span_count=0 by default (offset 48 is zero-initialized).
    let pool = b"a heading\0a-heading\0\0\0";
    let pool_size = pool.len() as u32;
    let total_size = V1_HEADER_SIZE as u32 + HEADING_SIZE as u32 + pool_size;

    let mut v1_blob = vec![0u8; total_size as usize];
    v1_blob[..V1_HEADER_SIZE].copy_from_slice(&make_v1_empty_blob());
    v1_blob[16..20].copy_from_slice(&1u32.to_le_bytes());
    v1_blob[36..40].copy_from_slice(&pool_size.to_le_bytes());
    v1_blob[44..48].copy_from_slice(&total_size.to_le_bytes());

    let h = V1_HEADER_SIZE;
    v1_blob[h..h + 4].copy_from_slice(&0u32.to_le_bytes());
    v1_blob[h + 4..h + 8].copy_from_slice(&9u32.to_le_bytes());
    v1_blob[h + 8..h + 12].copy_from_slice(&10u32.to_le_bytes());
    v1_blob[h + 12..h + 16].copy_from_slice(&9u32.to_le_bytes());
    v1_blob[h + 36] = 1;

    let pool_start = V1_HEADER_SIZE + HEADING_SIZE;
    v1_blob[pool_start..pool_start + pool.len()].copy_from_slice(pool);

    let index = DocumentIndex::from_blob(&v1_blob).expect("v1 blob should parse");
    assert!(index.code_spans().is_empty());
    assert_eq!(index.headings().len(), 1);
}

/// `line1\n`code`\nline3`
fn check_from_blob_code_span_positions() {
    let mut b = BlobWriter::new(true);
    b.code_span_at("code", 6, 12, 1, 0);
    let blob = b.build();
    let index = DocumentIndex::from_blob(&blob).expect("from_blob failed");
    let cs = index.code_spans();
    assert_eq!(cs.len(), 1);
    assert_eq!(cs[0].text, "code");
    assert_eq!(cs[0].range.start.line, 1);
    assert_eq!(cs[0].range.start.character, 0);
}

/// `- [x] Task\n\n![[embed]]\n`
fn check_from_blob_v2_tasks_and_embeds() {
    let mut b = BlobWriter::new(true);
    b.task("Task", 0, 10, b'x');
    b.embed("embed", 12, 21);
    let blob = b.build();
    let index = DocumentIndex::from_blob(&blob).expect("from_blob failed");
    assert_eq!(index.tasks().len(), 1);
    assert_eq!(index.embeds().len(), 1);
}

/// `- [ ] \n`
fn check_from_blob_v2_empty_task_text() {
    let mut b = BlobWriter::new(true);
    b.task("", 0, 6, b' ');
    let blob = b.build();
    let index = DocumentIndex::from_blob(&blob).expect("from_blob failed");
    let _ = index.tasks();
}

/// Headings (one slug deduplicated), wiki and markdown links, tags and
/// block ids of one document.
fn check_from_blob_mixed_document() {
    let mut b = BlobWriter::new(true);
    b.heading("Title One", "title-one", 1, 0);
    b.heading("Section A", "section-a", 2, 2);
    b.heading("Section A", "section-a-1", 2, 4);
    b.link("Simple Link", "Simple Link", true, 40, 6);
    b.link("Display Text", "Page Name", true, 56, 7);
    b.link("Click here", "https://example.com", false, 83, 8);
    b.link("Anchored", "doc.md#section", false, 117, 9);
    b.tag("alpha");
    b.tag("beta");
    b.tag("gamma");
    b.block("id-one", 180, 11);
    b.block("id-two", 198, 12);
    let blob = b.build();
    let index = DocumentIndex::from_blob(&blob).expect("from_blob failed");

    assert_eq!(index.headings().len(), 3);
    assert_eq!(index.headings()[0].slug, "title-one");
    assert_eq!(index.headings()[1].slug, "section-a");
    assert_eq!(index.headings()[2].slug, "section-a-1");

    assert_eq!(index.wiki_links().len(), 2);
    assert!(index.wiki_links().iter().any(|w| w.target == "Simple Link" && w.alias.is_none()));
    assert!(index.wiki_links().iter().any(|w| w.target == "Page Name" && w.alias.as_deref() == Some("Display Text")));

    assert_eq!(index.markdown_links().len(), 2);
    assert!(index.markdown_links().iter().any(|m| m.url == "https://example.com" && m.anchor.is_none()));
    assert!(index.markdown_links().iter().any(|m| m.url == "doc.md" && m.anchor.as_deref() == Some("section")));

    assert!(index.tags().iter().any(|t| t.name == "alpha"));
    assert!(index.tags().iter().any(|t| t.name == "beta"));
    assert!(index.tags().iter().any(|t| t.name == "gamma"));

    assert!(index.block_by_id("id-one").is_some());
    assert!(index.block_by_id("id-two").is_some());

    let toc = index.toc();
    assert_eq!(toc.len(), 3);
    assert_eq!(toc[0].depth, 0);
    assert_eq!(toc[1].depth, 1);
    assert_eq!(toc[2].depth, 1);
}

// ── The same checks under each of the suites that hold them ──

#[test]
fn from_blob_test_from_blob_empty_document() {
    check_from_blob_empty_document();
}

#[test]
fn from_blob_test_from_blob_single_heading() {
    check_from_blob_single_heading();
}

#[test]
fn from_blob_test_from_blob_multiple_headings_with_dedup_slugs() {
    check_from_blob_multiple_headings_with_dedup_slugs();
}

#[test]
fn from_blob_test_from_blob_wiki_link() {
    check_from_blob_wiki_link();
}

#[test]
fn from_blob_test_from_blob_wiki_link_with_alias() {
    check_from_blob_wiki_link_with_alias();
}

#[test]
fn from_blob_test_from_blob_wiki_link_with_heading() {
    check_from_blob_wiki_link_with_heading();
}

#[test]
fn from_blob_test_from_blob_wiki_link_with_heading_and_matching_alias() {
    check_from_blob_wiki_link_with_heading_and_matching_alias();
}

#[test]
fn from_blob_test_from_blob_wiki_link_with_heading_and_different_alias() {
    check_from_blob_wiki_link_with_heading_and_different_alias();
}

#[test]
fn from_blob_test_from_blob_wiki_link_with_heading_no_alias() {
    check_from_blob_wiki_link_with_heading_no_alias();
}

#[test]
fn from_blob_test_from_blob_markdown_link_with_anchor() {
    check_from_blob_markdown_link_with_anchor();
}

#[test]
fn from_blob_test_from_blob_tags() {
    check_from_blob_tags();
}

#[test]
fn from_blob_test_from_blob_block_ids() {
    check_from_blob_block_ids();
}

#[test]
fn from_blob_test_from_blob_toc_and_outline() {
    check_from_blob_toc_and_outline();
}

#[test]
fn from_blob_test_from_blob_rejects_invalid_magic() {
    check_from_blob_rejects_invalid_magic();
}

#[test]
fn from_blob_test_from_blob_rejects_bad_version() {
    check_from_blob_rejects_bad_version();
}

#[test]
fn from_blob_test_from_blob_rejects_truncated() {
    check_from_blob_rejects_truncated();
}

#[test]
fn from_blob_test_from_blob_rejects_size_mismatch() {
    check_from_blob_rejects_size_mismatch();
}

#[test]
fn from_blob_test_from_blob_mixed_document() {
    check_from_blob_mixed_document();
}

#[test]
fn from_blob_test_from_blob_code_spans_basic() {
    check_from_blob_code_spans_basic();
}

#[test]
fn from_blob_test_from_blob_code_spans_multiple() {
    check_from_blob_code_spans_multiple();
}

#[test]
fn from_blob_test_from_blob_code_spans_empty() {
    check_from_blob_code_spans_empty();
}

#[test]
fn from_blob_test_from_blob_code_spans_in_heading() {
    check_from_blob_code_spans_in_heading();
}

#[test]
fn from_blob_test_from_blob_code_spans_backward_compat() {
    check_from_blob_code_spans_backward_compat();
}

#[test]
fn from_blob_test_from_blob_code_span_positions() {
    check_from_blob_code_span_positions();
}

#[test]
fn tests_test_from_blob_empty_document() {
    check_from_blob_empty_document();
}

#[test]
fn tests_test_from_blob_single_heading() {
    check_from_blob_single_heading();
}

#[test]
fn tests_test_from_blob_multiple_headings_with_dedup_slugs() {
    check_from_blob_multiple_headings_with_dedup_slugs();
}

#[test]
fn tests_test_from_blob_wiki_link() {
    check_from_blob_wiki_link();
}

#[test]
fn tests_test_from_blob_wiki_link_with_alias() {
    check_from_blob_wiki_link_with_alias();
}

#[test]
fn tests_test_from_blob_wiki_link_with_heading() {
    check_from_blob_wiki_link_with_heading();
}

#[test]
fn tests_test_from_blob_wiki_link_with_heading_and_matching_alias() {
    check_from_blob_wiki_link_with_heading_and_matching_alias();
}

#[test]
fn tests_test_from_blob_wiki_link_with_heading_and_different_alias() {
    check_from_blob_wiki_link_with_heading_and_different_alias();
}

#[test]
fn tests_test_from_blob_wiki_link_with_heading_no_alias() {
    check_from_blob_wiki_link_with_heading_no_alias();
}

#[test]
fn tests_test_from_blob_markdown_link_with_anchor() {
    check_from_blob_markdown_link_with_anchor();
}

#[test]
fn tests_test_from_blob_tags() {
    check_from_blob_tags();
}

#[test]
fn tests_test_from_blob_block_ids() {
    check_from_blob_block_ids();
}

#[test]
fn tests_test_from_blob_toc_and_outline() {
    check_from_blob_toc_and_outline();
}

#[test]
fn tests_test_from_blob_rejects_invalid_magic() {
    check_from_blob_rejects_invalid_magic();
}

#[test]
fn tests_test_from_blob_rejects_bad_version() {
    check_from_blob_rejects_bad_version();
}

#[test]
fn tests_test_from_blob_rejects_truncated() {
    check_from_blob_rejects_truncated();
}

#[test]
fn tests_test_from_blob_v2_empty_document() {
    check_from_blob_v2_empty_document();
}

#[test]
fn tests_test_from_blob_rejects_truncated_v2() {
    check_from_blob_rejects_truncated_v2();
}

#[test]
fn tests_test_from_blob_v2_same_result_as_v1_for_empty_doc() {
    check_from_blob_v2_same_result_as_v1_for_empty_doc();
}

#[test]
fn tests_test_from_blob_rejects_size_mismatch() {
    check_from_blob_rejects_size_mismatch();
}

#[test]
fn tests_test_from_blob_mixed_document() {
    check_from_blob_mixed_document();
}

#[test]
fn tests_test_from_blob_code_spans_basic() {
    check_from_blob_code_spans_basic();
}

#[test]
fn tests_test_from_blob_code_spans_multiple() {
    check_from_blob_code_spans_multiple();
}

#[test]
fn tests_test_from_blob_code_spans_empty() {
    check_from_blob_code_spans_empty();
}

#[test]
fn tests_test_from_blob_code_spans_in_heading() {
    check_from_blob_code_spans_in_heading();
}

#[test]
fn tests_test_from_blob_code_spans_backward_compat() {
    check_from_blob_code_spans_backward_compat();
}

#[test]
fn tests_test_from_blob_code_span_positions() {
    check_from_blob_code_span_positions();
}

#[test]
fn tests_test_from_blob_v2_with_tasks() {
    check_from_blob_v2_with_tasks();
}

#[test]
fn tests_test_from_blob_v2_with_embeds() {
    check_from_blob_v2_with_embeds();
}

#[test]
fn tests_test_from_blob_v2_tasks_and_embeds() {
    check_from_blob_v2_tasks_and_embeds();
}

#[test]
fn tests_test_from_blob_v1_no_tasks_or_embeds() {
    check_from_blob_v1_no_tasks_or_embeds();
}

#[test]
fn tests_test_from_blob_v2_empty_task_text() {
    check_from_blob_v2_empty_task_text();
}

#[test]
fn core_tests_test_from_blob_empty_document() {
    check_from_blob_empty_document();
}

#[test]
fn core_tests_test_from_blob_single_heading() {
    check_from_blob_single_heading();
}

#[test]
fn core_tests_test_from_blob_multiple_headings_with_dedup_slugs() {
    check_from_blob_multiple_headings_with_dedup_slugs();
}

#[test]
fn core_tests_test_from_blob_wiki_link() {
    check_from_blob_wiki_link();
}

#[test]
fn core_tests_test_from_blob_wiki_link_with_alias() {
    check_from_blob_wiki_link_with_alias();
}

#[test]
fn core_tests_test_from_blob_wiki_link_with_heading() {
    check_from_blob_wiki_link_with_heading();
}

#[test]
fn core_tests_test_from_blob_wiki_link_with_heading_and_matching_alias() {
    check_from_blob_wiki_link_with_heading_and_matching_alias();
}

#[test]
fn core_tests_test_from_blob_wiki_link_with_heading_and_different_alias() {
    check_from_blob_wiki_link_with_heading_and_different_alias();
}

#[test]
fn core_tests_test_from_blob_wiki_link_with_heading_no_alias() {
    check_from_blob_wiki_link_with_heading_no_alias();
}

#[test]
fn core_tests_test_from_blob_markdown_link_with_anchor() {
    check_from_blob_markdown_link_with_anchor();
}

#[test]
fn core_tests_test_from_blob_tags() {
    check_from_blob_tags();
}

#[test]
fn core_tests_test_from_blob_block_ids() {
    check_from_blob_block_ids();
}

#[test]
fn core_tests_test_from_blob_toc_and_outline() {
    check_from_blob_toc_and_outline();
}

#[test]
fn core_tests_test_from_blob_rejects_invalid_magic() {
    check_from_blob_rejects_invalid_magic();
}

#[test]
fn core_tests_test_from_blob_rejects_bad_version() {
    check_from_blob_rejects_bad_version();
}

#[test]
fn core_tests_test_from_blob_rejects_truncated() {
    check_from_blob_rejects_truncated();
}

#[test]
fn core_tests_test_from_blob_v2_empty_document() {
    check_from_blob_v2_empty_document();
}

#[test]
fn core_tests_test_from_blob_rejects_truncated_v2() {
    check_from_blob_rejects_truncated_v2();
}

#[test]
fn core_tests_test_from_blob_v2_same_result_as_v1_for_empty_doc() {
    check_from_blob_v2_same_result_as_v1_for_empty_doc();
}

#[test]
fn core_tests_test_from_blob_rejects_size_mismatch() {
    check_from_blob_rejects_size_mismatch();
}

#[test]
fn feature_tests_test_from_blob_code_spans_basic() {
    check_from_blob_code_spans_basic();
}

#[test]
fn feature_tests_test_from_blob_code_spans_multiple() {
    check_from_blob_code_spans_multiple();
}

#[test]
fn feature_tests_test_from_blob_code_spans_empty() {
    check_from_blob_code_spans_empty();
}

#[test]
fn feature_tests_test_from_blob_code_spans_in_heading() {
    check_from_blob_code_spans_in_heading();
}

#[test]
fn feature_tests_test_from_blob_code_spans_backward_compat() {
    check_from_blob_code_spans_backward_compat();
}

#[test]
fn feature_tests_test_from_blob_code_span_positions() {
    check_from_blob_code_span_positions();
}

#[test]
fn feature_tests_test_from_blob_v2_with_tasks() {
    check_from_blob_v2_with_tasks();
}

#[test]
fn feature_tests_test_from_blob_v2_with_embeds() {
    check_from_blob_v2_with_embeds();
}

#[test]
fn feature_tests_test_from_blob_v2_tasks_and_embeds() {
    check_from_blob_v2_tasks_and_embeds();
}

#[test]
fn feature_tests_test_from_blob_v1_no_tasks_or_embeds() {
    check_from_blob_v1_no_tasks_or_embeds();
}

#[test]
fn feature_tests_test_from_blob_v2_empty_task_text() {
    check_from_blob_v2_empty_task_text();
}

#[test]
fn parity_tests_test_from_blob_mixed_document() {
    check_from_blob_mixed_document();
}
