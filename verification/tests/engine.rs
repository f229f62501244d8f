use markymark_index::document::engine::{
    EngineBlockId, EngineBlockRef, EngineCallout, EngineHeading, EngineLink, EngineLinkDefinition,
    EngineProperty, EngineQueryBlock, EngineRecords, EngineSpan, EngineTag, EngineTask,
};
use markymark_index::{BlobError, DocumentIndex, Position, PropertyValueEntry};

/// A text blob with the strings appended so far, and the records that name them.
struct Builder {
    rec: EngineRecords,
}

impl Builder {
    fn new() -> Self {
        Builder {
            rec: EngineRecords {
                text_blob: Vec::new(),
                headings: Vec::new(),
                links: Vec::new(),
                tags: Vec::new(),
                block_ids: Vec::new(),
                code_spans: Vec::new(),
                tasks: Vec::new(),
                embeds: Vec::new(),
                callouts: Vec::new(),
                block_refs: Vec::new(),
                query_blocks: Vec::new(),
                link_definitions: Vec::new(),
                properties: Vec::new(),
            },
        }
    }

    fn text(&mut self, s: &str) -> (u32, u32) {
        let off = self.rec.text_blob.len() as u32;
        self.rec.text_blob.extend_from_slice(s.as_bytes());
        (off, s.len() as u32)
    }

    fn heading(&mut self, text: &str, slug: &str, level: u8, line: u32) {
        let (to, tl) = self.text(text);
        let (so, sl) = self.text(slug);
        self.rec.headings.push(EngineHeading {
            text_offset: to,
            text_length: tl,
            slug_offset: so,
            slug_length: sl,
            level,
            start_line: line,
            start_col: 0,
            end_line: line,
            end_col: tl + level as u32 + 1,
        });
    }

    fn link(&mut self, text: &str, target: &str, wiki: bool, at: u32) {
        let (to, tl) = self.text(text);
        let (go, gl) = self.text(target);
        self.rec.links.push(EngineLink {
            text_offset: to,
            text_length: tl,
            target_offset: go,
            target_length: gl,
            source_offset: at,
            is_wiki: if wiki { 1 } else { 0 },
            start_line: 0,
            start_col: at,
            end_line: 0,
            end_col: at + 1,
        });
    }
}

#[test]
fn engine_records_build_the_index() {
    let mut b = Builder::new();
    b.heading("Intro", "intro", 1, 0);
    b.heading("Details", "details", 2, 2);
    b.link("shown", "Page#Part", true, 3);
    b.link("Page", "Page", true, 20);
    b.link("site", "https://x.org#top", false, 40);
    let (no, nl) = b.text("rust");
    b.rec.tags.push(EngineTag { name_offset: no, name_length: nl });
    let (io, il) = b.text("blk");
    b.rec.block_ids.push(EngineBlockId {
        id_offset: io,
        id_length: il,
        source_offset: 50,
        start_line: 4,
        start_col: 3,
        end_line: 4,
        end_col: 7,
    });
    let (co, cl) = b.text("code");
    b.rec.code_spans.push(EngineSpan {
        text_offset: co,
        text_length: cl,
        source_offset: 60,
        end_offset: 66,
        start_line: 5,
        start_col: 0,
        end_line: 5,
        end_col: 6,
    });
    let (ko, kl) = b.text("done");
    b.rec.tasks.push(EngineTask {
        state: b'X',
        text_offset: ko,
        text_length: kl,
        source_offset: 70,
        end_offset: 80,
        start_line: 6,
        start_col: 0,
        end_line: 6,
        end_col: 10,
    });
    b.rec.tasks.push(EngineTask {
        state: b' ',
        text_offset: ko,
        text_length: kl,
        source_offset: 81,
        end_offset: 91,
        start_line: 7,
        start_col: 0,
        end_line: 7,
        end_col: 10,
    });
    let (eo, el) = b.text("img.png");
    b.rec.embeds.push(EngineSpan {
        text_offset: eo,
        text_length: el,
        source_offset: 92,
        end_offset: 104,
        start_line: 8,
        start_col: 0,
        end_line: 8,
        end_col: 12,
    });
    let idx = DocumentIndex::from_engine_records(&b.rec, Vec::new(), vec!["Alias".to_string()])
        .expect("engine records read");
    assert_eq!(idx.headings().len(), 2);
    assert_eq!(idx.headings()[1].slug, "details");
    assert_eq!(idx.toc().len(), 2);
    assert_eq!(idx.wiki_links().len(), 2);
    assert_eq!(idx.wiki_links()[0].target, "Page");
    assert_eq!(idx.wiki_links()[0].heading.as_deref(), Some("Part"));
    assert_eq!(idx.wiki_links()[0].alias.as_deref(), Some("shown"));
    assert_eq!(idx.wiki_links()[0].end_byte, 3 + 9 + 5 + 5);
    assert!(idx.wiki_links()[1].alias.is_none());
    assert_eq!(idx.wiki_links()[1].end_byte, 20 + 4 + 4);
    assert_eq!(idx.markdown_links()[0].url, "https://x.org");
    assert_eq!(idx.markdown_links()[0].anchor.as_deref(), Some("top"));
    assert_eq!(idx.tags()[0].name, "rust");
    assert_eq!(idx.block_by_id("blk").unwrap().range.start, Position::new(4, 3));
    assert_eq!(idx.block_by_id("blk").unwrap().end_byte, 54);
    assert_eq!(idx.code_spans()[0].text, "code");
    assert_eq!(idx.tasks()[0].state, "checked");
    assert_eq!(idx.tasks()[1].state, "unchecked");
    assert_eq!(idx.embeds()[0].target, "img.png");
    assert_eq!(idx.aliases(), &["Alias".to_string()][..]);
    assert!(idx.callouts().is_empty());
}

#[test]
fn engine_string_outside_the_blob_is_refused() {
    let mut b = Builder::new();
    b.heading("Intro", "intro", 1, 0);
    b.rec.tags.push(EngineTag { name_offset: 8, name_length: 100 });
    let r = DocumentIndex::from_engine_records(&b.rec, Vec::new(), Vec::new());
    assert!(matches!(r, Err(BlobError::TextPoolOutOfBounds)));
}

#[test]
fn engine_invalid_utf8_is_refused_and_the_first_error_wins() {
    let mut b = Builder::new();
    b.rec.text_blob.extend_from_slice(&[0xff, 0xfe]);
    b.rec.headings.push(EngineHeading {
        text_offset: 0,
        text_length: 2,
        slug_offset: 0,
        slug_length: 0,
        level: 1,
        start_line: 0,
        start_col: 0,
        end_line: 0,
        end_col: 0,
    });
    b.rec.tags.push(EngineTag { name_offset: 0, name_length: 50 });
    let r = DocumentIndex::from_engine_records(&b.rec, Vec::new(), Vec::new());
    assert!(matches!(r, Err(BlobError::InvalidUtf8)));
}

#[test]
fn engine_callouts_block_refs_queries_and_link_definitions_are_read() {
    let mut b = Builder::new();
    let (to, tl) = b.text("warning");
    let (uo, ul) = b.text("uuid-1");
    let (qo, ql) = b.text("(todo)");
    let (lo, ll) = b.text("ref");
    let (ro, rl) = b.text("https://r.org");
    let (io, il) = b.text("Title");
    b.rec.callouts.push(EngineCallout {
        type_offset: to,
        type_length: tl,
        title_offset: 0,
        title_length: 0,
        source_offset: 0,
        end_offset: 12,
        start_line: 0,
        start_col: 0,
        end_line: 1,
        end_col: 3,
    });
    b.rec.block_refs.push(EngineBlockRef {
        uuid_offset: uo,
        uuid_length: ul,
        start_line: 2,
        start_col: 1,
        end_line: 2,
        end_col: 11,
    });
    b.rec.query_blocks.push(EngineQueryBlock {
        query_offset: qo,
        query_length: ql,
        source_offset: 30,
        end_offset: 45,
        start_line: 3,
        start_col: 0,
        end_line: 3,
        end_col: 15,
    });
    b.rec.link_definitions.push(EngineLinkDefinition {
        label_offset: lo,
        label_length: ll,
        url_offset: ro,
        url_length: rl,
        title_offset: io,
        title_length: il,
        source_offset: 46,
        end_offset: 70,
        start_line: 4,
        start_col: 0,
        end_line: 4,
        end_col: 24,
    });
    let idx = DocumentIndex::from_engine_records(&b.rec, Vec::new(), Vec::new()).expect("records read");
    assert_eq!(idx.callouts()[0].callout_type, "warning");
    assert!(idx.callouts()[0].title.is_none());
    assert_eq!(idx.callouts()[0].range.end, Position::new(1, 3));
    assert_eq!(idx.block_refs()[0].uuid, "uuid-1");
    assert_eq!(idx.query_blocks()[0].query, "(todo)");
    assert_eq!(idx.query_blocks()[0].end_byte, 45);
    assert_eq!(idx.link_definitions()[0].label, "ref");
    assert_eq!(idx.link_definitions()[0].url, "https://r.org");
    assert_eq!(idx.link_definitions()[0].title.as_deref(), Some("Title"));
    assert!(idx.properties().is_empty());
}

#[test]
fn engine_bad_callout_title_is_refused() {
    let mut b = Builder::new();
    let (to, tl) = b.text("note");
    b.rec.callouts.push(EngineCallout {
        type_offset: to,
        type_length: tl,
        title_offset: 2,
        title_length: 40,
        source_offset: 0,
        end_offset: 0,
        start_line: 0,
        start_col: 0,
        end_line: 0,
        end_col: 0,
    });
    let r = DocumentIndex::from_engine_records(&b.rec, Vec::new(), Vec::new());
    assert!(matches!(r, Err(BlobError::TextPoolOutOfBounds)));
}

#[test]
fn engine_properties_are_read_by_value_type() {
    let mut b = Builder::new();
    for (key, value, t) in [("tags", "project, rust ,", 1u8), ("author", "[[Jane]]", 2), ("status", " active ", 0)] {
        let (ko, kl) = b.text(key);
        let (vo, vl) = b.text(value);
        b.rec.properties.push(EngineProperty {
            key_offset: ko,
            key_length: kl,
            value_offset: vo,
            value_length: vl,
            value_type: t,
        });
    }
    let idx = DocumentIndex::from_engine_records(&b.rec, Vec::new(), Vec::new()).expect("records read");
    let props = idx.properties();
    assert_eq!(props.len(), 3);
    assert_eq!(props[0].key, "tags");
    match &props[0].value {
        PropertyValueEntry::List(items) => assert_eq!(items, &vec!["project".to_string(), "rust".to_string(), String::new()]),
        other => panic!("unexpected {other:?}"),
    }
    match &props[1].value {
        PropertyValueEntry::PageRef(p) => assert_eq!(p, "Jane"),
        other => panic!("unexpected {other:?}"),
    }
    match &props[2].value {
        PropertyValueEntry::String(s) => assert_eq!(s, " active "),
        other => panic!("unexpected {other:?}"),
    }
}
