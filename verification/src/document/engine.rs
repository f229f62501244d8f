//! Building a document index from the records of an extraction engine: each
//! record carries its positions and refers to its strings by offset and length
//! into one text blob; the strings are checked and copied out, links are split
//! by syntax, and the rest is what the blob path does.

use vstd::prelude::*;

use crate::blob::decode::{
    decode_all, lemma_decode_all_err, markdown_links_of, task_state, wiki_links_of,
};
use crate::blob::header::{after_hash, before_hash, pool_str, spec_pool_str, split_first_hash, BlobError};
use crate::blob::records::{
    BlockData, BlockView, CodeSpanData, DecodedOwnedData, DecodedView, EmbedData, HeadingData,
    HeadingView, LinkView, MarkdownData, MarkdownView, SpanView, TagData, TaskData, TaskView,
    WikiData, WikiView,
};

use super::index::{index_from, DocumentIndex};
use super::properties::{property_value, property_value_of, property_value_view, PropertyValueView};
use super::types::{
    BlockRefEntry, CalloutEntry, FrontmatterOwnedEntry, LinkDefinitionEntry, Position,
    PropertyEntry, QueryBlockEntry, Range, XmlTagOwned,
};

verus! {

/// An engine heading record.
pub struct EngineHeading {
    pub text_offset: u32,
    pub text_length: u32,
    pub slug_offset: u32,
    pub slug_length: u32,
    pub level: u8,
    pub start_line: u32,
    pub start_col: u32,
    pub end_line: u32,
    pub end_col: u32,
}

/// An engine link record; `is_wiki` is nonzero for a wiki link.
pub struct EngineLink {
    pub text_offset: u32,
    pub text_length: u32,
    pub target_offset: u32,
    pub target_length: u32,
    pub source_offset: u32,
    pub is_wiki: u8,
    pub start_line: u32,
    pub start_col: u32,
    pub end_line: u32,
    pub end_col: u32,
}

/// An engine tag record.
pub struct EngineTag {
    pub name_offset: u32,
    pub name_length: u32,
}

/// An engine block-id record.
pub struct EngineBlockId {
    pub id_offset: u32,
    pub id_length: u32,
    pub source_offset: u32,
    pub start_line: u32,
    pub start_col: u32,
    pub end_line: u32,
    pub end_col: u32,
}

/// An engine record of a text with a byte range: a code span or an embed.
pub struct EngineSpan {
    pub text_offset: u32,
    pub text_length: u32,
    pub source_offset: u32,
    pub end_offset: u32,
    pub start_line: u32,
    pub start_col: u32,
    pub end_line: u32,
    pub end_col: u32,
}

/// An engine task record; `state` is the byte inside the checkbox.
pub struct EngineTask {
    pub state: u8,
    pub text_offset: u32,
    pub text_length: u32,
    pub source_offset: u32,
    pub end_offset: u32,
    pub start_line: u32,
    pub start_col: u32,
    pub end_line: u32,
    pub end_col: u32,
}

/// What an extraction engine reports for one document.
pub struct EngineRecords {
    pub text_blob: Vec<u8>,
    pub headings: Vec<EngineHeading>,
    pub links: Vec<EngineLink>,
    pub tags: Vec<EngineTag>,
    pub block_ids: Vec<EngineBlockId>,
    pub code_spans: Vec<EngineSpan>,
    pub tasks: Vec<EngineTask>,
    pub embeds: Vec<EngineSpan>,
    pub callouts: Vec<EngineCallout>,
    pub block_refs: Vec<EngineBlockRef>,
    pub query_blocks: Vec<EngineQueryBlock>,
    pub link_definitions: Vec<EngineLinkDefinition>,
    pub properties: Vec<EngineProperty>,
}

/// An engine callout record; a title of length 0 is no title.
pub struct EngineCallout {
    pub type_offset: u32,
    pub type_length: u32,
    pub title_offset: u32,
    pub title_length: u32,
    pub source_offset: u32,
    pub end_offset: u32,
    pub start_line: u32,
    pub start_col: u32,
    pub end_line: u32,
    pub end_col: u32,
}

/// An engine block-reference record (`((uuid))`).
pub struct EngineBlockRef {
    pub uuid_offset: u32,
    pub uuid_length: u32,
    pub start_line: u32,
    pub start_col: u32,
    pub end_line: u32,
    pub end_col: u32,
}

/// An engine query-block record.
pub struct EngineQueryBlock {
    pub query_offset: u32,
    pub query_length: u32,
    pub source_offset: u32,
    pub end_offset: u32,
    pub start_line: u32,
    pub start_col: u32,
    pub end_line: u32,
    pub end_col: u32,
}

/// An engine link-definition record; a title of length 0 is no title.
pub struct EngineLinkDefinition {
    pub label_offset: u32,
    pub label_length: u32,
    pub url_offset: u32,
    pub url_length: u32,
    pub title_offset: u32,
    pub title_length: u32,
    pub source_offset: u32,
    pub end_offset: u32,
    pub start_line: u32,
    pub start_col: u32,
    pub end_line: u32,
    pub end_col: u32,
}

/// An engine property record (`key:: value`) with its value type.
pub struct EngineProperty {
    pub key_offset: u32,
    pub key_length: u32,
    pub value_offset: u32,
    pub value_length: u32,
    pub value_type: u8,
}

/// View of a property entry.
pub ghost struct PropertyView {
    pub key: Seq<char>,
    pub value: PropertyValueView,
}

/// The view of a property entry.
pub open spec fn property_view(e: PropertyEntry) -> PropertyView {
    PropertyView { key: e.key@, value: property_value_view(e.value) }
}

/// A property record read against the text blob (its key, then its value).
pub open spec fn engine_property(p: Seq<u8>, r: EngineProperty) -> Result<PropertyView, BlobError> {
    match spec_pool_str(p, r.key_offset, r.key_length) {
        Err(e) => Err(e),
        Ok(key) => match spec_pool_str(p, r.value_offset, r.value_length) {
            Err(e) => Err(e),
            Ok(value) => Ok(PropertyView { key, value: property_value_of(value, r.value_type) }),
        },
    }
}

/// View of a callout entry.
pub ghost struct CalloutView {
    pub callout_type: Seq<char>,
    pub title: Option<Seq<char>>,
    pub range: Range,
    pub start_byte: u64,
    pub end_byte: u64,
}

/// View of a block-reference entry.
pub ghost struct BlockRefView {
    pub uuid: Seq<char>,
    pub range: Range,
}

/// View of a query-block entry.
pub ghost struct QueryBlockView {
    pub query: Seq<char>,
    pub range: Range,
    pub start_byte: u64,
    pub end_byte: u64,
}

/// View of a link-definition entry.
pub ghost struct LinkDefinitionView {
    pub label: Seq<char>,
    pub url: Seq<char>,
    pub title: Option<Seq<char>>,
    pub range: Range,
    pub start_byte: u64,
    pub end_byte: u64,
}

/// The text of an optional string.
pub open spec fn opt_view(o: Option<String>) -> Option<Seq<char>> {
    match o {
        Some(s) => Some(s@),
        None => None,
    }
}

/// The view of a callout entry.
pub open spec fn callout_view(e: CalloutEntry) -> CalloutView {
    CalloutView { callout_type: e.callout_type@, title: opt_view(e.title), range: e.range, start_byte: e.start_byte, end_byte: e.end_byte }
}

/// The view of a block-reference entry.
pub open spec fn block_ref_view(e: BlockRefEntry) -> BlockRefView {
    BlockRefView { uuid: e.uuid@, range: e.range }
}

/// The view of a query-block entry.
pub open spec fn query_block_view(e: QueryBlockEntry) -> QueryBlockView {
    QueryBlockView { query: e.query@, range: e.range, start_byte: e.start_byte, end_byte: e.end_byte }
}

/// The view of a link-definition entry.
pub open spec fn link_definition_view(e: LinkDefinitionEntry) -> LinkDefinitionView {
    LinkDefinitionView {
        label: e.label@,
        url: e.url@,
        title: opt_view(e.title),
        range: e.range,
        start_byte: e.start_byte,
        end_byte: e.end_byte,
    }
}

/// The range between two line/column pairs.
pub open spec fn lines_range(sl: u32, sc: u32, el: u32, ec: u32) -> Range {
    Range { start: Position { line: sl, character: sc }, end: Position { line: el, character: ec } }
}

/// An optional title: none when its length is 0, else the string read.
pub open spec fn engine_title(p: Seq<u8>, off: u32, len: u32) -> Result<Option<Seq<char>>, BlobError> {
    if len == 0 {
        Ok(None)
    } else {
        match spec_pool_str(p, off, len) {
            Err(e) => Err(e),
            Ok(t) => Ok(Some(t)),
        }
    }
}

/// A callout record read against the text blob (its title first, then its type).
pub open spec fn engine_callout(p: Seq<u8>, c: EngineCallout) -> Result<CalloutView, BlobError> {
    match engine_title(p, c.title_offset, c.title_length) {
        Err(e) => Err(e),
        Ok(title) => match spec_pool_str(p, c.type_offset, c.type_length) {
            Err(e) => Err(e),
            Ok(t) => Ok(
                CalloutView {
                    callout_type: t,
                    title,
                    range: lines_range(c.start_line, c.start_col, c.end_line, c.end_col),
                    start_byte: c.source_offset as u64,
                    end_byte: c.end_offset as u64,
                },
            ),
        },
    }
}

/// A block-reference record read against the text blob.
pub open spec fn engine_block_ref(p: Seq<u8>, b: EngineBlockRef) -> Result<BlockRefView, BlobError> {
    match spec_pool_str(p, b.uuid_offset, b.uuid_length) {
        Err(e) => Err(e),
        Ok(u) => Ok(BlockRefView { uuid: u, range: lines_range(b.start_line, b.start_col, b.end_line, b.end_col) }),
    }
}

/// A query-block record read against the text blob.
pub open spec fn engine_query_block(p: Seq<u8>, q: EngineQueryBlock) -> Result<QueryBlockView, BlobError> {
    match spec_pool_str(p, q.query_offset, q.query_length) {
        Err(e) => Err(e),
        Ok(t) => Ok(
            QueryBlockView {
                query: t,
                range: lines_range(q.start_line, q.start_col, q.end_line, q.end_col),
                start_byte: q.source_offset as u64,
                end_byte: q.end_offset as u64,
            },
        ),
    }
}

/// A link-definition record read against the text blob (its title first,
/// then its label and URL).
pub open spec fn engine_link_definition(p: Seq<u8>, l: EngineLinkDefinition) -> Result<LinkDefinitionView, BlobError> {
    match engine_title(p, l.title_offset, l.title_length) {
        Err(e) => Err(e),
        Ok(title) => match spec_pool_str(p, l.label_offset, l.label_length) {
            Err(e) => Err(e),
            Ok(label) => match spec_pool_str(p, l.url_offset, l.url_length) {
                Err(e) => Err(e),
                Ok(url) => Ok(
                    LinkDefinitionView {
                        label,
                        url,
                        title,
                        range: lines_range(l.start_line, l.start_col, l.end_line, l.end_col),
                        start_byte: l.source_offset as u64,
                        end_byte: l.end_offset as u64,
                    },
                ),
            },
        },
    }
}

/// What the callout, block-reference, query-block, link-definition and
/// property records amount to, read in that order after the others.
pub open spec fn spec_engine_extras(r: EngineRecords) -> Result<
    (Seq<CalloutView>, Seq<BlockRefView>, Seq<QueryBlockView>, Seq<LinkDefinitionView>, Seq<PropertyView>),
    BlobError,
> {
    let p = r.text_blob@;
    match decode_all(r.callouts@.len(), |i: nat| engine_callout(p, r.callouts@[i as int])) {
        Err(e) => Err(e),
        Ok(cs) => match decode_all(r.block_refs@.len(), |i: nat| engine_block_ref(p, r.block_refs@[i as int])) {
            Err(e) => Err(e),
            Ok(bs) => match decode_all(r.query_blocks@.len(), |i: nat| engine_query_block(p, r.query_blocks@[i as int])) {
                Err(e) => Err(e),
                Ok(qs) => match decode_all(
                    r.link_definitions@.len(),
                    |i: nat| engine_link_definition(p, r.link_definitions@[i as int]),
                ) {
                    Err(e) => Err(e),
                    Ok(ls) => match decode_all(r.properties@.len(), |i: nat| engine_property(p, r.properties@[i as int])) {
                        Err(e) => Err(e),
                        Ok(ps) => Ok((cs, bs, qs, ls, ps)),
                    },
                },
            },
        },
    }
}

/// A heading record read against the text blob.
pub open spec fn engine_heading(p: Seq<u8>, h: EngineHeading) -> Result<HeadingView, BlobError> {
    match spec_pool_str(p, h.text_offset, h.text_length) {
        Err(e) => Err(e),
        Ok(text) => match spec_pool_str(p, h.slug_offset, h.slug_length) {
            Err(e) => Err(e),
            Ok(slug) => Ok(
                HeadingView {
                    text,
                    slug,
                    start_line: h.start_line,
                    start_col: h.start_col,
                    end_line: h.end_line,
                    end_col: h.end_col,
                    level: h.level,
                },
            ),
        },
    }
}

/// A link record read against the text blob: a wiki link splits its target at
/// the first `#` into page and heading and takes its text as alias when it
/// differs from the target; a markdown link splits its target into URL and anchor.
pub open spec fn engine_link(p: Seq<u8>, l: EngineLink) -> Result<LinkView, BlobError> {
    match spec_pool_str(p, l.text_offset, l.text_length) {
        Err(e) => Err(e),
        Ok(text) => match spec_pool_str(p, l.target_offset, l.target_length) {
            Err(e) => Err(e),
            Ok(target) => {
                let tb = p.subrange(l.target_offset as int, l.target_offset + l.target_length);
                if l.is_wiki != 0 {
                    Ok(
                        LinkView::Wiki(
                            WikiView {
                                target: before_hash(tb),
                                alias: if text != target {
                                    Some(text)
                                } else {
                                    None
                                },
                                heading: after_hash(tb),
                                source_offset: l.source_offset,
                                text_len: l.text_length,
                                target_len: l.target_length,
                                start_line: l.start_line,
                                start_col: l.start_col,
                                end_line: l.end_line,
                                end_col: l.end_col,
                            },
                        ),
                    )
                } else {
                    Ok(
                        LinkView::Markdown(
                            MarkdownView {
                                text,
                                url: before_hash(tb),
                                anchor: after_hash(tb),
                                source_offset: l.source_offset,
                                text_len: l.text_length,
                                target_len: l.target_length,
                                start_line: l.start_line,
                                start_col: l.start_col,
                                end_line: l.end_line,
                                end_col: l.end_col,
                            },
                        ),
                    )
                }
            },
        },
    }
}

/// A tag record read against the text blob.
pub open spec fn engine_tag(p: Seq<u8>, t: EngineTag) -> Result<Seq<char>, BlobError> {
    spec_pool_str(p, t.name_offset, t.name_length)
}

/// A block-id record read against the text blob.
pub open spec fn engine_block(p: Seq<u8>, b: EngineBlockId) -> Result<BlockView, BlobError> {
    match spec_pool_str(p, b.id_offset, b.id_length) {
        Err(e) => Err(e),
        Ok(id) => Ok(
            BlockView {
                id,
                source_offset: b.source_offset,
                id_len: b.id_length,
                start_line: b.start_line,
                start_col: b.start_col,
                end_line: b.end_line,
                end_col: b.end_col,
            },
        ),
    }
}

/// A span record read against the text blob.
pub open spec fn engine_span(p: Seq<u8>, s: EngineSpan) -> Result<SpanView, BlobError> {
    match spec_pool_str(p, s.text_offset, s.text_length) {
        Err(e) => Err(e),
        Ok(text) => Ok(
            SpanView {
                text,
                source_offset: s.source_offset,
                end_offset: s.end_offset,
                start_line: s.start_line,
                start_col: s.start_col,
                end_line: s.end_line,
                end_col: s.end_col,
            },
        ),
    }
}

/// A task record read against the text blob: `x` or `X` is checked, anything else unchecked.
pub open spec fn engine_task(p: Seq<u8>, t: EngineTask) -> Result<TaskView, BlobError> {
    match spec_pool_str(p, t.text_offset, t.text_length) {
        Err(e) => Err(e),
        Ok(text) => Ok(
            TaskView {
                state: task_state(t.state),
                span: SpanView {
                    text,
                    source_offset: t.source_offset,
                    end_offset: t.end_offset,
                    start_line: t.start_line,
                    start_col: t.start_col,
                    end_line: t.end_line,
                    end_col: t.end_col,
                },
            },
        ),
    }
}

/// What the records amount to: each kind in the engine's order (headings,
/// links, tags, block ids, code spans, tasks, embeds), each record in order,
/// the first string that is out of the blob or not UTF-8 deciding the error.
pub open spec fn spec_engine(r: EngineRecords) -> Result<DecodedView, BlobError> {
    let p = r.text_blob@;
    match decode_all(r.headings@.len(), |i: nat| engine_heading(p, r.headings@[i as int])) {
        Err(e) => Err(e),
        Ok(headings) => match decode_all(r.links@.len(), |i: nat| engine_link(p, r.links@[i as int])) {
            Err(e) => Err(e),
            Ok(links) => match decode_all(r.tags@.len(), |i: nat| engine_tag(p, r.tags@[i as int])) {
                Err(e) => Err(e),
                Ok(tags) => match decode_all(r.block_ids@.len(), |i: nat| engine_block(p, r.block_ids@[i as int])) {
                    Err(e) => Err(e),
                    Ok(blocks) => match decode_all(r.code_spans@.len(), |i: nat| engine_span(p, r.code_spans@[i as int])) {
                        Err(e) => Err(e),
                        Ok(code_spans) => match decode_all(r.tasks@.len(), |i: nat| engine_task(p, r.tasks@[i as int])) {
                            Err(e) => Err(e),
                            Ok(tasks) => match decode_all(r.embeds@.len(), |i: nat| engine_span(p, r.embeds@[i as int])) {
                                Err(e) => Err(e),
                                Ok(embeds) => Ok(
                                    DecodedView {
                                        headings,
                                        wiki_links: wiki_links_of(links),
                                        markdown_links: markdown_links_of(links),
                                        tags,
                                        blocks,
                                        code_spans,
                                        tasks,
                                        embeds,
                                    },
                                ),
                            },
                        },
                    },
                },
            },
        },
    }
}

/// Whether `r` is what building an index from engine records with frontmatter
/// `fm` and aliases `aliases` gives: the records' index when every string reads,
/// else the first error.
pub open spec fn built_from_engine(
    r: Result<DocumentIndex, BlobError>,
    rec: EngineRecords,
    fm: Seq<FrontmatterOwnedEntry>,
    aliases: Seq<String>,
) -> bool {
    match r {
        Ok(idx) => {
            &&& spec_engine_extras(rec) == Ok::<
                (Seq<CalloutView>, Seq<BlockRefView>, Seq<QueryBlockView>, Seq<LinkDefinitionView>, Seq<PropertyView>),
                BlobError,
            >(
                (
                    idx@.callouts.map_values(|e: CalloutEntry| callout_view(e)),
                    idx@.block_refs.map_values(|e: BlockRefEntry| block_ref_view(e)),
                    idx@.query_blocks.map_values(|e: QueryBlockEntry| query_block_view(e)),
                    idx@.link_definitions.map_values(|e: LinkDefinitionEntry| link_definition_view(e)),
                    idx@.properties.map_values(|e: PropertyEntry| property_view(e)),
                ),
            )
            &&& exists|dec: DecodedOwnedData|
                spec_engine(rec) == Ok::<DecodedView, BlobError>(dec@) && #[trigger] index_from(
                    idx@,
                    dec,
                    Seq::<XmlTagOwned>::empty(),
                    fm,
                    aliases,
                )
        },
        Err(e) => match spec_engine(rec) {
            Err(e0) => e == e0,
            Ok(_) => spec_engine_extras(rec) matches Err(e1) && e == e1,
        },
    }
}

/// Read one heading record.
fn read_heading(p: &[u8], h: &EngineHeading) -> (r: Result<HeadingData, BlobError>)
    ensures
        match r {
            Ok(x) => engine_heading(p@, *h) == Ok::<HeadingView, BlobError>(x@),
            Err(e) => engine_heading(p@, *h) == Err::<HeadingView, BlobError>(e),
        },
{
    let text = pool_str(p, h.text_offset, h.text_length)?.to_owned();
    let slug = pool_str(p, h.slug_offset, h.slug_length)?.to_owned();
    Ok(
        HeadingData {
            text,
            slug,
            start_line: h.start_line,
            start_col: h.start_col,
            end_line: h.end_line,
            end_col: h.end_col,
            level: h.level,
        },
    )
}

/// Read one link record.
fn read_link(p: &[u8], l: &EngineLink) -> (r: Result<(Option<WikiData>, Option<MarkdownData>), BlobError>)
    ensures
        match r {
            Ok((Some(w), None)) => engine_link(p@, *l) == Ok::<LinkView, BlobError>(LinkView::Wiki(w@)),
            Ok((None, Some(m))) => engine_link(p@, *l) == Ok::<LinkView, BlobError>(LinkView::Markdown(m@)),
            Ok(_) => false,
            Err(e) => engine_link(p@, *l) == Err::<LinkView, BlobError>(e),
        },
{
    let text = pool_str(p, l.text_offset, l.text_length)?;
    let target = pool_str(p, l.target_offset, l.target_length)?;
    let (page, heading) = split_first_hash(target);
    let text_owned = text.to_owned();
    if l.is_wiki != 0 {
        let target_owned = target.to_owned();
        let alias = if text_owned != target_owned {
            Some(text_owned)
        } else {
            None
        };
        Ok(
            (
                Some(
                    WikiData {
                        target: page,
                        alias,
                        heading,
                        source_offset: l.source_offset,
                        text_len: l.text_length,
                        target_len: l.target_length,
                        start_line: l.start_line,
                        start_col: l.start_col,
                        end_line: l.end_line,
                        end_col: l.end_col,
                    },
                ),
                None,
            ),
        )
    } else {
        Ok(
            (
                None,
                Some(
                    MarkdownData {
                        text: text_owned,
                        url: page,
                        anchor: heading,
                        source_offset: l.source_offset,
                        text_len: l.text_length,
                        target_len: l.target_length,
                        start_line: l.start_line,
                        start_col: l.start_col,
                        end_line: l.end_line,
                        end_col: l.end_col,
                    },
                ),
            ),
        )
    }
}

/// Read one tag record.
fn read_tag(p: &[u8], t: &EngineTag) -> (r: Result<TagData, BlobError>)
    ensures
        match r {
            Ok(x) => engine_tag(p@, *t) == Ok::<Seq<char>, BlobError>(x.name@),
            Err(e) => engine_tag(p@, *t) == Err::<Seq<char>, BlobError>(e),
        },
{
    let name = pool_str(p, t.name_offset, t.name_length)?.to_owned();
    Ok(TagData { name })
}

/// Read one block-id record.
fn read_block(p: &[u8], b: &EngineBlockId) -> (r: Result<BlockData, BlobError>)
    ensures
        match r {
            Ok(x) => engine_block(p@, *b) == Ok::<BlockView, BlobError>(x@),
            Err(e) => engine_block(p@, *b) == Err::<BlockView, BlobError>(e),
        },
{
    let id = pool_str(p, b.id_offset, b.id_length)?.to_owned();
    Ok(
        BlockData {
            id,
            source_offset: b.source_offset,
            id_len: b.id_length,
            start_line: b.start_line,
            start_col: b.start_col,
            end_line: b.end_line,
            end_col: b.end_col,
        },
    )
}

/// Read one code-span record.
fn read_code_span(p: &[u8], s: &EngineSpan) -> (r: Result<CodeSpanData, BlobError>)
    ensures
        match r {
            Ok(x) => engine_span(p@, *s) == Ok::<SpanView, BlobError>(x@),
            Err(e) => engine_span(p@, *s) == Err::<SpanView, BlobError>(e),
        },
{
    let text = pool_str(p, s.text_offset, s.text_length)?.to_owned();
    Ok(
        CodeSpanData {
            text,
            source_offset: s.source_offset,
            end_offset: s.end_offset,
            start_line: s.start_line,
            start_col: s.start_col,
            end_line: s.end_line,
            end_col: s.end_col,
        },
    )
}

/// Read one embed record.
fn read_embed(p: &[u8], s: &EngineSpan) -> (r: Result<EmbedData, BlobError>)
    ensures
        match r {
            Ok(x) => engine_span(p@, *s) == Ok::<SpanView, BlobError>(x@),
            Err(e) => engine_span(p@, *s) == Err::<SpanView, BlobError>(e),
        },
{
    let target = pool_str(p, s.text_offset, s.text_length)?.to_owned();
    Ok(
        EmbedData {
            target,
            source_offset: s.source_offset,
            end_offset: s.end_offset,
            start_line: s.start_line,
            start_col: s.start_col,
            end_line: s.end_line,
            end_col: s.end_col,
        },
    )
}

/// Read one task record.
fn read_task(p: &[u8], t: &EngineTask) -> (r: Result<TaskData, BlobError>)
    ensures
        match r {
            Ok(x) => engine_task(p@, *t) == Ok::<TaskView, BlobError>(x@),
            Err(e) => engine_task(p@, *t) == Err::<TaskView, BlobError>(e),
        },
{
    let text = pool_str(p, t.text_offset, t.text_length)?.to_owned();
    let state = if t.state == 0x78 || t.state == 0x58 {
        String::from_str("checked")
    } else {
        String::from_str("unchecked")
    };
    Ok(
        TaskData {
            state,
            text,
            source_offset: t.source_offset,
            end_offset: t.end_offset,
            start_line: t.start_line,
            start_col: t.start_col,
            end_line: t.end_line,
            end_col: t.end_col,
        },
    )
}

/// Read every heading record, in order.
fn read_headings(p: &[u8], rs: &Vec<EngineHeading>) -> (r: Result<Vec<HeadingData>, BlobError>)
    ensures
        match r {
            Ok(v) => decode_all(rs@.len(), |i: nat| engine_heading(p@, rs@[i as int])) == Ok::<Seq<HeadingView>, BlobError>(
                v@.map_values(|x: HeadingData| x@),
            ),
            Err(e) => decode_all(rs@.len(), |i: nat| engine_heading(p@, rs@[i as int])) == Err::<Seq<HeadingView>, BlobError>(e),
        },
{
    let ghost f = |i: nat| engine_heading(p@, rs@[i as int]);
    let mut out: Vec<HeadingData> = Vec::new();
    let mut i: usize = 0;
    assert(out@.map_values(|x: HeadingData| x@) =~= Seq::<HeadingView>::empty());
    while i < rs.len()
        invariant
            i <= rs@.len(),
            f == (|i: nat| engine_heading(p@, rs@[i as int])),
            decode_all(i as nat, f) == Ok::<Seq<HeadingView>, BlobError>(out@.map_values(|x: HeadingData| x@)),
        decreases rs@.len() - i,
    {
        match read_heading(p, &rs[i]) {
            Ok(x) => {
                let ghost old_v = out@;
                out.push(x);
                proof {
                    assert(out@.map_values(|x: HeadingData| x@) =~= old_v.map_values(|x: HeadingData| x@).push(x@));
                }
            },
            Err(e) => {
                proof {
                    lemma_decode_all_err((i + 1) as nat, rs@.len(), f);
                }
                return Err(e);
            },
        }
        i = i + 1;
    }
    Ok(out)
}

/// Read every tag record, in order.
fn read_tags(p: &[u8], rs: &Vec<EngineTag>) -> (r: Result<Vec<TagData>, BlobError>)
    ensures
        match r {
            Ok(v) => decode_all(rs@.len(), |i: nat| engine_tag(p@, rs@[i as int])) == Ok::<Seq<Seq<char>>, BlobError>(
                v@.map_values(|x: TagData| x.name@),
            ),
            Err(e) => decode_all(rs@.len(), |i: nat| engine_tag(p@, rs@[i as int])) == Err::<Seq<Seq<char>>, BlobError>(e),
        },
{
    let ghost f = |i: nat| engine_tag(p@, rs@[i as int]);
    let mut out: Vec<TagData> = Vec::new();
    let mut i: usize = 0;
    assert(out@.map_values(|x: TagData| x.name@) =~= Seq::<Seq<char>>::empty());
    while i < rs.len()
        invariant
            i <= rs@.len(),
            f == (|i: nat| engine_tag(p@, rs@[i as int])),
            decode_all(i as nat, f) == Ok::<Seq<Seq<char>>, BlobError>(out@.map_values(|x: TagData| x.name@)),
        decreases rs@.len() - i,
    {
        match read_tag(p, &rs[i]) {
            Ok(x) => {
                let ghost old_v = out@;
                out.push(x);
                proof {
                    assert(out@.map_values(|x: TagData| x.name@) =~= old_v.map_values(|x: TagData| x.name@).push(x.name@));
                }
            },
            Err(e) => {
                proof {
                    lemma_decode_all_err((i + 1) as nat, rs@.len(), f);
                }
                return Err(e);
            },
        }
        i = i + 1;
    }
    Ok(out)
}

/// Read every block-id record, in order.
fn read_blocks(p: &[u8], rs: &Vec<EngineBlockId>) -> (r: Result<Vec<BlockData>, BlobError>)
    ensures
        match r {
            Ok(v) => decode_all(rs@.len(), |i: nat| engine_block(p@, rs@[i as int])) == Ok::<Seq<BlockView>, BlobError>(
                v@.map_values(|x: BlockData| x@),
            ),
            Err(e) => decode_all(rs@.len(), |i: nat| engine_block(p@, rs@[i as int])) == Err::<Seq<BlockView>, BlobError>(e),
        },
{
    let ghost f = |i: nat| engine_block(p@, rs@[i as int]);
    let mut out: Vec<BlockData> = Vec::new();
    let mut i: usize = 0;
    assert(out@.map_values(|x: BlockData| x@) =~= Seq::<BlockView>::empty());
    while i < rs.len()
        invariant
            i <= rs@.len(),
            f == (|i: nat| engine_block(p@, rs@[i as int])),
            decode_all(i as nat, f) == Ok::<Seq<BlockView>, BlobError>(out@.map_values(|x: BlockData| x@)),
        decreases rs@.len() - i,
    {
        match read_block(p, &rs[i]) {
            Ok(x) => {
                let ghost old_v = out@;
                out.push(x);
                proof {
                    assert(out@.map_values(|x: BlockData| x@) =~= old_v.map_values(|x: BlockData| x@).push(x@));
                }
            },
            Err(e) => {
                proof {
                    lemma_decode_all_err((i + 1) as nat, rs@.len(), f);
                }
                return Err(e);
            },
        }
        i = i + 1;
    }
    Ok(out)
}

/// Read every code-span record, in order.
fn read_code_spans(p: &[u8], rs: &Vec<EngineSpan>) -> (r: Result<Vec<CodeSpanData>, BlobError>)
    ensures
        match r {
            Ok(v) => decode_all(rs@.len(), |i: nat| engine_span(p@, rs@[i as int])) == Ok::<Seq<SpanView>, BlobError>(
                v@.map_values(|x: CodeSpanData| x@),
            ),
            Err(e) => decode_all(rs@.len(), |i: nat| engine_span(p@, rs@[i as int])) == Err::<Seq<SpanView>, BlobError>(e),
        },
{
    let ghost f = |i: nat| engine_span(p@, rs@[i as int]);
    let mut out: Vec<CodeSpanData> = Vec::new();
    let mut i: usize = 0;
    assert(out@.map_values(|x: CodeSpanData| x@) =~= Seq::<SpanView>::empty());
    while i < rs.len()
        invariant
            i <= rs@.len(),
            f == (|i: nat| engine_span(p@, rs@[i as int])),
            decode_all(i as nat, f) == Ok::<Seq<SpanView>, BlobError>(out@.map_values(|x: CodeSpanData| x@)),
        decreases rs@.len() - i,
    {
        match read_code_span(p, &rs[i]) {
            Ok(x) => {
                let ghost old_v = out@;
                out.push(x);
                proof {
                    assert(out@.map_values(|x: CodeSpanData| x@) =~= old_v.map_values(|x: CodeSpanData| x@).push(x@));
                }
            },
            Err(e) => {
                proof {
                    lemma_decode_all_err((i + 1) as nat, rs@.len(), f);
                }
                return Err(e);
            },
        }
        i = i + 1;
    }
    Ok(out)
}

/// Read every task record, in order.
fn read_tasks(p: &[u8], rs: &Vec<EngineTask>) -> (r: Result<Vec<TaskData>, BlobError>)
    ensures
        match r {
            Ok(v) => decode_all(rs@.len(), |i: nat| engine_task(p@, rs@[i as int])) == Ok::<Seq<TaskView>, BlobError>(
                v@.map_values(|x: TaskData| x@),
            ),
            Err(e) => decode_all(rs@.len(), |i: nat| engine_task(p@, rs@[i as int])) == Err::<Seq<TaskView>, BlobError>(e),
        },
{
    let ghost f = |i: nat| engine_task(p@, rs@[i as int]);
    let mut out: Vec<TaskData> = Vec::new();
    let mut i: usize = 0;
    assert(out@.map_values(|x: TaskData| x@) =~= Seq::<TaskView>::empty());
    while i < rs.len()
        invariant
            i <= rs@.len(),
            f == (|i: nat| engine_task(p@, rs@[i as int])),
            decode_all(i as nat, f) == Ok::<Seq<TaskView>, BlobError>(out@.map_values(|x: TaskData| x@)),
        decreases rs@.len() - i,
    {
        match read_task(p, &rs[i]) {
            Ok(x) => {
                let ghost old_v = out@;
                out.push(x);
                proof {
                    assert(out@.map_values(|x: TaskData| x@) =~= old_v.map_values(|x: TaskData| x@).push(x@));
                }
            },
            Err(e) => {
                proof {
                    lemma_decode_all_err((i + 1) as nat, rs@.len(), f);
                }
                return Err(e);
            },
        }
        i = i + 1;
    }
    Ok(out)
}

/// Read every embed record, in order.
fn read_embeds(p: &[u8], rs: &Vec<EngineSpan>) -> (r: Result<Vec<EmbedData>, BlobError>)
    ensures
        match r {
            Ok(v) => decode_all(rs@.len(), |i: nat| engine_span(p@, rs@[i as int])) == Ok::<Seq<SpanView>, BlobError>(
                v@.map_values(|x: EmbedData| x@),
            ),
            Err(e) => decode_all(rs@.len(), |i: nat| engine_span(p@, rs@[i as int])) == Err::<Seq<SpanView>, BlobError>(e),
        },
{
    let ghost f = |i: nat| engine_span(p@, rs@[i as int]);
    let mut out: Vec<EmbedData> = Vec::new();
    let mut i: usize = 0;
    assert(out@.map_values(|x: EmbedData| x@) =~= Seq::<SpanView>::empty());
    while i < rs.len()
        invariant
            i <= rs@.len(),
            f == (|i: nat| engine_span(p@, rs@[i as int])),
            decode_all(i as nat, f) == Ok::<Seq<SpanView>, BlobError>(out@.map_values(|x: EmbedData| x@)),
        decreases rs@.len() - i,
    {
        match read_embed(p, &rs[i]) {
            Ok(x) => {
                let ghost old_v = out@;
                out.push(x);
                proof {
                    assert(out@.map_values(|x: EmbedData| x@) =~= old_v.map_values(|x: EmbedData| x@).push(x@));
                }
            },
            Err(e) => {
                proof {
                    lemma_decode_all_err((i + 1) as nat, rs@.len(), f);
                }
                return Err(e);
            },
        }
        i = i + 1;
    }
    Ok(out)
}

/// Read every link record, in order, split into wiki and markdown links.
fn read_links(p: &[u8], rs: &Vec<EngineLink>) -> (r: Result<(Vec<WikiData>, Vec<MarkdownData>), BlobError>)
    ensures
        match r {
            Ok((w, m)) => exists|links: Seq<LinkView>|
                {
                    &&& decode_all(rs@.len(), |i: nat| engine_link(p@, rs@[i as int])) == Ok::<Seq<LinkView>, BlobError>(links)
                    &&& w@.map_values(|x: WikiData| x@) == wiki_links_of(links)
                    &&& m@.map_values(|x: MarkdownData| x@) == markdown_links_of(links)
                },
            Err(e) => decode_all(rs@.len(), |i: nat| engine_link(p@, rs@[i as int])) == Err::<Seq<LinkView>, BlobError>(e),
        },
{
    let ghost f = |i: nat| engine_link(p@, rs@[i as int]);
    let mut wiki_links: Vec<WikiData> = Vec::new();
    let mut markdown_links: Vec<MarkdownData> = Vec::new();
    let ghost mut links: Seq<LinkView> = Seq::empty();
    let mut i: usize = 0;
    assert(wiki_links@.map_values(|x: WikiData| x@) =~= wiki_links_of(links));
    assert(markdown_links@.map_values(|x: MarkdownData| x@) =~= markdown_links_of(links));
    while i < rs.len()
        invariant
            i <= rs@.len(),
            f == (|i: nat| engine_link(p@, rs@[i as int])),
            decode_all(i as nat, f) == Ok::<Seq<LinkView>, BlobError>(links),
            wiki_links@.map_values(|x: WikiData| x@) == wiki_links_of(links),
            markdown_links@.map_values(|x: MarkdownData| x@) == markdown_links_of(links),
        decreases rs@.len() - i,
    {
        match read_link(p, &rs[i]) {
            Ok((Some(w), None)) => {
                let ghost old_w = wiki_links@;
                let ghost old_links = links;
                proof {
                    links = links.push(LinkView::Wiki(w@));
                    assert(links.drop_last() =~= old_links);
                }
                wiki_links.push(w);
                proof {
                    assert(wiki_links@.map_values(|x: WikiData| x@) =~= old_w.map_values(|x: WikiData| x@).push(w@));
                }
            },
            Ok((None, Some(m))) => {
                let ghost old_m = markdown_links@;
                let ghost old_links = links;
                proof {
                    links = links.push(LinkView::Markdown(m@));
                    assert(links.drop_last() =~= old_links);
                }
                markdown_links.push(m);
                proof {
                    assert(markdown_links@.map_values(|x: MarkdownData| x@) =~= old_m.map_values(|x: MarkdownData| x@).push(m@));
                }
            },
            Ok(_) => {
                proof {
                    assert(false);
                }
                return Err(BlobError::SizeMismatch);
            },
            Err(e) => {
                proof {
                    lemma_decode_all_err((i + 1) as nat, rs@.len(), f);
                }
                return Err(e);
            },
        }
        i = i + 1;
    }
    Ok((wiki_links, markdown_links))
}

/// Read an optional title.
fn read_title(p: &[u8], off: u32, len: u32) -> (r: Result<Option<String>, BlobError>)
    ensures
        match r {
            Ok(t) => engine_title(p@, off, len) == Ok::<Option<Seq<char>>, BlobError>(opt_view(t)),
            Err(e) => engine_title(p@, off, len) == Err::<Option<Seq<char>>, BlobError>(e),
        },
{
    if len == 0 {
        Ok(None)
    } else {
        let t = pool_str(p, off, len)?.to_owned();
        Ok(Some(t))
    }
}

/// Read one callout record.
fn read_callout(p: &[u8], c: &EngineCallout) -> (r: Result<CalloutEntry, BlobError>)
    ensures
        match r {
            Ok(x) => engine_callout(p@, *c) == Ok::<CalloutView, BlobError>(callout_view(x)),
            Err(e) => engine_callout(p@, *c) == Err::<CalloutView, BlobError>(e),
        },
{
    let title = read_title(p, c.title_offset, c.title_length)?;
    let callout_type = pool_str(p, c.type_offset, c.type_length)?.to_owned();
    Ok(
        CalloutEntry {
            callout_type,
            title,
            range: Range::new(Position::new(c.start_line, c.start_col), Position::new(c.end_line, c.end_col)),
            start_byte: c.source_offset as u64,
            end_byte: c.end_offset as u64,
        },
    )
}

/// Read one block-reference record.
fn read_block_ref(p: &[u8], b: &EngineBlockRef) -> (r: Result<BlockRefEntry, BlobError>)
    ensures
        match r {
            Ok(x) => engine_block_ref(p@, *b) == Ok::<BlockRefView, BlobError>(block_ref_view(x)),
            Err(e) => engine_block_ref(p@, *b) == Err::<BlockRefView, BlobError>(e),
        },
{
    let uuid = pool_str(p, b.uuid_offset, b.uuid_length)?.to_owned();
    Ok(
        BlockRefEntry {
            uuid,
            range: Range::new(Position::new(b.start_line, b.start_col), Position::new(b.end_line, b.end_col)),
        },
    )
}

/// Read one query-block record.
fn read_query_block(p: &[u8], q: &EngineQueryBlock) -> (r: Result<QueryBlockEntry, BlobError>)
    ensures
        match r {
            Ok(x) => engine_query_block(p@, *q) == Ok::<QueryBlockView, BlobError>(query_block_view(x)),
            Err(e) => engine_query_block(p@, *q) == Err::<QueryBlockView, BlobError>(e),
        },
{
    let query = pool_str(p, q.query_offset, q.query_length)?.to_owned();
    Ok(
        QueryBlockEntry {
            query,
            range: Range::new(Position::new(q.start_line, q.start_col), Position::new(q.end_line, q.end_col)),
            start_byte: q.source_offset as u64,
            end_byte: q.end_offset as u64,
        },
    )
}

/// Read one link-definition record.
fn read_link_definition(p: &[u8], l: &EngineLinkDefinition) -> (r: Result<LinkDefinitionEntry, BlobError>)
    ensures
        match r {
            Ok(x) => engine_link_definition(p@, *l) == Ok::<LinkDefinitionView, BlobError>(link_definition_view(x)),
            Err(e) => engine_link_definition(p@, *l) == Err::<LinkDefinitionView, BlobError>(e),
        },
{
    let title = read_title(p, l.title_offset, l.title_length)?;
    let label = pool_str(p, l.label_offset, l.label_length)?.to_owned();
    let url = pool_str(p, l.url_offset, l.url_length)?.to_owned();
    Ok(
        LinkDefinitionEntry {
            label,
            url,
            title,
            range: Range::new(Position::new(l.start_line, l.start_col), Position::new(l.end_line, l.end_col)),
            start_byte: l.source_offset as u64,
            end_byte: l.end_offset as u64,
        },
    )
}

/// Read every callout record, in order.
fn read_callouts(p: &[u8], rs: &Vec<EngineCallout>) -> (r: Result<Vec<CalloutEntry>, BlobError>)
    ensures
        match r {
            Ok(v) => decode_all(rs@.len(), |i: nat| engine_callout(p@, rs@[i as int])) == Ok::<Seq<CalloutView>, BlobError>(
                v@.map_values(|x: CalloutEntry| callout_view(x)),
            ),
            Err(e) => decode_all(rs@.len(), |i: nat| engine_callout(p@, rs@[i as int])) == Err::<Seq<CalloutView>, BlobError>(e),
        },
{
    let ghost f = |i: nat| engine_callout(p@, rs@[i as int]);
    let mut out: Vec<CalloutEntry> = Vec::new();
    let mut i: usize = 0;
    assert(out@.map_values(|x: CalloutEntry| callout_view(x)) =~= Seq::<CalloutView>::empty());
    while i < rs.len()
        invariant
            i <= rs@.len(),
            f == (|i: nat| engine_callout(p@, rs@[i as int])),
            decode_all(i as nat, f) == Ok::<Seq<CalloutView>, BlobError>(out@.map_values(|x: CalloutEntry| callout_view(x))),
        decreases rs@.len() - i,
    {
        match read_callout(p, &rs[i]) {
            Ok(x) => {
                let ghost old_v = out@;
                let ghost xv = callout_view(x);
                out.push(x);
                proof {
                    assert(out@.map_values(|x: CalloutEntry| callout_view(x)) =~= old_v.map_values(|x: CalloutEntry| callout_view(x)).push(xv));
                }
            },
            Err(e) => {
                proof {
                    lemma_decode_all_err((i + 1) as nat, rs@.len(), f);
                }
                return Err(e);
            },
        }
        i = i + 1;
    }
    Ok(out)
}

/// Read every block-reference record, in order.
fn read_block_refs(p: &[u8], rs: &Vec<EngineBlockRef>) -> (r: Result<Vec<BlockRefEntry>, BlobError>)
    ensures
        match r {
            Ok(v) => decode_all(rs@.len(), |i: nat| engine_block_ref(p@, rs@[i as int])) == Ok::<Seq<BlockRefView>, BlobError>(
                v@.map_values(|x: BlockRefEntry| block_ref_view(x)),
            ),
            Err(e) => decode_all(rs@.len(), |i: nat| engine_block_ref(p@, rs@[i as int])) == Err::<Seq<BlockRefView>, BlobError>(e),
        },
{
    let ghost f = |i: nat| engine_block_ref(p@, rs@[i as int]);
    let mut out: Vec<BlockRefEntry> = Vec::new();
    let mut i: usize = 0;
    assert(out@.map_values(|x: BlockRefEntry| block_ref_view(x)) =~= Seq::<BlockRefView>::empty());
    while i < rs.len()
        invariant
            i <= rs@.len(),
            f == (|i: nat| engine_block_ref(p@, rs@[i as int])),
            decode_all(i as nat, f) == Ok::<Seq<BlockRefView>, BlobError>(out@.map_values(|x: BlockRefEntry| block_ref_view(x))),
        decreases rs@.len() - i,
    {
        match read_block_ref(p, &rs[i]) {
            Ok(x) => {
                let ghost old_v = out@;
                let ghost xv = block_ref_view(x);
                out.push(x);
                proof {
                    assert(out@.map_values(|x: BlockRefEntry| block_ref_view(x)) =~= old_v.map_values(|x: BlockRefEntry| block_ref_view(x)).push(xv));
                }
            },
            Err(e) => {
                proof {
                    lemma_decode_all_err((i + 1) as nat, rs@.len(), f);
                }
                return Err(e);
            },
        }
        i = i + 1;
    }
    Ok(out)
}

/// Read every query-block record, in order.
fn read_query_blocks(p: &[u8], rs: &Vec<EngineQueryBlock>) -> (r: Result<Vec<QueryBlockEntry>, BlobError>)
    ensures
        match r {
            Ok(v) => decode_all(rs@.len(), |i: nat| engine_query_block(p@, rs@[i as int])) == Ok::<Seq<QueryBlockView>, BlobError>(
                v@.map_values(|x: QueryBlockEntry| query_block_view(x)),
            ),
            Err(e) => decode_all(rs@.len(), |i: nat| engine_query_block(p@, rs@[i as int])) == Err::<Seq<QueryBlockView>, BlobError>(e),
        },
{
    let ghost f = |i: nat| engine_query_block(p@, rs@[i as int]);
    let mut out: Vec<QueryBlockEntry> = Vec::new();
    let mut i: usize = 0;
    assert(out@.map_values(|x: QueryBlockEntry| query_block_view(x)) =~= Seq::<QueryBlockView>::empty());
    while i < rs.len()
        invariant
            i <= rs@.len(),
            f == (|i: nat| engine_query_block(p@, rs@[i as int])),
            decode_all(i as nat, f) == Ok::<Seq<QueryBlockView>, BlobError>(out@.map_values(|x: QueryBlockEntry| query_block_view(x))),
        decreases rs@.len() - i,
    {
        match read_query_block(p, &rs[i]) {
            Ok(x) => {
                let ghost old_v = out@;
                let ghost xv = query_block_view(x);
                out.push(x);
                proof {
                    assert(out@.map_values(|x: QueryBlockEntry| query_block_view(x)) =~= old_v.map_values(|x: QueryBlockEntry| query_block_view(x)).push(xv));
                }
            },
            Err(e) => {
                proof {
                    lemma_decode_all_err((i + 1) as nat, rs@.len(), f);
                }
                return Err(e);
            },
        }
        i = i + 1;
    }
    Ok(out)
}

/// Read every link-definition record, in order.
fn read_link_definitions(p: &[u8], rs: &Vec<EngineLinkDefinition>) -> (r: Result<Vec<LinkDefinitionEntry>, BlobError>)
    ensures
        match r {
            Ok(v) => decode_all(rs@.len(), |i: nat| engine_link_definition(p@, rs@[i as int])) == Ok::<Seq<LinkDefinitionView>, BlobError>(
                v@.map_values(|x: LinkDefinitionEntry| link_definition_view(x)),
            ),
            Err(e) => decode_all(rs@.len(), |i: nat| engine_link_definition(p@, rs@[i as int])) == Err::<Seq<LinkDefinitionView>, BlobError>(e),
        },
{
    let ghost f = |i: nat| engine_link_definition(p@, rs@[i as int]);
    let mut out: Vec<LinkDefinitionEntry> = Vec::new();
    let mut i: usize = 0;
    assert(out@.map_values(|x: LinkDefinitionEntry| link_definition_view(x)) =~= Seq::<LinkDefinitionView>::empty());
    while i < rs.len()
        invariant
            i <= rs@.len(),
            f == (|i: nat| engine_link_definition(p@, rs@[i as int])),
            decode_all(i as nat, f) == Ok::<Seq<LinkDefinitionView>, BlobError>(out@.map_values(|x: LinkDefinitionEntry| link_definition_view(x))),
        decreases rs@.len() - i,
    {
        match read_link_definition(p, &rs[i]) {
            Ok(x) => {
                let ghost old_v = out@;
                let ghost xv = link_definition_view(x);
                out.push(x);
                proof {
                    assert(out@.map_values(|x: LinkDefinitionEntry| link_definition_view(x)) =~= old_v.map_values(|x: LinkDefinitionEntry| link_definition_view(x)).push(xv));
                }
            },
            Err(e) => {
                proof {
                    lemma_decode_all_err((i + 1) as nat, rs@.len(), f);
                }
                return Err(e);
            },
        }
        i = i + 1;
    }
    Ok(out)
}

/// Read one property record.
fn read_property(p: &[u8], r: &EngineProperty) -> (x: Result<PropertyEntry, BlobError>)
    ensures
        match x {
            Ok(e) => engine_property(p@, *r) == Ok::<PropertyView, BlobError>(property_view(e)),
            Err(e) => engine_property(p@, *r) == Err::<PropertyView, BlobError>(e),
        },
{
    let key = pool_str(p, r.key_offset, r.key_length)?.to_owned();
    let value = pool_str(p, r.value_offset, r.value_length)?;
    Ok(PropertyEntry { key, value: property_value(value, r.value_type) })
}

/// Read every property record, in order.
fn read_properties(p: &[u8], rs: &Vec<EngineProperty>) -> (r: Result<Vec<PropertyEntry>, BlobError>)
    ensures
        match r {
            Ok(v) => decode_all(rs@.len(), |i: nat| engine_property(p@, rs@[i as int])) == Ok::<Seq<PropertyView>, BlobError>(
                v@.map_values(|x: PropertyEntry| property_view(x)),
            ),
            Err(e) => decode_all(rs@.len(), |i: nat| engine_property(p@, rs@[i as int])) == Err::<Seq<PropertyView>, BlobError>(e),
        },
{
    let ghost f = |i: nat| engine_property(p@, rs@[i as int]);
    let mut out: Vec<PropertyEntry> = Vec::new();
    let mut i: usize = 0;
    assert(out@.map_values(|x: PropertyEntry| property_view(x)) =~= Seq::<PropertyView>::empty());
    while i < rs.len()
        invariant
            i <= rs@.len(),
            f == (|i: nat| engine_property(p@, rs@[i as int])),
            decode_all(i as nat, f) == Ok::<Seq<PropertyView>, BlobError>(out@.map_values(|x: PropertyEntry| property_view(x))),
        decreases rs@.len() - i,
    {
        match read_property(p, &rs[i]) {
            Ok(x) => {
                let ghost old_v = out@;
                let ghost xv = property_view(x);
                out.push(x);
                proof {
                    assert(out@.map_values(|x: PropertyEntry| property_view(x)) =~= old_v.map_values(|x: PropertyEntry| property_view(x)).push(xv));
                }
            },
            Err(e) => {
                proof {
                    lemma_decode_all_err((i + 1) as nat, rs@.len(), f);
                }
                return Err(e);
            },
        }
        i = i + 1;
    }
    Ok(out)
}

/// Read every record of every kind, in the engine's order.
fn read_records(rec: &EngineRecords) -> (r: Result<DecodedOwnedData, BlobError>)
    ensures
        match r {
            Ok(v) => spec_engine(*rec) == Ok::<DecodedView, BlobError>(v@),
            Err(e) => spec_engine(*rec) == Err::<DecodedView, BlobError>(e),
        },
{
    let p = rec.text_blob.as_slice();
    let headings = read_headings(p, &rec.headings)?;
    let (wiki_links, markdown_links) = read_links(p, &rec.links)?;
    let tags = read_tags(p, &rec.tags)?;
    let blocks = read_blocks(p, &rec.block_ids)?;
    let code_spans = read_code_spans(p, &rec.code_spans)?;
    let tasks = read_tasks(p, &rec.tasks)?;
    let embeds = read_embeds(p, &rec.embeds)?;
    Ok(DecodedOwnedData { headings, wiki_links, markdown_links, tags, blocks, code_spans, tasks, embeds })
}

impl DocumentIndex {
    /// Build a document index from engine records, with frontmatter entries
    /// and aliases parsed elsewhere. Every string a record names must lie in
    /// the text blob (`TextPoolOutOfBounds`) and be UTF-8 (`InvalidUtf8`); the
    /// first record that fails decides the error. Callouts, block references,
    /// query blocks, link definitions and properties are read after the other
    /// records; a property's value is read by its value type
    /// (see `property_value`).
    pub fn from_engine_records(
        rec: &EngineRecords,
        frontmatter: Vec<FrontmatterOwnedEntry>,
        aliases: Vec<String>,
    ) -> (r: Result<DocumentIndex, BlobError>)
        ensures
            built_from_engine(r, *rec, frontmatter@, aliases@),
    {
        let dec = match read_records(rec) {
            Err(e) => {
                return Err(e);
            },
            Ok(d) => d,
        };
        let p = rec.text_blob.as_slice();
        let callouts = read_callouts(p, &rec.callouts)?;
        let block_refs = read_block_refs(p, &rec.block_refs)?;
        let query_blocks = read_query_blocks(p, &rec.query_blocks)?;
        let link_definitions = read_link_definitions(p, &rec.link_definitions)?;
        let properties = read_properties(p, &rec.properties)?;
        let ghost fm = frontmatter@;
        let ghost al = aliases@;
        let xml: Vec<XmlTagOwned> = Vec::new();
        assert(xml@ == Seq::<XmlTagOwned>::empty());
        let idx = DocumentIndex::build_index(&dec, xml, frontmatter, aliases);
        let r = idx.with_extras(properties, block_refs, callouts, query_blocks, link_definitions);
        assert(index_from(r@, dec, Seq::<XmlTagOwned>::empty(), fm, al));
        Ok(r)
    }
}

} // verus!
