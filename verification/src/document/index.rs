//! The document index and its construction from a scan blob.

use vstd::prelude::*;

use crate::blob::decode::{decode_owned_data, law_decode_fails_on_pool, pool_error, spec_decode};
use crate::blob::header::{
    compute_offsets, spec_offsets, spec_validate_blob, validate_blob, BlobError, BlobHeader,
};
use crate::blob::records::{
    BlockData, CodeSpanData, DecodedOwnedData, DecodedView, EmbedData, HeadingData, MarkdownData,
    TagData, TaskData, WikiData,
};
use crate::text::str_eq;

use super::outline::{build_outline, build_toc, outline_of, spec_toc};
use super::types::{
    clone_opt_string, BlockEntry, BlockRefEntry, CalloutEntry, CodeSpanEntry, EmbedEntry,
    FrontmatterOwnedEntry, HeadingEntry, LinkDefinitionEntry, MarkdownLinkEntry, OutlineNode,
    Position, PropertyEntry, QueryBlockEntry, Range, TagEntry, TaskEntry, TocEntry, WikiLinkEntry,
    XmlTagEntry, XmlTagOwned,
};

verus! {

/// The range from one line/column pair to another.
pub open spec fn range_of(start_line: u32, start_col: u32, end_line: u32, end_col: u32) -> Range {
    Range {
        start: Position { line: start_line, character: start_col },
        end: Position { line: end_line, character: end_col },
    }
}

/// The index entry of a decoded heading.
pub open spec fn heading_entry(h: HeadingData) -> HeadingEntry {
    HeadingEntry {
        text: h.text,
        slug: h.slug,
        level: h.level,
        range: range_of(h.start_line, h.start_col, h.end_line, h.end_col),
    }
}

/// The index entry of a decoded block id: from its `^` to the end of the id.
pub open spec fn block_entry(b: BlockData) -> BlockEntry {
    BlockEntry {
        id: b.id,
        range: range_of(b.start_line, b.start_col, b.end_line, b.end_col),
        start_byte: b.source_offset as u64,
        end_byte: (b.source_offset + 1 + b.id_len) as u64,
    }
}

/// The index entry of a decoded wiki link. It spans `[[target]]`, or
/// `[[target|alias]]` when there is an alias.
pub open spec fn wiki_entry(w: WikiData) -> WikiLinkEntry {
    WikiLinkEntry {
        target: w.target,
        alias: w.alias,
        heading: w.heading,
        range: range_of(w.start_line, w.start_col, w.end_line, w.end_col),
        start_byte: w.source_offset as u64,
        end_byte: (if w.alias is Some {
            w.source_offset + w.target_len + w.text_len + 5
        } else {
            w.source_offset + w.target_len + 4
        }) as u64,
    }
}

/// The index entry of a decoded markdown link, spanning `[text](target)`.
pub open spec fn markdown_entry(m: MarkdownData) -> MarkdownLinkEntry {
    MarkdownLinkEntry {
        text: m.text,
        url: m.url,
        anchor: m.anchor,
        range: range_of(m.start_line, m.start_col, m.end_line, m.end_col),
        start_byte: m.source_offset as u64,
        end_byte: (m.source_offset + m.text_len + m.target_len + 4) as u64,
    }
}

/// The index entry of a decoded code span (no language hint or symbol kind).
pub open spec fn code_span_entry(c: CodeSpanData) -> CodeSpanEntry {
    CodeSpanEntry {
        text: c.text,
        range: range_of(c.start_line, c.start_col, c.end_line, c.end_col),
        start_byte: c.source_offset as u64,
        end_byte: c.end_offset as u64,
        language_hint: None,
        kind: None,
    }
}

/// The index entry of a decoded task.
pub open spec fn task_entry(t: TaskData) -> TaskEntry {
    TaskEntry {
        state: t.state,
        text: t.text,
        range: range_of(t.start_line, t.start_col, t.end_line, t.end_col),
        start_byte: t.source_offset as u64,
        end_byte: t.end_offset as u64,
    }
}

/// The index entry of a decoded embed.
pub open spec fn embed_entry(e: EmbedData) -> EmbedEntry {
    EmbedEntry {
        target: e.target,
        range: range_of(e.start_line, e.start_col, e.end_line, e.end_col),
        start_byte: e.source_offset as u64,
        end_byte: e.end_offset as u64,
    }
}

/// Index of the last block with id `id`, or -1.
pub open spec fn find_block(v: Seq<BlockEntry>, id: Seq<char>) -> int
    decreases v.len(),
{
    if v.len() == 0 {
        -1
    } else if v.last().id@ == id {
        v.len() - 1
    } else {
        find_block(v.drop_last(), id)
    }
}

/// `find_block` is -1 or a valid index.
pub proof fn lemma_find_block_range(v: Seq<BlockEntry>, id: Seq<char>)
    ensures
        -1 <= find_block(v, id) < v.len(),
        find_block(v, id) >= 0 ==> v[find_block(v, id)].id@ == id,
    decreases v.len(),
{
    if v.len() > 0 && v.last().id@ != id {
        lemma_find_block_range(v.drop_last(), id);
    }
}

/// Insert a block keyed by its id: replace the block with the same id, or append.
pub open spec fn insert_block(v: Seq<BlockEntry>, b: BlockEntry) -> Seq<BlockEntry> {
    let i = find_block(v, b.id@);
    if i >= 0 {
        v.update(i, b)
    } else {
        v.push(b)
    }
}

/// The blocks of a sequence of decoded block ids, inserted in order (a later
/// block with the same id replaces the earlier one).
pub open spec fn blocks_of(s: Seq<BlockData>) -> Seq<BlockEntry>
    decreases s.len(),
{
    if s.len() == 0 {
        Seq::empty()
    } else {
        insert_block(blocks_of(s.drop_last()), block_entry(s.last()))
    }
}

/// Index of the last attribute with key `k`, or -1.
pub open spec fn find_key(v: Seq<(String, String)>, k: Seq<char>) -> int
    decreases v.len(),
{
    if v.len() == 0 {
        -1
    } else if v.last().0@ == k {
        v.len() - 1
    } else {
        find_key(v.drop_last(), k)
    }
}

/// `find_key` is -1 or a valid index.
pub proof fn lemma_find_key_range(v: Seq<(String, String)>, k: Seq<char>)
    ensures
        -1 <= find_key(v, k) < v.len(),
        find_key(v, k) >= 0 ==> v[find_key(v, k)].0@ == k,
    decreases v.len(),
{
    if v.len() > 0 && v.last().0@ != k {
        lemma_find_key_range(v.drop_last(), k);
    }
}

/// Attributes inserted in order, one value per key (the last value wins).
pub open spec fn attributes_of(s: Seq<(String, String)>) -> Seq<(String, String)>
    decreases s.len(),
{
    if s.len() == 0 {
        Seq::empty()
    } else {
        let v = attributes_of(s.drop_last());
        let i = find_key(v, s.last().0@);
        if i >= 0 {
            v.update(i, s.last())
        } else {
            v.push(s.last())
        }
    }
}

/// An XML tag entry made from a supplied tag.
pub open spec fn xml_entry_of(e: XmlTagEntry, x: XmlTagOwned) -> bool {
    &&& e.tag_name == x.tag_name
    &&& e.attributes@ == attributes_of(x.attributes@)
    &&& e.is_self_closing == x.is_self_closing
    &&& e.is_unclosed == x.is_unclosed
    &&& e.is_inline == x.is_inline
    &&& e.range == x.range
    &&& e.start_byte == x.start_byte
    &&& e.end_byte == x.end_byte
}

/// Index of the last heading with slug `slug`, or -1.
pub open spec fn find_slug(v: Seq<HeadingEntry>, slug: Seq<char>) -> int
    decreases v.len(),
{
    if v.len() == 0 {
        -1
    } else if v.last().slug@ == slug {
        v.len() - 1
    } else {
        find_slug(v.drop_last(), slug)
    }
}

/// Whether no two blocks share an id.
pub open spec fn unique_ids(v: Seq<BlockEntry>) -> bool {
    forall|i: int, j: int| 0 <= i < j < v.len() ==> (#[trigger] v[i]).id@ != (#[trigger] v[j]).id@
}

/// The entry of the last decoded block with id `id`, if any.
pub open spec fn block_for(s: Seq<BlockData>, id: Seq<char>) -> Option<BlockEntry>
    decreases s.len(),
{
    if s.len() == 0 {
        None
    } else if s.last().id@ == id {
        Some(block_entry(s.last()))
    } else {
        block_for(s.drop_last(), id)
    }
}

/// In a sequence with unique ids, `find_block` finds the one block with the id.
proof fn lemma_find_block_unique(v: Seq<BlockEntry>, id: Seq<char>, k: int)
    requires
        unique_ids(v),
        0 <= k < v.len(),
        v[k].id@ == id,
    ensures
        find_block(v, id) == k,
    decreases v.len(),
{
    if v.last().id@ != id {
        assert(k < v.len() - 1) by {
            if k == v.len() - 1 {
                assert(v[k] == v.last());
            }
        }
        assert(unique_ids(v.drop_last()));
        lemma_find_block_unique(v.drop_last(), id, k);
    } else if k != v.len() - 1 {
        assert(v[k].id@ == v[v.len() - 1].id@);
    }
}

/// `find_block` gives -1 exactly when no block has the id.
proof fn lemma_find_block_absent(v: Seq<BlockEntry>, id: Seq<char>)
    ensures
        find_block(v, id) == -1 <==> forall|j: int| 0 <= j < v.len() ==> (#[trigger] v[j]).id@ != id,
    decreases v.len(),
{
    lemma_find_block_range(v, id);
    if v.len() > 0 && v.last().id@ != id {
        lemma_find_block_absent(v.drop_last(), id);
        assert forall|j: int| 0 <= j < v.len() - 1 implies v.drop_last()[j] == v[j] by {}
        if find_block(v, id) == -1 {
            assert forall|j: int| 0 <= j < v.len() implies (#[trigger] v[j]).id@ != id by {
                if j < v.len() - 1 {
                    assert(v.drop_last()[j] == v[j]);
                }
            }
        }
    }
}

/// Inserting a block keeps ids unique; afterwards the block's id finds the
/// block, and every other id finds what it found before.
proof fn lemma_insert_block(v: Seq<BlockEntry>, b: BlockEntry, id: Seq<char>)
    requires
        unique_ids(v),
    ensures
        unique_ids(insert_block(v, b)),
        id == b.id@ ==> {
            let w = insert_block(v, b);
            find_block(w, id) >= 0 && w[find_block(w, id)] == b
        },
        id != b.id@ ==> {
            let w = insert_block(v, b);
            &&& (find_block(v, id) == -1 <==> find_block(w, id) == -1)
            &&& find_block(v, id) >= 0 ==> w[find_block(w, id)] == v[find_block(v, id)]
        },
{
    let i = find_block(v, b.id@);
    let w = insert_block(v, b);
    lemma_find_block_range(v, b.id@);
    lemma_find_block_range(v, id);
    lemma_find_block_absent(v, b.id@);
    lemma_find_block_absent(v, id);
    if i >= 0 {
        assert(w == v.update(i, b));
    } else {
        assert(w == v.push(b));
    }
    assert(unique_ids(w)) by {
        assert forall|p: int, q: int| 0 <= p < q < w.len() implies (#[trigger] w[p]).id@ != (
        #[trigger] w[q]).id@ by {
            if i >= 0 {
                if p == i {
                    assert(v[q].id@ != v[i].id@);
                } else if q == i {
                    assert(v[p].id@ != v[i].id@);
                }
            } else if q == v.len() {
                assert(v[p].id@ != b.id@);
            }
        }
    }
    lemma_find_block_absent(w, id);
    if id == b.id@ {
        let k = if i >= 0 { i } else { v.len() as int };
        assert(w[k] == b);
        lemma_find_block_unique(w, id, k);
    } else {
        if find_block(v, id) >= 0 {
            let f = find_block(v, id);
            assert(w[f] == v[f]);
            lemma_find_block_unique(w, id, f);
        } else {
            assert forall|j: int| 0 <= j < w.len() implies (#[trigger] w[j]).id@ != id by {
                if i < 0 && j == v.len() {
                } else {
                    assert(w[j] == v[j] || (j == i && w[j] == b));
                }
            }
        }
    }
}

/// Blocks are keyed by id: the index never holds two blocks with the same id,
/// and looking an id up gives the last decoded block with that id (a later
/// block replaces an earlier one), or nothing when no block has it.
pub proof fn law_block_ids_last_wins(s: Seq<BlockData>, id: Seq<char>)
    ensures
        unique_ids(blocks_of(s)),
        find_block(blocks_of(s), id) == -1 <==> block_for(s, id) is None,
        find_block(blocks_of(s), id) >= 0 ==> block_for(s, id) == Some(
            blocks_of(s)[find_block(blocks_of(s), id)],
        ),
    decreases s.len(),
{
    if s.len() > 0 {
        let v = blocks_of(s.drop_last());
        let b = block_entry(s.last());
        law_block_ids_last_wins(s.drop_last(), id);
        lemma_insert_block(v, b, id);
        lemma_find_block_range(v, id);
        assert(blocks_of(s) == insert_block(v, b));
        if id == b.id@ {
            assert(block_for(s, id) == Some(b));
        } else {
            assert(block_for(s, id) == block_for(s.drop_last(), id));
        }
    }
}

/// Index of the last heading with slug `slug` is -1 or that of a heading with
/// the slug, and no later heading has it.
pub proof fn law_heading_by_slug_is_last(hs: Seq<HeadingEntry>, slug: Seq<char>)
    ensures
        -1 <= find_slug(hs, slug) < hs.len(),
        find_slug(hs, slug) >= 0 ==> hs[find_slug(hs, slug)].slug@ == slug,
        forall|j: int|
            find_slug(hs, slug) < j < hs.len() ==> (#[trigger] hs[j]).slug@ != slug,
    decreases hs.len(),
{
    if hs.len() > 0 && hs.last().slug@ != slug {
        law_heading_by_slug_is_last(hs.drop_last(), slug);
        assert forall|j: int| find_slug(hs, slug) < j < hs.len() implies (#[trigger] hs[j]).slug@
            != slug by {
            if j < hs.len() - 1 {
                assert(hs.drop_last()[j] == hs[j]);
            }
        }
    }
}

/// Mathematical model of a document index.
pub ghost struct DocumentView {
    pub headings: Seq<HeadingEntry>,
    pub blocks: Seq<BlockEntry>,
    pub wiki_links: Seq<WikiLinkEntry>,
    pub tags: Seq<TagEntry>,
    pub markdown_links: Seq<MarkdownLinkEntry>,
    pub xml_tags: Seq<XmlTagEntry>,
    pub code_spans: Seq<CodeSpanEntry>,
    pub tasks: Seq<TaskEntry>,
    pub embeds: Seq<EmbedEntry>,
    pub frontmatter: Seq<FrontmatterOwnedEntry>,
    pub aliases: Seq<String>,
    pub properties: Seq<PropertyEntry>,
    pub block_refs: Seq<BlockRefEntry>,
    pub callouts: Seq<CalloutEntry>,
    pub query_blocks: Seq<QueryBlockEntry>,
    pub link_definitions: Seq<LinkDefinitionEntry>,
}

/// Index of a single markdown document: headings (by slug), block ids, table of
/// contents, outline tree, links, tags, code spans, tasks, embeds, XML tags,
/// frontmatter, and the Logseq properties, block references, callouts, query
/// blocks and link definitions.
pub struct DocumentIndex {
    headings: Vec<HeadingEntry>,
    blocks: Vec<BlockEntry>,
    toc: Vec<TocEntry>,
    outline: OutlineNode,
    wiki_links: Vec<WikiLinkEntry>,
    tags: Vec<TagEntry>,
    markdown_links: Vec<MarkdownLinkEntry>,
    xml_tags: Vec<XmlTagEntry>,
    code_spans: Vec<CodeSpanEntry>,
    tasks: Vec<TaskEntry>,
    embeds: Vec<EmbedEntry>,
    frontmatter: Vec<FrontmatterOwnedEntry>,
    aliases: Vec<String>,
    properties: Vec<PropertyEntry>,
    block_refs: Vec<BlockRefEntry>,
    callouts: Vec<CalloutEntry>,
    query_blocks: Vec<QueryBlockEntry>,
    link_definitions: Vec<LinkDefinitionEntry>,
}

impl View for DocumentIndex {
    type V = DocumentView;

    closed spec fn view(&self) -> DocumentView {
        DocumentView {
            headings: self.headings@,
            blocks: self.blocks@,
            wiki_links: self.wiki_links@,
            tags: self.tags@,
            markdown_links: self.markdown_links@,
            xml_tags: self.xml_tags@,
            code_spans: self.code_spans@,
            tasks: self.tasks@,
            embeds: self.embeds@,
            frontmatter: self.frontmatter@,
            aliases: self.aliases@,
            properties: self.properties@,
            block_refs: self.block_refs@,
            callouts: self.callouts@,
            query_blocks: self.query_blocks@,
            link_definitions: self.link_definitions@,
        }
    }
}

impl DocumentIndex {
    /// The table of contents and the outline always match the headings.
    #[verifier::type_invariant]
    spec fn wf(self) -> bool {
        &&& self.toc@ == spec_toc(self.headings@)
        &&& outline_of(self.outline, self.headings@)
    }
}


/// What a blob decodes to: its header validated, then its record sections
/// decoded against its own text pool.
pub open spec fn spec_blob_sections(d: Seq<u8>) -> Result<DecodedView, BlobError> {
    match spec_validate_blob(d) {
        Err(e) => Err(e),
        Ok(h) => {
            let o = spec_offsets(h);
            spec_decode(d, h, o, d.subrange(o.text_pool as int, o.text_pool + h.text_pool_size))
        },
    }
}

/// A blob is refused for its header (`TooSmall`, `InvalidMagic`,
/// `UnsupportedVersion`, `SizeMismatch`), or, once the header is valid, for a
/// string of its text pool that is out of bounds (`TextPoolOutOfBounds`) or
/// not UTF-8 (`InvalidUtf8`); for nothing else.
pub proof fn law_blob_refusals(d: Seq<u8>)
    ensures
        spec_blob_sections(d) is Err ==> ({
            let e = spec_blob_sections(d)->Err_0;
            spec_validate_blob(d) == Err::<BlobHeader, BlobError>(e) || (spec_validate_blob(d) is Ok
                && pool_error(e))
        }),
{
    if let Ok(h) = spec_validate_blob(d) {
        let o = spec_offsets(h);
        law_decode_fails_on_pool(d, h, o, d.subrange(o.text_pool as int, o.text_pool + h.text_pool_size));
    }
}

/// Whether the index holds no properties, block references, callouts, query
/// blocks or link definitions (a blob carries none of them).
pub open spec fn extras_empty(v: DocumentView) -> bool {
    &&& v.properties.len() == 0
    &&& v.block_refs.len() == 0
    &&& v.callouts.len() == 0
    &&& v.query_blocks.len() == 0
    &&& v.link_definitions.len() == 0
}

/// The index built from decoded sections, supplied XML tags, frontmatter and aliases.
pub open spec fn index_from(
    v: DocumentView,
    dec: DecodedOwnedData,
    xml: Seq<XmlTagOwned>,
    fm: Seq<FrontmatterOwnedEntry>,
    aliases: Seq<String>,
) -> bool {
    &&& v.headings == dec.headings@.map_values(|h: HeadingData| heading_entry(h))
    &&& v.blocks == blocks_of(dec.blocks@)
    &&& v.wiki_links == dec.wiki_links@.map_values(|w: WikiData| wiki_entry(w))
    &&& v.tags == dec.tags@.map_values(|t: TagData| TagEntry { name: t.name })
    &&& v.markdown_links == dec.markdown_links@.map_values(|m: MarkdownData| markdown_entry(m))
    &&& v.xml_tags.len() == xml.len()
    &&& forall|i: int| 0 <= i < xml.len() ==> xml_entry_of(#[trigger] v.xml_tags[i], xml[i])
    &&& v.code_spans == dec.code_spans@.map_values(|c: CodeSpanData| code_span_entry(c))
    &&& v.tasks == dec.tasks@.map_values(|t: TaskData| task_entry(t))
    &&& v.embeds == dec.embeds@.map_values(|e: EmbedData| embed_entry(e))
    &&& v.frontmatter == fm
    &&& v.aliases == aliases
}

fn convert_headings(src: &Vec<HeadingData>) -> (out: Vec<HeadingEntry>)
    ensures
        out@ == src@.map_values(|h: HeadingData| heading_entry(h)),
{
    let mut out: Vec<HeadingEntry> = Vec::new();
    let mut i: usize = 0;
    while i < src.len()
        invariant
            i <= src@.len(),
            out@ =~= src@.subrange(0, i as int).map_values(|h: HeadingData| heading_entry(h)),
        decreases src@.len() - i,
    {
        let h = &src[i];
        out.push(
            HeadingEntry {
                text: h.text.clone(),
                slug: h.slug.clone(),
                level: h.level,
                range: Range::new(
                    Position::new(h.start_line, h.start_col),
                    Position::new(h.end_line, h.end_col),
                ),
            },
        );
        i = i + 1;
    }
    assert(src@.subrange(0, src@.len() as int) =~= src@);
    out
}

fn convert_wiki_links(src: &Vec<WikiData>) -> (out: Vec<WikiLinkEntry>)
    ensures
        out@ == src@.map_values(|w: WikiData| wiki_entry(w)),
{
    let mut out: Vec<WikiLinkEntry> = Vec::new();
    let mut i: usize = 0;
    while i < src.len()
        invariant
            i <= src@.len(),
            out@ =~= src@.subrange(0, i as int).map_values(|w: WikiData| wiki_entry(w)),
        decreases src@.len() - i,
    {
        let w = &src[i];
        let start_byte = w.source_offset as u64;
        let end_byte = if w.alias.is_some() {
            start_byte + w.target_len as u64 + w.text_len as u64 + 5
        } else {
            start_byte + w.target_len as u64 + 4
        };
        out.push(
            WikiLinkEntry {
                target: w.target.clone(),
                alias: clone_opt_string(&w.alias),
                heading: clone_opt_string(&w.heading),
                range: Range::new(
                    Position::new(w.start_line, w.start_col),
                    Position::new(w.end_line, w.end_col),
                ),
                start_byte,
                end_byte,
            },
        );
        i = i + 1;
    }
    assert(src@.subrange(0, src@.len() as int) =~= src@);
    out
}

fn convert_markdown_links(src: &Vec<MarkdownData>) -> (out: Vec<MarkdownLinkEntry>)
    ensures
        out@ == src@.map_values(|m: MarkdownData| markdown_entry(m)),
{
    let mut out: Vec<MarkdownLinkEntry> = Vec::new();
    let mut i: usize = 0;
    while i < src.len()
        invariant
            i <= src@.len(),
            out@ =~= src@.subrange(0, i as int).map_values(|m: MarkdownData| markdown_entry(m)),
        decreases src@.len() - i,
    {
        let m = &src[i];
        let start_byte = m.source_offset as u64;
        out.push(
            MarkdownLinkEntry {
                text: m.text.clone(),
                url: m.url.clone(),
                anchor: clone_opt_string(&m.anchor),
                range: Range::new(
                    Position::new(m.start_line, m.start_col),
                    Position::new(m.end_line, m.end_col),
                ),
                start_byte,
                end_byte: start_byte + m.text_len as u64 + m.target_len as u64 + 4,
            },
        );
        i = i + 1;
    }
    assert(src@.subrange(0, src@.len() as int) =~= src@);
    out
}

fn convert_tags(src: &Vec<TagData>) -> (out: Vec<TagEntry>)
    ensures
        out@ == src@.map_values(|t: TagData| TagEntry { name: t.name }),
{
    let mut out: Vec<TagEntry> = Vec::new();
    let mut i: usize = 0;
    while i < src.len()
        invariant
            i <= src@.len(),
            out@ =~= src@.subrange(0, i as int).map_values(|t: TagData| TagEntry { name: t.name }),
        decreases src@.len() - i,
    {
        out.push(TagEntry { name: src[i].name.clone() });
        i = i + 1;
    }
    assert(src@.subrange(0, src@.len() as int) =~= src@);
    out
}

fn convert_code_spans(src: &Vec<CodeSpanData>) -> (out: Vec<CodeSpanEntry>)
    ensures
        out@ == src@.map_values(|c: CodeSpanData| code_span_entry(c)),
{
    let mut out: Vec<CodeSpanEntry> = Vec::new();
    let mut i: usize = 0;
    while i < src.len()
        invariant
            i <= src@.len(),
            out@ =~= src@.subrange(0, i as int).map_values(|c: CodeSpanData| code_span_entry(c)),
        decreases src@.len() - i,
    {
        let c = &src[i];
        out.push(
            CodeSpanEntry {
                text: c.text.clone(),
                range: Range::new(
                    Position::new(c.start_line, c.start_col),
                    Position::new(c.end_line, c.end_col),
                ),
                start_byte: c.source_offset as u64,
                end_byte: c.end_offset as u64,
                language_hint: None,
                kind: None,
            },
        );
        i = i + 1;
    }
    assert(src@.subrange(0, src@.len() as int) =~= src@);
    out
}

fn convert_tasks(src: &Vec<TaskData>) -> (out: Vec<TaskEntry>)
    ensures
        out@ == src@.map_values(|t: TaskData| task_entry(t)),
{
    let mut out: Vec<TaskEntry> = Vec::new();
    let mut i: usize = 0;
    while i < src.len()
        invariant
            i <= src@.len(),
            out@ =~= src@.subrange(0, i as int).map_values(|t: TaskData| task_entry(t)),
        decreases src@.len() - i,
    {
        let t = &src[i];
        out.push(
            TaskEntry {
                state: t.state.clone(),
                text: t.text.clone(),
                range: Range::new(
                    Position::new(t.start_line, t.start_col),
                    Position::new(t.end_line, t.end_col),
                ),
                start_byte: t.source_offset as u64,
                end_byte: t.end_offset as u64,
            },
        );
        i = i + 1;
    }
    assert(src@.subrange(0, src@.len() as int) =~= src@);
    out
}

fn convert_embeds(src: &Vec<EmbedData>) -> (out: Vec<EmbedEntry>)
    ensures
        out@ == src@.map_values(|e: EmbedData| embed_entry(e)),
{
    let mut out: Vec<EmbedEntry> = Vec::new();
    let mut i: usize = 0;
    while i < src.len()
        invariant
            i <= src@.len(),
            out@ =~= src@.subrange(0, i as int).map_values(|e: EmbedData| embed_entry(e)),
        decreases src@.len() - i,
    {
        let e = &src[i];
        out.push(
            EmbedEntry {
                target: e.target.clone(),
                range: Range::new(
                    Position::new(e.start_line, e.start_col),
                    Position::new(e.end_line, e.end_col),
                ),
                start_byte: e.source_offset as u64,
                end_byte: e.end_offset as u64,
            },
        );
        i = i + 1;
    }
    assert(src@.subrange(0, src@.len() as int) =~= src@);
    out
}

/// Position of the last block with id `id`.
fn position_of_block(v: &Vec<BlockEntry>, id: &str) -> (r: Option<usize>)
    ensures
        match r {
            Some(i) => find_block(v@, id@) == i,
            None => find_block(v@, id@) == -1,
        },
{
    let mut i = v.len();
    assert(v@.subrange(0, i as int) =~= v@);
    while i > 0
        invariant
            i <= v@.len(),
            find_block(v@, id@) == find_block(v@.subrange(0, i as int), id@),
        decreases i,
    {
        let ghost pre = v@.subrange(0, i as int);
        assert(pre.drop_last() =~= v@.subrange(0, i - 1));
        if str_eq(v[i - 1].id.as_str(), id) {
            return Some(i - 1);
        }
        i = i - 1;
    }
    None
}

fn convert_blocks(src: &Vec<BlockData>) -> (out: Vec<BlockEntry>)
    ensures
        out@ == blocks_of(src@),
{
    let mut out: Vec<BlockEntry> = Vec::new();
    let mut i: usize = 0;
    assert(src@.subrange(0, 0) =~= Seq::<BlockData>::empty());
    while i < src.len()
        invariant
            i <= src@.len(),
            out@ == blocks_of(src@.subrange(0, i as int)),
        decreases src@.len() - i,
    {
        let b = &src[i];
        let entry = BlockEntry {
            id: b.id.clone(),
            range: Range::new(
                Position::new(b.start_line, b.start_col),
                Position::new(b.end_line, b.end_col),
            ),
            start_byte: b.source_offset as u64,
            end_byte: b.source_offset as u64 + 1 + b.id_len as u64,
        };
        proof {
            assert(src@.subrange(0, i + 1).drop_last() =~= src@.subrange(0, i as int));
        }
        proof {
            lemma_find_block_range(out@, b.id@);
        }
        match position_of_block(&out, b.id.as_str()) {
            Some(k) => {
                out.set(k, entry);
            },
            None => {
                out.push(entry);
            },
        }
        i = i + 1;
    }
    assert(src@.subrange(0, src@.len() as int) =~= src@);
    out
}

/// Position of the last attribute with key `key`.
fn position_of_key(v: &Vec<(String, String)>, key: &str) -> (r: Option<usize>)
    ensures
        match r {
            Some(i) => find_key(v@, key@) == i,
            None => find_key(v@, key@) == -1,
        },
{
    let mut i = v.len();
    assert(v@.subrange(0, i as int) =~= v@);
    while i > 0
        invariant
            i <= v@.len(),
            find_key(v@, key@) == find_key(v@.subrange(0, i as int), key@),
        decreases i,
    {
        let ghost pre = v@.subrange(0, i as int);
        assert(pre.drop_last() =~= v@.subrange(0, i - 1));
        if str_eq(v[i - 1].0.as_str(), key) {
            return Some(i - 1);
        }
        i = i - 1;
    }
    None
}

/// One value per attribute key, the last one winning.
fn collect_attributes(src: &Vec<(String, String)>) -> (out: Vec<(String, String)>)
    ensures
        out@ == attributes_of(src@),
{
    let mut out: Vec<(String, String)> = Vec::new();
    let mut i: usize = 0;
    assert(src@.subrange(0, 0) =~= Seq::<(String, String)>::empty());
    while i < src.len()
        invariant
            i <= src@.len(),
            out@ == attributes_of(src@.subrange(0, i as int)),
        decreases src@.len() - i,
    {
        let pair = (src[i].0.clone(), src[i].1.clone());
        proof {
            assert(src@.subrange(0, i + 1).drop_last() =~= src@.subrange(0, i as int));
            assert(pair == src@[i as int]);
        }
        proof {
            lemma_find_key_range(out@, src@[i as int].0@);
        }
        match position_of_key(&out, src[i].0.as_str()) {
            Some(k) => {
                out.set(k, pair);
            },
            None => {
                out.push(pair);
            },
        }
        i = i + 1;
    }
    assert(src@.subrange(0, src@.len() as int) =~= src@);
    out
}

fn convert_xml_tags(src: &Vec<XmlTagOwned>) -> (out: Vec<XmlTagEntry>)
    ensures
        out@.len() == src@.len(),
        forall|i: int| 0 <= i < src@.len() ==> xml_entry_of(#[trigger] out@[i], src@[i]),
{
    let mut out: Vec<XmlTagEntry> = Vec::new();
    let mut i: usize = 0;
    while i < src.len()
        invariant
            i <= src@.len(),
            out@.len() == i,
            forall|k: int| 0 <= k < i ==> xml_entry_of(#[trigger] out@[k], src@[k]),
        decreases src@.len() - i,
    {
        let x = &src[i];
        out.push(
            XmlTagEntry {
                tag_name: x.tag_name.clone(),
                attributes: collect_attributes(&x.attributes),
                is_self_closing: x.is_self_closing,
                is_unclosed: x.is_unclosed,
                is_inline: x.is_inline,
                range: x.range,
                start_byte: x.start_byte,
                end_byte: x.end_byte,
            },
        );
        i = i + 1;
    }
    out
}


/// What a constructor from `data` promises: the blob's sections decode (and
/// the index is built from them) exactly when it returns `Ok`, and the error
/// is the first one found otherwise.
pub open spec fn built_from_blob(
    r: Result<DocumentIndex, BlobError>,
    data: Seq<u8>,
    xml: Seq<XmlTagOwned>,
    fm: Seq<FrontmatterOwnedEntry>,
    aliases: Seq<String>,
) -> bool {
    match r {
        Ok(idx) => exists|dec: DecodedOwnedData|
            #![trigger index_from(idx@, dec, xml, fm, aliases)]
            spec_blob_sections(data) == Ok::<DecodedView, BlobError>(dec@)
                && index_from(idx@, dec, xml, fm, aliases) && extras_empty(idx@),
        Err(e) => spec_blob_sections(data) == Err::<DecodedView, BlobError>(e),
    }
}

impl DocumentIndex {
    fn from_blob_inner(
        data: &[u8],
        xml_tags_in: Vec<XmlTagOwned>,
        frontmatter: Vec<FrontmatterOwnedEntry>,
        aliases: Vec<String>,
    ) -> (r: Result<Self, BlobError>)
        ensures
            built_from_blob(r, data@, xml_tags_in@, frontmatter@, aliases@),
    {
        let header = match validate_blob(data) {
            Ok(h) => h,
            Err(e) => {
                return Err(e);
            },
        };
        let offsets = compute_offsets(&header);
        let pool_end = offsets.text_pool + header.text_pool_size as usize;
        let text_pool = &data[offsets.text_pool..pool_end];
        let dec = match decode_owned_data(data, &header, &offsets, text_pool) {
            Ok(d) => d,
            Err(e) => {
                return Err(e);
            },
        };
        let idx = Self::build_index(&dec, xml_tags_in, frontmatter, aliases);
        Ok(idx)
    }

    /// The index of decoded records, with XML tags, frontmatter and aliases
    /// found elsewhere.
    pub(crate) fn build_index(
        dec: &DecodedOwnedData,
        xml_tags_in: Vec<XmlTagOwned>,
        frontmatter: Vec<FrontmatterOwnedEntry>,
        aliases: Vec<String>,
    ) -> (idx: Self)
        ensures
            index_from(idx@, *dec, xml_tags_in@, frontmatter@, aliases@),
            extras_empty(idx@),
    {
        let headings = convert_headings(&dec.headings);
        let toc = build_toc(headings.as_slice());
        let outline = build_outline(headings.as_slice());
        let idx = DocumentIndex {
            headings,
            blocks: convert_blocks(&dec.blocks),
            toc,
            outline,
            wiki_links: convert_wiki_links(&dec.wiki_links),
            tags: convert_tags(&dec.tags),
            markdown_links: convert_markdown_links(&dec.markdown_links),
            xml_tags: convert_xml_tags(&xml_tags_in),
            code_spans: convert_code_spans(&dec.code_spans),
            tasks: convert_tasks(&dec.tasks),
            embeds: convert_embeds(&dec.embeds),
            frontmatter,
            aliases,
            properties: Vec::new(),
            block_refs: Vec::new(),
            callouts: Vec::new(),
            query_blocks: Vec::new(),
            link_definitions: Vec::new(),
        };
        assert(index_from(idx@, *dec, xml_tags_in@, frontmatter@, aliases@));
        idx
    }

    /// Build a document index from a scan blob.
    ///
    /// The blob carries no XML tags and no frontmatter, so those lists are empty.
    /// Errors: `TooSmall`, `InvalidMagic`, `UnsupportedVersion`, `SizeMismatch`
    /// from the header; `TextPoolOutOfBounds`, `InvalidUtf8` from a record.
    pub fn from_blob(data: &[u8]) -> (r: Result<Self, BlobError>)
        ensures
            built_from_blob(r, data@, Seq::empty(), Seq::empty(), Seq::empty()),
            r matches Ok(idx) ==> idx@.xml_tags.len() == 0 && idx@.frontmatter.len() == 0
                && idx@.aliases.len() == 0,
    {
        let r = Self::from_blob_inner(data, Vec::new(), Vec::new(), Vec::new());
        r
    }

    /// Build a document index from a blob, with XML tags extracted elsewhere
    /// from the source text.
    pub fn from_blob_with_xml_tags(data: &[u8], xml_tags_in: Vec<XmlTagOwned>) -> (r: Result<
        Self,
        BlobError,
    >)
        ensures
            built_from_blob(r, data@, xml_tags_in@, Seq::empty(), Seq::empty()),
    {
        Self::from_blob_inner(data, xml_tags_in, Vec::new(), Vec::new())
    }

    /// Build a document index from a blob, with frontmatter entries and aliases
    /// parsed elsewhere from the source text (the blob does not carry them).
    pub fn from_blob_with_frontmatter(
        data: &[u8],
        frontmatter: Vec<FrontmatterOwnedEntry>,
        aliases: Vec<String>,
    ) -> (r: Result<Self, BlobError>)
        ensures
            built_from_blob(r, data@, Seq::empty(), frontmatter@, aliases@),
    {
        Self::from_blob_inner(data, Vec::new(), frontmatter, aliases)
    }

    /// Look up a heading by its slug; where two headings share a slug, the later one.
    pub fn heading_by_slug(&self, slug: &str) -> (r: Option<&HeadingEntry>)
        ensures
            find_slug(self@.headings, slug@) == -1 ==> r is None,
            find_slug(self@.headings, slug@) >= 0 ==> r == Some(
                &self@.headings[find_slug(self@.headings, slug@)],
            ),
    {
        let mut i = self.headings.len();
        assert(self.headings@.subrange(0, i as int) =~= self.headings@);
        while i > 0
            invariant
                i <= self.headings@.len(),
                find_slug(self.headings@, slug@) == find_slug(
                    self.headings@.subrange(0, i as int),
                    slug@,
                ),
            decreases i,
        {
            let ghost pre = self.headings@.subrange(0, i as int);
            assert(pre.drop_last() =~= self.headings@.subrange(0, i - 1));
            if str_eq(self.headings[i - 1].slug.as_str(), slug) {
                return Some(&self.headings[i - 1]);
            }
            i = i - 1;
        }
        None
    }

    /// Look up a block by its id.
    pub fn block_by_id(&self, id: &str) -> (r: Option<&BlockEntry>)
        ensures
            find_block(self@.blocks, id@) == -1 ==> r is None,
            find_block(self@.blocks, id@) >= 0 ==> r == Some(
                &self@.blocks[find_block(self@.blocks, id@)],
            ),
    {
        proof {
            lemma_find_block_range(self.blocks@, id@);
        }
        match position_of_block(&self.blocks, id) {
            Some(k) => Some(&self.blocks[k]),
            None => None,
        }
    }

    /// Logseq properties (`key:: value`).
    pub fn properties(&self) -> (r: &[PropertyEntry])
        ensures
            r@ == self@.properties,
    {
        self.properties.as_slice()
    }

    /// Outgoing Logseq block references (`((uuid))`).
    pub fn block_refs(&self) -> (r: &[BlockRefEntry])
        ensures
            r@ == self@.block_refs,
    {
        self.block_refs.as_slice()
    }

    /// Callouts.
    pub fn callouts(&self) -> (r: &[CalloutEntry])
        ensures
            r@ == self@.callouts,
    {
        self.callouts.as_slice()
    }

    /// Query blocks.
    pub fn query_blocks(&self) -> (r: &[QueryBlockEntry])
        ensures
            r@ == self@.query_blocks,
    {
        self.query_blocks.as_slice()
    }

    /// Link reference definitions.
    pub fn link_definitions(&self) -> (r: &[LinkDefinitionEntry])
        ensures
            r@ == self@.link_definitions,
    {
        self.link_definitions.as_slice()
    }

    /// The index with properties, block references, callouts, query blocks
    /// and link definitions put in; everything else as it was.
    pub(crate) fn with_extras(
        self,
        properties: Vec<PropertyEntry>,
        block_refs: Vec<BlockRefEntry>,
        callouts: Vec<CalloutEntry>,
        query_blocks: Vec<QueryBlockEntry>,
        link_definitions: Vec<LinkDefinitionEntry>,
    ) -> (r: Self)
        ensures
            r@ == (DocumentView {
                properties: properties@,
                block_refs: block_refs@,
                callouts: callouts@,
                query_blocks: query_blocks@,
                link_definitions: link_definitions@,
                ..self@
            }),
    {
        proof {
            use_type_invariant(&self);
        }
        DocumentIndex {
            headings: self.headings,
            blocks: self.blocks,
            toc: self.toc,
            outline: self.outline,
            wiki_links: self.wiki_links,
            tags: self.tags,
            markdown_links: self.markdown_links,
            xml_tags: self.xml_tags,
            code_spans: self.code_spans,
            tasks: self.tasks,
            embeds: self.embeds,
            frontmatter: self.frontmatter,
            aliases: self.aliases,
            properties,
            block_refs,
            callouts,
            query_blocks,
            link_definitions,
        }
    }

    /// The flat table of contents.
    pub fn toc(&self) -> (r: &[TocEntry])
        ensures
            r@ == spec_toc(self@.headings),
    {
        proof {
            use_type_invariant(self);
        }
        self.toc.as_slice()
    }

    /// The outline tree.
    pub fn outline(&self) -> (r: &OutlineNode)
        ensures
            outline_of(*r, self@.headings),
    {
        proof {
            use_type_invariant(self);
        }
        &self.outline
    }

    /// All indexed headings, in document order.
    pub fn headings(&self) -> (r: &[HeadingEntry])
        ensures
            r@ == self@.headings,
    {
        self.headings.as_slice()
    }

    /// All blocks, in the order their ids were first seen.
    pub(crate) fn blocks(&self) -> (r: &[BlockEntry])
        ensures
            r@ == self@.blocks,
    {
        self.blocks.as_slice()
    }

    /// All indexed wiki links.
    pub fn wiki_links(&self) -> (r: &[WikiLinkEntry])
        ensures
            r@ == self@.wiki_links,
    {
        self.wiki_links.as_slice()
    }

    /// All indexed tags.
    pub fn tags(&self) -> (r: &[TagEntry])
        ensures
            r@ == self@.tags,
    {
        self.tags.as_slice()
    }

    /// All indexed markdown links.
    pub fn markdown_links(&self) -> (r: &[MarkdownLinkEntry])
        ensures
            r@ == self@.markdown_links,
    {
        self.markdown_links.as_slice()
    }

    /// All indexed XML tags.
    pub fn xml_tags(&self) -> (r: &[XmlTagEntry])
        ensures
            r@ == self@.xml_tags,
    {
        self.xml_tags.as_slice()
    }

    /// All inline code spans.
    pub fn code_spans(&self) -> (r: &[CodeSpanEntry])
        ensures
            r@ == self@.code_spans,
    {
        self.code_spans.as_slice()
    }

    /// All task list items.
    pub fn tasks(&self) -> (r: &[TaskEntry])
        ensures
            r@ == self@.tasks,
    {
        self.tasks.as_slice()
    }

    /// All embeds.
    pub fn embeds(&self) -> (r: &[EmbedEntry])
        ensures
            r@ == self@.embeds,
    {
        self.embeds.as_slice()
    }

    /// All frontmatter entries.
    pub fn frontmatter(&self) -> (r: &[FrontmatterOwnedEntry])
        ensures
            r@ == self@.frontmatter,
    {
        self.frontmatter.as_slice()
    }

    /// Aliases from the frontmatter `aliases` field.
    pub fn aliases(&self) -> (r: &[String])
        ensures
            r@ == self@.aliases,
    {
        self.aliases.as_slice()
    }

    /// The ids of all blocks, one per block.
    pub fn block_ids(&self) -> (r: Vec<&str>)
        ensures
            r@.len() == self@.blocks.len(),
            forall|i: int| 0 <= i < r@.len() ==> (#[trigger] r@[i])@ == self@.blocks[i].id@,
    {
        let mut out: Vec<&str> = Vec::new();
        let mut i: usize = 0;
        while i < self.blocks.len()
            invariant
                i <= self.blocks@.len(),
                out@.len() == i,
                forall|k: int| 0 <= k < i ==> (#[trigger] out@[k])@ == self.blocks@[k].id@,
            decreases self.blocks@.len() - i,
        {
            out.push(self.blocks[i].id.as_str());
            i = i + 1;
        }
        out
    }
}

} // verus!
