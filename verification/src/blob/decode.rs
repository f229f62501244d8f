//! Decoding of the fixed-size record sections of a validated blob.

use vstd::prelude::*;
use vstd::string::StringSliceAdditionalSpecFns;
use vstd::utf8::*;

use super::header::{
    after_hash, before_hash, expected_blob_size, le_u32, pool_str, read_u32_le, read_u8,
    spec_offsets, spec_pool_str, spec_validate_blob, split_first_hash, BlobError, BlobHeader,
    SectionOffsets, BLOCK_ID_SIZE, CODE_SPAN_SIZE, EMBED_SIZE, HEADING_SIZE, LINK_SIZE, TAG_SIZE,
    TASK_SIZE,
};
use super::records::{
    BlockData, BlockView, CodeSpanData, DecodedOwnedData, DecodedView, EmbedData, HeadingData,
    HeadingView, LinkView, MarkdownData, MarkdownView, SpanView, TagData, TaskData, TaskView,
    WikiData, WikiView,
};

verus! {

/// The `u32` at `off`.
pub open spec fn r32(d: Seq<u8>, off: int) -> u32 {
    le_u32(d, off) as u32
}

/// Decode `n` records in order; the first record that fails decides the error.
pub open spec fn decode_all<T>(n: nat, f: spec_fn(nat) -> Result<T, BlobError>) -> Result<
    Seq<T>,
    BlobError,
>
    decreases n,
{
    if n == 0 {
        Ok(Seq::empty())
    } else {
        match decode_all((n - 1) as nat, f) {
            Err(e) => Err(e),
            Ok(s) => match f((n - 1) as nat) {
                Err(e) => Err(e),
                Ok(x) => Ok(s.push(x)),
            },
        }
    }
}

/// Once a prefix fails, every longer run fails with the same error.
pub proof fn lemma_decode_all_err<T>(n: nat, m: nat, f: spec_fn(nat) -> Result<T, BlobError>)
    requires
        n <= m,
        decode_all(n, f) is Err,
    ensures
        decode_all(m, f) == decode_all(n, f),
    decreases m - n,
{
    if n < m {
        lemma_decode_all_err(n, (m - 1) as nat, f);
    }
}

/// A successful run decodes exactly `n` records.
pub proof fn lemma_decode_all_len<T>(n: nat, f: spec_fn(nat) -> Result<T, BlobError>)
    requires
        decode_all(n, f) is Ok,
    ensures
        decode_all(n, f)->Ok_0.len() == n,
    decreases n,
{
    if n > 0 {
        lemma_decode_all_len((n - 1) as nat, f);
    }
}

/// A heading record at `b`: text, slug, then positions and level.
pub open spec fn spec_heading(d: Seq<u8>, p: Seq<u8>, b: int) -> Result<HeadingView, BlobError> {
    match spec_pool_str(p, r32(d, b), r32(d, b + 4)) {
        Err(e) => Err(e),
        Ok(text) => match spec_pool_str(p, r32(d, b + 8), r32(d, b + 12)) {
            Err(e) => Err(e),
            Ok(slug) => Ok(
                HeadingView {
                    text,
                    slug,
                    start_line: r32(d, b + 20),
                    start_col: r32(d, b + 24),
                    end_line: r32(d, b + 28),
                    end_col: r32(d, b + 32),
                    level: d[b + 36],
                },
            ),
        },
    }
}

/// Bytes `[off, off + len)` of the text pool.
pub open spec fn pool_bytes(p: Seq<u8>, off: u32, len: u32) -> Seq<u8> {
    p.subrange(off as int, off + len)
}

/// A link record at `b`. A nonzero flag byte makes it a wiki link: the target is
/// split at its first `#` into page and heading, and the text is an alias when
/// it differs from the full target. Otherwise it is a markdown link whose target
/// splits into url and anchor.
pub open spec fn spec_link(d: Seq<u8>, p: Seq<u8>, b: int) -> Result<LinkView, BlobError> {
    match spec_pool_str(p, r32(d, b), r32(d, b + 4)) {
        Err(e) => Err(e),
        Ok(text) => match spec_pool_str(p, r32(d, b + 8), r32(d, b + 12)) {
            Err(e) => Err(e),
            Ok(target) => {
                let tb = pool_bytes(p, r32(d, b + 8), r32(d, b + 12));
                if d[b + 36] != 0 {
                    Ok(
                        LinkView::Wiki(
                            WikiView {
                                target: before_hash(tb),
                                alias: if text != target {
                                    Some(text)
                                } else {
                                    None
                                },
                                heading: after_hash(tb),
                                source_offset: r32(d, b + 16),
                                text_len: r32(d, b + 4),
                                target_len: r32(d, b + 12),
                                start_line: r32(d, b + 20),
                                start_col: r32(d, b + 24),
                                end_line: r32(d, b + 28),
                                end_col: r32(d, b + 32),
                            },
                        ),
                    )
                } else {
                    Ok(
                        LinkView::Markdown(
                            MarkdownView {
                                text,
                                url: before_hash(tb),
                                anchor: after_hash(tb),
                                source_offset: r32(d, b + 16),
                                text_len: r32(d, b + 4),
                                target_len: r32(d, b + 12),
                                start_line: r32(d, b + 20),
                                start_col: r32(d, b + 24),
                                end_line: r32(d, b + 28),
                                end_col: r32(d, b + 32),
                            },
                        ),
                    )
                }
            },
        },
    }
}

/// The wiki links among decoded links, in order.
pub open spec fn wiki_links_of(s: Seq<LinkView>) -> Seq<WikiView>
    decreases s.len(),
{
    if s.len() == 0 {
        Seq::empty()
    } else {
        match s.last() {
            LinkView::Wiki(w) => wiki_links_of(s.drop_last()).push(w),
            LinkView::Markdown(_) => wiki_links_of(s.drop_last()),
        }
    }
}

/// The markdown links among decoded links, in order.
pub open spec fn markdown_links_of(s: Seq<LinkView>) -> Seq<MarkdownView>
    decreases s.len(),
{
    if s.len() == 0 {
        Seq::empty()
    } else {
        match s.last() {
            LinkView::Wiki(_) => markdown_links_of(s.drop_last()),
            LinkView::Markdown(m) => markdown_links_of(s.drop_last()).push(m),
        }
    }
}

/// A tag record at `b`: its name.
pub open spec fn spec_tag(d: Seq<u8>, p: Seq<u8>, b: int) -> Result<Seq<char>, BlobError> {
    spec_pool_str(p, r32(d, b), r32(d, b + 4))
}

/// A block-id record at `b`.
pub open spec fn spec_block(d: Seq<u8>, p: Seq<u8>, b: int) -> Result<BlockView, BlobError> {
    match spec_pool_str(p, r32(d, b), r32(d, b + 4)) {
        Err(e) => Err(e),
        Ok(id) => Ok(
            BlockView {
                id,
                source_offset: r32(d, b + 8),
                id_len: r32(d, b + 4),
                start_line: r32(d, b + 12),
                start_col: r32(d, b + 16),
                end_line: r32(d, b + 20),
                end_col: r32(d, b + 24),
            },
        ),
    }
}

/// A text-and-span record at `b` (the shape of code-span, task and embed records).
pub open spec fn spec_span(d: Seq<u8>, p: Seq<u8>, b: int) -> Result<SpanView, BlobError> {
    match spec_pool_str(p, r32(d, b), r32(d, b + 4)) {
        Err(e) => Err(e),
        Ok(text) => Ok(
            SpanView {
                text,
                source_offset: r32(d, b + 8),
                end_offset: r32(d, b + 12),
                start_line: r32(d, b + 16),
                start_col: r32(d, b + 20),
                end_line: r32(d, b + 24),
                end_col: r32(d, b + 28),
            },
        ),
    }
}

/// The state of a task whose marker byte is `c`.
pub open spec fn task_state(c: u8) -> Seq<char> {
    if c == 0x78 || c == 0x58 {
        "checked"@
    } else {
        "unchecked"@
    }
}

/// A task record at `b`: a span and the marker byte at offset 32.
pub open spec fn spec_task(d: Seq<u8>, p: Seq<u8>, b: int) -> Result<TaskView, BlobError> {
    match spec_span(d, p, b) {
        Err(e) => Err(e),
        Ok(span) => Ok(TaskView { state: task_state(d[b + 32]), span }),
    }
}

/// Record decoders indexed by record number, for each section.
pub open spec fn headings_at(d: Seq<u8>, p: Seq<u8>, start: int) -> spec_fn(nat) -> Result<
    HeadingView,
    BlobError,
> {
    |i: nat| spec_heading(d, p, start + i * 40)
}

/// Link records by number.
pub open spec fn links_at(d: Seq<u8>, p: Seq<u8>, start: int) -> spec_fn(nat) -> Result<
    LinkView,
    BlobError,
> {
    |i: nat| spec_link(d, p, start + i * 40)
}

/// Tag records by number.
pub open spec fn tags_at(d: Seq<u8>, p: Seq<u8>, start: int) -> spec_fn(nat) -> Result<
    Seq<char>,
    BlobError,
> {
    |i: nat| spec_tag(d, p, start + i * 24)
}

/// Block-id records by number.
pub open spec fn blocks_at(d: Seq<u8>, p: Seq<u8>, start: int) -> spec_fn(nat) -> Result<
    BlockView,
    BlobError,
> {
    |i: nat| spec_block(d, p, start + i * 28)
}

/// Code-span records by number.
pub open spec fn code_spans_at(d: Seq<u8>, p: Seq<u8>, start: int) -> spec_fn(nat) -> Result<
    SpanView,
    BlobError,
> {
    |i: nat| spec_span(d, p, start + i * 32)
}

/// Task records by number.
pub open spec fn tasks_at(d: Seq<u8>, p: Seq<u8>, start: int) -> spec_fn(nat) -> Result<
    TaskView,
    BlobError,
> {
    |i: nat| spec_task(d, p, start + i * 36)
}

/// Embed records by number.
pub open spec fn embeds_at(d: Seq<u8>, p: Seq<u8>, start: int) -> spec_fn(nat) -> Result<
    SpanView,
    BlobError,
> {
    |i: nat| spec_span(d, p, start + i * 32)
}


/// What decoding every record section yields: the sections in blob order
/// (headings, links, tags, block ids, code spans, tasks, embeds), each record in
/// order, the first failing text-pool lookup deciding the error.
pub open spec fn spec_decode(d: Seq<u8>, h: BlobHeader, o: SectionOffsets, p: Seq<u8>) -> Result<
    DecodedView,
    BlobError,
> {
    match decode_all(h.heading_count as nat, headings_at(d, p, o.headings as int)) {
        Err(e) => Err(e),
        Ok(headings) => match decode_all(h.link_count as nat, links_at(d, p, o.links as int)) {
            Err(e) => Err(e),
            Ok(links) => match decode_all(h.tag_count as nat, tags_at(d, p, o.tags as int)) {
                Err(e) => Err(e),
                Ok(tags) => match decode_all(
                    h.block_id_count as nat,
                    blocks_at(d, p, o.block_ids as int),
                ) {
                    Err(e) => Err(e),
                    Ok(blocks) => match decode_all(
                        h.code_span_count as nat,
                        code_spans_at(d, p, o.code_spans as int),
                    ) {
                        Err(e) => Err(e),
                        Ok(code_spans) => match decode_all(
                            h.task_count as nat,
                            tasks_at(d, p, o.tasks as int),
                        ) {
                            Err(e) => Err(e),
                            Ok(tasks) => match decode_all(
                                h.embed_count as nat,
                                embeds_at(d, p, o.embeds as int),
                            ) {
                                Err(e) => Err(e),
                                Ok(embeds) => Ok(
                                    DecodedView {
                                        headings,
                                        wiki_links: wiki_links_of(links),
                                        markdown_links: markdown_links_of(links),
                                        tags,
                                        blocks,
                                        code_spans,
                                        tasks,
                                        embeds,
                                    },
                                ),
                            },
                        },
                    },
                },
            },
        },
    }
}

/// Whether an error is one that reading a string of the text pool gives.
pub open spec fn pool_error(e: BlobError) -> bool {
    e is TextPoolOutOfBounds || e is InvalidUtf8
}

/// Whether every failing record among the first `n` fails reading a string.
pub open spec fn fails_on_pool<T>(n: nat, f: spec_fn(nat) -> Result<T, BlobError>) -> bool {
    forall|i: nat| i < n && (#[trigger] f(i)) is Err ==> pool_error(f(i)->Err_0)
}

/// A run of records fails, if at all, as one of its records does.
proof fn lemma_decode_all_pool<T>(n: nat, f: spec_fn(nat) -> Result<T, BlobError>)
    requires
        fails_on_pool(n, f),
    ensures
        decode_all(n, f) is Err ==> pool_error(decode_all(n, f)->Err_0),
    decreases n,
{
    if n > 0 {
        lemma_decode_all_pool((n - 1) as nat, f);
        let m = (n - 1) as nat;
        assert(f(m) is Err ==> pool_error(f(m)->Err_0));
    }
}

/// Decoding the record sections fails, if at all, on a string of the text
/// pool that is out of bounds or not UTF-8.
pub proof fn law_decode_fails_on_pool(d: Seq<u8>, h: BlobHeader, o: SectionOffsets, p: Seq<u8>)
    ensures
        spec_decode(d, h, o, p) is Err ==> pool_error(spec_decode(d, h, o, p)->Err_0),
{
    let fh = headings_at(d, p, o.headings as int);
    let fl = links_at(d, p, o.links as int);
    let ft = tags_at(d, p, o.tags as int);
    let fb = blocks_at(d, p, o.block_ids as int);
    let fc = code_spans_at(d, p, o.code_spans as int);
    let fk = tasks_at(d, p, o.tasks as int);
    let fe = embeds_at(d, p, o.embeds as int);
    assert(fails_on_pool(h.heading_count as nat, fh));
    assert(fails_on_pool(h.link_count as nat, fl));
    assert(fails_on_pool(h.tag_count as nat, ft));
    assert(fails_on_pool(h.block_id_count as nat, fb));
    assert(fails_on_pool(h.code_span_count as nat, fc));
    assert(fails_on_pool(h.task_count as nat, fk));
    assert(fails_on_pool(h.embed_count as nat, fe));
    lemma_decode_all_pool(h.heading_count as nat, fh);
    lemma_decode_all_pool(h.link_count as nat, fl);
    lemma_decode_all_pool(h.tag_count as nat, ft);
    lemma_decode_all_pool(h.block_id_count as nat, fb);
    lemma_decode_all_pool(h.code_span_count as nat, fc);
    lemma_decode_all_pool(h.task_count as nat, fk);
    lemma_decode_all_pool(h.embed_count as nat, fe);
}

/// Decode the heading record at `base`.
fn decode_heading(data: &[u8], text_pool: &[u8], base: usize) -> (r: Result<HeadingData, BlobError>)
    requires
        base + 40 <= data.len(),
    ensures
        match r {
            Ok(x) => spec_heading(data@, text_pool@, base as int) == Ok::<HeadingView, BlobError>(x@),
            Err(e) => spec_heading(data@, text_pool@, base as int) == Err::<HeadingView, BlobError>(e),
        },
{
    let text_off = read_u32_le(data, base);
    let text_len = read_u32_le(data, base + 4);
    let slug_off = read_u32_le(data, base + 8);
    let slug_len = read_u32_le(data, base + 12);
    let start_line = read_u32_le(data, base + 20);
    let start_col = read_u32_le(data, base + 24);
    let end_line = read_u32_le(data, base + 28);
    let end_col = read_u32_le(data, base + 32);
    let level = read_u8(data, base + 36);
    let text = pool_str(text_pool, text_off, text_len)?.to_owned();
    let slug = pool_str(text_pool, slug_off, slug_len)?.to_owned();
    Ok(HeadingData { text, slug, start_line, start_col, end_line, end_col, level })
}

/// Decode the link record at `base`.
fn decode_link(data: &[u8], text_pool: &[u8], base: usize) -> (r: Result<
    (Option<WikiData>, Option<MarkdownData>),
    BlobError,
>)
    requires
        base + 40 <= data.len(),
    ensures
        match r {
            Ok((Some(w), None)) => spec_link(data@, text_pool@, base as int) == Ok::<
                LinkView,
                BlobError,
            >(LinkView::Wiki(w@)),
            Ok((None, Some(m))) => spec_link(data@, text_pool@, base as int) == Ok::<
                LinkView,
                BlobError,
            >(LinkView::Markdown(m@)),
            Ok(_) => false,
            Err(e) => spec_link(data@, text_pool@, base as int) == Err::<LinkView, BlobError>(e),
        },
{
    let text_off = read_u32_le(data, base);
    let text_len = read_u32_le(data, base + 4);
    let target_off = read_u32_le(data, base + 8);
    let target_len = read_u32_le(data, base + 12);
    let source_offset = read_u32_le(data, base + 16);
    let start_line = read_u32_le(data, base + 20);
    let start_col = read_u32_le(data, base + 24);
    let end_line = read_u32_le(data, base + 28);
    let end_col = read_u32_le(data, base + 32);
    let is_wiki = read_u8(data, base + 36);

    let text = pool_str(text_pool, text_off, text_len)?;
    let target = pool_str(text_pool, target_off, target_len)?;
    let (page, heading) = split_first_hash(target);
    let text_owned = text.to_owned();
    if is_wiki != 0 {
        let target_owned = target.to_owned();
        let alias = if text_owned != target_owned {
            Some(text_owned)
        } else {
            None
        };
        Ok(
            (
                Some(
                    WikiData {
                        target: page,
                        alias,
                        heading,
                        source_offset,
                        text_len,
                        target_len,
                        start_line,
                        start_col,
                        end_line,
                        end_col,
                    },
                ),
                None,
            ),
        )
    } else {
        Ok(
            (
                None,
                Some(
                    MarkdownData {
                        text: text_owned,
                        url: page,
                        anchor: heading,
                        source_offset,
                        text_len,
                        target_len,
                        start_line,
                        start_col,
                        end_line,
                        end_col,
                    },
                ),
            ),
        )
    }
}

/// Decode the tag record at `base`.
fn decode_tag(data: &[u8], text_pool: &[u8], base: usize) -> (r: Result<TagData, BlobError>)
    requires
        base + 24 <= data.len(),
    ensures
        match r {
            Ok(x) => spec_tag(data@, text_pool@, base as int) == Ok::<Seq<char>, BlobError>(x.name@),
            Err(e) => spec_tag(data@, text_pool@, base as int) == Err::<Seq<char>, BlobError>(e),
        },
{
    let name_off = read_u32_le(data, base);
    let name_len = read_u32_le(data, base + 4);
    let name = pool_str(text_pool, name_off, name_len)?.to_owned();
    Ok(TagData { name })
}

/// Decode the block-id record at `base`.
fn decode_block(data: &[u8], text_pool: &[u8], base: usize) -> (r: Result<BlockData, BlobError>)
    requires
        base + 28 <= data.len(),
    ensures
        match r {
            Ok(x) => spec_block(data@, text_pool@, base as int) == Ok::<BlockView, BlobError>(x@),
            Err(e) => spec_block(data@, text_pool@, base as int) == Err::<BlockView, BlobError>(e),
        },
{
    let id_off = read_u32_le(data, base);
    let id_len = read_u32_le(data, base + 4);
    let source_offset = read_u32_le(data, base + 8);
    let start_line = read_u32_le(data, base + 12);
    let start_col = read_u32_le(data, base + 16);
    let end_line = read_u32_le(data, base + 20);
    let end_col = read_u32_le(data, base + 24);
    let id = pool_str(text_pool, id_off, id_len)?.to_owned();
    Ok(BlockData { id, source_offset, id_len, start_line, start_col, end_line, end_col })
}

/// Decode the code-span record at `base`.
fn decode_code_span(data: &[u8], text_pool: &[u8], base: usize) -> (r: Result<
    CodeSpanData,
    BlobError,
>)
    requires
        base + 32 <= data.len(),
    ensures
        match r {
            Ok(x) => spec_span(data@, text_pool@, base as int) == Ok::<SpanView, BlobError>(x@),
            Err(e) => spec_span(data@, text_pool@, base as int) == Err::<SpanView, BlobError>(e),
        },
{
    let text_off = read_u32_le(data, base);
    let text_len = read_u32_le(data, base + 4);
    let source_offset = read_u32_le(data, base + 8);
    let end_offset = read_u32_le(data, base + 12);
    let start_line = read_u32_le(data, base + 16);
    let start_col = read_u32_le(data, base + 20);
    let end_line = read_u32_le(data, base + 24);
    let end_col = read_u32_le(data, base + 28);
    let text = pool_str(text_pool, text_off, text_len)?.to_owned();
    Ok(CodeSpanData { text, source_offset, end_offset, start_line, start_col, end_line, end_col })
}

/// Decode the task record at `base`.
fn decode_task(data: &[u8], text_pool: &[u8], base: usize) -> (r: Result<TaskData, BlobError>)
    requires
        base + 36 <= data.len(),
    ensures
        match r {
            Ok(x) => spec_task(data@, text_pool@, base as int) == Ok::<TaskView, BlobError>(x@),
            Err(e) => spec_task(data@, text_pool@, base as int) == Err::<TaskView, BlobError>(e),
        },
{
    let text_off = read_u32_le(data, base);
    let text_len = read_u32_le(data, base + 4);
    let source_offset = read_u32_le(data, base + 8);
    let end_offset = read_u32_le(data, base + 12);
    let start_line = read_u32_le(data, base + 16);
    let start_col = read_u32_le(data, base + 20);
    let end_line = read_u32_le(data, base + 24);
    let end_col = read_u32_le(data, base + 28);
    let state_byte = read_u8(data, base + 32);
    let text = pool_str(text_pool, text_off, text_len)?.to_owned();
    let state = if state_byte == 0x78 || state_byte == 0x58 {
        String::from_str("checked")
    } else {
        String::from_str("unchecked")
    };
    Ok(
        TaskData {
            state,
            text,
            source_offset,
            end_offset,
            start_line,
            start_col,
            end_line,
            end_col,
        },
    )
}

/// Decode the embed record at `base`.
fn decode_embed(data: &[u8], text_pool: &[u8], base: usize) -> (r: Result<EmbedData, BlobError>)
    requires
        base + 32 <= data.len(),
    ensures
        match r {
            Ok(x) => spec_span(data@, text_pool@, base as int) == Ok::<SpanView, BlobError>(x@),
            Err(e) => spec_span(data@, text_pool@, base as int) == Err::<SpanView, BlobError>(e),
        },
{
    let target_off = read_u32_le(data, base);
    let target_len = read_u32_le(data, base + 4);
    let source_offset = read_u32_le(data, base + 8);
    let end_offset = read_u32_le(data, base + 12);
    let start_line = read_u32_le(data, base + 16);
    let start_col = read_u32_le(data, base + 20);
    let end_line = read_u32_le(data, base + 24);
    let end_col = read_u32_le(data, base + 28);
    let target = pool_str(text_pool, target_off, target_len)?.to_owned();
    Ok(EmbedData { target, source_offset, end_offset, start_line, start_col, end_line, end_col })
}


/// Decode `n` consecutive heading records starting at `start`.
fn decode_headings(data: &[u8], text_pool: &[u8], start: usize, n: usize) -> (r: Result<
    Vec<HeadingData>,
    BlobError,
>)
    requires
        start + n * 40 <= data.len(),
    ensures
        match r {
            Ok(v) => decode_all(n as nat, headings_at(data@, text_pool@, start as int)) == Ok::<
                Seq<HeadingView>,
                BlobError,
            >(v@.map_values(|x: HeadingData| x@)),
            Err(e) => decode_all(n as nat, headings_at(data@, text_pool@, start as int)) == Err::<
                Seq<HeadingView>,
                BlobError,
            >(e),
        },
{
    let mut out: Vec<HeadingData> = Vec::new();
    let mut i: usize = 0;
    assert(out@.map_values(|x: HeadingData| x@) =~= Seq::empty());
    while i < n
        invariant
            i <= n,
            start + n * 40 <= data.len(),
            decode_all(i as nat, headings_at(data@, text_pool@, start as int)) == Ok::<
                Seq<HeadingView>,
                BlobError,
            >(out@.map_values(|x: HeadingData| x@)),
        decreases n - i,
    {
        let base = start + i * HEADING_SIZE;
        match decode_heading(data, text_pool, base) {
            Ok(x) => {
                let ghost old_v = out@;
                out.push(x);
                proof {
                    assert(out@.map_values(|x: HeadingData| x@) =~= old_v.map_values(|x: HeadingData| x@).push(x@));
                }
            },
            Err(e) => {
                proof {
                    lemma_decode_all_err((i + 1) as nat, n as nat, headings_at(data@, text_pool@, start as int));
                }
                return Err(e);
            },
        }
        i = i + 1;
    }
    Ok(out)
}

/// Decode `n` consecutive tag records starting at `start`.
fn decode_tags(data: &[u8], text_pool: &[u8], start: usize, n: usize) -> (r: Result<
    Vec<TagData>,
    BlobError,
>)
    requires
        start + n * 24 <= data.len(),
    ensures
        match r {
            Ok(v) => decode_all(n as nat, tags_at(data@, text_pool@, start as int)) == Ok::<
                Seq<Seq<char>>,
                BlobError,
            >(v@.map_values(|x: TagData| x.name@)),
            Err(e) => decode_all(n as nat, tags_at(data@, text_pool@, start as int)) == Err::<
                Seq<Seq<char>>,
                BlobError,
            >(e),
        },
{
    let mut out: Vec<TagData> = Vec::new();
    let mut i: usize = 0;
    assert(out@.map_values(|x: TagData| x.name@) =~= Seq::empty());
    while i < n
        invariant
            i <= n,
            start + n * 24 <= data.len(),
            decode_all(i as nat, tags_at(data@, text_pool@, start as int)) == Ok::<
                Seq<Seq<char>>,
                BlobError,
            >(out@.map_values(|x: TagData| x.name@)),
        decreases n - i,
    {
        let base = start + i * TAG_SIZE;
        match decode_tag(data, text_pool, base) {
            Ok(x) => {
                let ghost old_v = out@;
                out.push(x);
                proof {
                    assert(out@.map_values(|x: TagData| x.name@) =~= old_v.map_values(|x: TagData| x.name@).push(x.name@));
                }
            },
            Err(e) => {
                proof {
                    lemma_decode_all_err((i + 1) as nat, n as nat, tags_at(data@, text_pool@, start as int));
                }
                return Err(e);
            },
        }
        i = i + 1;
    }
    Ok(out)
}

/// Decode `n` consecutive block-id records starting at `start`.
fn decode_blocks(data: &[u8], text_pool: &[u8], start: usize, n: usize) -> (r: Result<
    Vec<BlockData>,
    BlobError,
>)
    requires
        start + n * 28 <= data.len(),
    ensures
        match r {
            Ok(v) => decode_all(n as nat, blocks_at(data@, text_pool@, start as int)) == Ok::<
                Seq<BlockView>,
                BlobError,
            >(v@.map_values(|x: BlockData| x@)),
            Err(e) => decode_all(n as nat, blocks_at(data@, text_pool@, start as int)) == Err::<
                Seq<BlockView>,
                BlobError,
            >(e),
        },
{
    let mut out: Vec<BlockData> = Vec::new();
    let mut i: usize = 0;
    assert(out@.map_values(|x: BlockData| x@) =~= Seq::empty());
    while i < n
        invariant
            i <= n,
            start + n * 28 <= data.len(),
            decode_all(i as nat, blocks_at(data@, text_pool@, start as int)) == Ok::<
                Seq<BlockView>,
                BlobError,
            >(out@.map_values(|x: BlockData| x@)),
        decreases n - i,
    {
        let base = start + i * BLOCK_ID_SIZE;
        match decode_block(data, text_pool, base) {
            Ok(x) => {
                let ghost old_v = out@;
                out.push(x);
                proof {
                    assert(out@.map_values(|x: BlockData| x@) =~= old_v.map_values(|x: BlockData| x@).push(x@));
                }
            },
            Err(e) => {
                proof {
                    lemma_decode_all_err((i + 1) as nat, n as nat, blocks_at(data@, text_pool@, start as int));
                }
                return Err(e);
            },
        }
        i = i + 1;
    }
    Ok(out)
}

/// Decode `n` consecutive code-span records starting at `start`.
fn decode_code_spans(data: &[u8], text_pool: &[u8], start: usize, n: usize) -> (r: Result<
    Vec<CodeSpanData>,
    BlobError,
>)
    requires
        start + n * 32 <= data.len(),
    ensures
        match r {
            Ok(v) => decode_all(n as nat, code_spans_at(data@, text_pool@, start as int)) == Ok::<
                Seq<SpanView>,
                BlobError,
            >(v@.map_values(|x: CodeSpanData| x@)),
            Err(e) => decode_all(n as nat, code_spans_at(data@, text_pool@, start as int)) == Err::<
                Seq<SpanView>,
                BlobError,
            >(e),
        },
{
    let mut out: Vec<CodeSpanData> = Vec::new();
    let mut i: usize = 0;
    assert(out@.map_values(|x: CodeSpanData| x@) =~= Seq::empty());
    while i < n
        invariant
            i <= n,
            start + n * 32 <= data.len(),
            decode_all(i as nat, code_spans_at(data@, text_pool@, start as int)) == Ok::<
                Seq<SpanView>,
                BlobError,
            >(out@.map_values(|x: CodeSpanData| x@)),
        decreases n - i,
    {
        let base = start + i * CODE_SPAN_SIZE;
        match decode_code_span(data, text_pool, base) {
            Ok(x) => {
                let ghost old_v = out@;
                out.push(x);
                proof {
                    assert(out@.map_values(|x: CodeSpanData| x@) =~= old_v.map_values(|x: CodeSpanData| x@).push(x@));
                }
            },
            Err(e) => {
                proof {
                    lemma_decode_all_err((i + 1) as nat, n as nat, code_spans_at(data@, text_pool@, start as int));
                }
                return Err(e);
            },
        }
        i = i + 1;
    }
    Ok(out)
}

/// Decode `n` consecutive task records starting at `start`.
fn decode_tasks(data: &[u8], text_pool: &[u8], start: usize, n: usize) -> (r: Result<
    Vec<TaskData>,
    BlobError,
>)
    requires
        start + n * 36 <= data.len(),
    ensures
        match r {
            Ok(v) => decode_all(n as nat, tasks_at(data@, text_pool@, start as int)) == Ok::<
                Seq<TaskView>,
                BlobError,
            >(v@.map_values(|x: TaskData| x@)),
            Err(e) => decode_all(n as nat, tasks_at(data@, text_pool@, start as int)) == Err::<
                Seq<TaskView>,
                BlobError,
            >(e),
        },
{
    let mut out: Vec<TaskData> = Vec::new();
    let mut i: usize = 0;
    assert(out@.map_values(|x: TaskData| x@) =~= Seq::empty());
    while i < n
        invariant
            i <= n,
            start + n * 36 <= data.len(),
            decode_all(i as nat, tasks_at(data@, text_pool@, start as int)) == Ok::<
                Seq<TaskView>,
                BlobError,
            >(out@.map_values(|x: TaskData| x@)),
        decreases n - i,
    {
        let base = start + i * TASK_SIZE;
        match decode_task(data, text_pool, base) {
            Ok(x) => {
                let ghost old_v = out@;
                out.push(x);
                proof {
                    assert(out@.map_values(|x: TaskData| x@) =~= old_v.map_values(|x: TaskData| x@).push(x@));
                }
            },
            Err(e) => {
                proof {
                    lemma_decode_all_err((i + 1) as nat, n as nat, tasks_at(data@, text_pool@, start as int));
                }
                return Err(e);
            },
        }
        i = i + 1;
    }
    Ok(out)
}

/// Decode `n` consecutive embed records starting at `start`.
fn decode_embeds(data: &[u8], text_pool: &[u8], start: usize, n: usize) -> (r: Result<
    Vec<EmbedData>,
    BlobError,
>)
    requires
        start + n * 32 <= data.len(),
    ensures
        match r {
            Ok(v) => decode_all(n as nat, embeds_at(data@, text_pool@, start as int)) == Ok::<
                Seq<SpanView>,
                BlobError,
            >(v@.map_values(|x: EmbedData| x@)),
            Err(e) => decode_all(n as nat, embeds_at(data@, text_pool@, start as int)) == Err::<
                Seq<SpanView>,
                BlobError,
            >(e),
        },
{
    let mut out: Vec<EmbedData> = Vec::new();
    let mut i: usize = 0;
    assert(out@.map_values(|x: EmbedData| x@) =~= Seq::empty());
    while i < n
        invariant
            i <= n,
            start + n * 32 <= data.len(),
            decode_all(i as nat, embeds_at(data@, text_pool@, start as int)) == Ok::<
                Seq<SpanView>,
                BlobError,
            >(out@.map_values(|x: EmbedData| x@)),
        decreases n - i,
    {
        let base = start + i * EMBED_SIZE;
        match decode_embed(data, text_pool, base) {
            Ok(x) => {
                let ghost old_v = out@;
                out.push(x);
                proof {
                    assert(out@.map_values(|x: EmbedData| x@) =~= old_v.map_values(|x: EmbedData| x@).push(x@));
                }
            },
            Err(e) => {
                proof {
                    lemma_decode_all_err((i + 1) as nat, n as nat, embeds_at(data@, text_pool@, start as int));
                }
                return Err(e);
            },
        }
        i = i + 1;
    }
    Ok(out)
}

/// Decode `n` consecutive link records starting at `start`, keeping wiki links
/// and markdown links apart, each in order.
fn decode_links(data: &[u8], text_pool: &[u8], start: usize, n: usize) -> (r: Result<
    (Vec<WikiData>, Vec<MarkdownData>),
    BlobError,
>)
    requires
        start + n * 40 <= data.len(),
    ensures
        match r {
            Ok((w, m)) => exists|links: Seq<LinkView>|
                {
                    &&& decode_all(n as nat, links_at(data@, text_pool@, start as int)) == Ok::<
                        Seq<LinkView>,
                        BlobError,
                    >(links)
                    &&& w@.map_values(|x: WikiData| x@) == wiki_links_of(links)
                    &&& m@.map_values(|x: MarkdownData| x@) == markdown_links_of(links)
                },
            Err(e) => decode_all(n as nat, links_at(data@, text_pool@, start as int)) == Err::<
                Seq<LinkView>,
                BlobError,
            >(e),
        },
{
    let mut wiki_links: Vec<WikiData> = Vec::new();
    let mut markdown_links: Vec<MarkdownData> = Vec::new();
    let ghost mut links: Seq<LinkView> = Seq::empty();
    let mut i: usize = 0;
    while i < n
        invariant
            i <= n,
            start + n * 40 <= data.len(),
            decode_all(i as nat, links_at(data@, text_pool@, start as int)) == Ok::<
                Seq<LinkView>,
                BlobError,
            >(links),
            wiki_links@.map_values(|x: WikiData| x@) == wiki_links_of(links),
            markdown_links@.map_values(|x: MarkdownData| x@) == markdown_links_of(links),
        decreases n - i,
    {
        let base = start + i * LINK_SIZE;
        match decode_link(data, text_pool, base) {
            Ok((Some(w), None)) => {
                let ghost old_w = wiki_links@;
                let ghost old_links = links;
                proof {
                    links = links.push(LinkView::Wiki(w@));
                    assert(links.drop_last() =~= old_links);
                }
                wiki_links.push(w);
                proof {
                    assert(wiki_links@.map_values(|x: WikiData| x@) =~= old_w.map_values(
                        |x: WikiData| x@,
                    ).push(w@));
                }
            },
            Ok((None, Some(m))) => {
                let ghost old_m = markdown_links@;
                let ghost old_links = links;
                proof {
                    links = links.push(LinkView::Markdown(m@));
                    assert(links.drop_last() =~= old_links);
                }
                markdown_links.push(m);
                proof {
                    assert(markdown_links@.map_values(|x: MarkdownData| x@) =~= old_m.map_values(
                        |x: MarkdownData| x@,
                    ).push(m@));
                }
            },
            Ok(_) => {
                proof {
                    assert(false);
                }
                return Err(BlobError::SizeMismatch);
            },
            Err(e) => {
                proof {
                    lemma_decode_all_err((i + 1) as nat, n as nat, links_at(data@, text_pool@, start as int));
                }
                return Err(e);
            },
        }
        i = i + 1;
    }
    Ok((wiki_links, markdown_links))
}

/// Decode every record section of a validated blob, in blob order.
pub fn decode_owned_data(
    data: &[u8],
    header: &BlobHeader,
    offsets: &SectionOffsets,
    text_pool: &[u8],
) -> (r: Result<DecodedOwnedData, BlobError>)
    requires
        spec_validate_blob(data@) == Ok::<BlobHeader, BlobError>(*header),
        *offsets == spec_offsets(*header),
    ensures
        match r {
            Ok(v) => spec_decode(data@, *header, *offsets, text_pool@) == Ok::<DecodedView, BlobError>(v@),
            Err(e) => spec_decode(data@, *header, *offsets, text_pool@) == Err::<DecodedView, BlobError>(e),
        },
{
    assert(expected_blob_size(*header) == data@.len());
    let headings = decode_headings(data, text_pool, offsets.headings, header.heading_count as usize)?;
    let (wiki_links, markdown_links) = decode_links(data, text_pool, offsets.links, header.link_count as usize)?;
    let tags = decode_tags(data, text_pool, offsets.tags, header.tag_count as usize)?;
    let blocks = decode_blocks(data, text_pool, offsets.block_ids, header.block_id_count as usize)?;
    let code_spans = decode_code_spans(data, text_pool, offsets.code_spans, header.code_span_count as usize)?;
    let tasks = decode_tasks(data, text_pool, offsets.tasks, header.task_count as usize)?;
    let embeds = decode_embeds(data, text_pool, offsets.embeds, header.embed_count as usize)?;
    let r = DecodedOwnedData {
        headings,
        wiki_links,
        markdown_links,
        tags,
        blocks,
        code_spans,
        tasks,
        embeds,
    };
    Ok(r)
}

} // verus!
