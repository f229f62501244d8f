//! Building a document index from the records of a byte-offset scanner: the
//! scanner reports headings, links, tags, block ids, code spans, tasks and
//! embeds by byte offset, and the index turns the offsets into line/column
//! positions and gives each heading a slug of its own.

use vstd::prelude::*;
use vstd::string::StringSliceAdditionalSpecFns;
use vstd::utf8::encode_utf8;

use crate::blob::header::{after_hash, before_hash, split_first_hash};
use crate::blob::records::{
    BlockData, CodeSpanData, DecodedOwnedData, EmbedData, HeadingData, MarkdownData, TagData,
    TaskData, WikiData,
};
use crate::text::str_eq;

use super::index::{index_from, DocumentIndex, DocumentView};
use super::lines::{
    byte_offset_line_starts, byte_offset_to_position, increasing, law_line_starts_fit_positions,
    line_of, line_starts_of,
};
use super::slug::{
    alphanumeric_of, dedup_slug, issued, lemma_some_free, lowercase_of, numbered_slug, slug_of,
    slugify,
};
use super::types::{
    clone_opt_string, BlockRefEntry, CalloutEntry, FrontmatterOwnedEntry, LinkDefinitionEntry,
    Position, QueryBlockEntry, Range, XmlTagOwned,
};

verus! {

/// A heading found by the scanner: its text, level and the byte offset of its first `#`.
pub struct ScanHeading {
    pub text: String,
    pub level: u8,
    pub offset: u32,
}

/// Which syntax a scanned link was written in.
pub enum ScanLinkKind {
    Wiki,
    Markdown,
}

/// A link found by the scanner: display text, target, byte offset and syntax.
pub struct ScanLink {
    pub text: String,
    pub target: String,
    pub offset: u32,
    pub kind: ScanLinkKind,
}

/// A tag found by the scanner, without its `#`.
pub struct ScanTag {
    pub name: String,
}

/// A block id found by the scanner, with the byte offset of its `^`.
pub struct ScanBlockId {
    pub id: String,
    pub offset: u32,
}

/// A code span found by the scanner, with its byte range.
pub struct ScanCodeSpan {
    pub text: String,
    pub offset: u32,
    pub end_offset: u32,
}

/// A task found by the scanner, with its state, text and byte range.
pub struct ScanTask {
    pub state: String,
    pub text: String,
    pub offset: u32,
    pub end_offset: u32,
}

/// An embed found by the scanner, with its byte range.
pub struct ScanEmbed {
    pub target: String,
    pub offset: u32,
    pub end_offset: u32,
}

/// A Logseq block reference `((uuid))` found by the scanner, with the byte
/// offset of its first `(`.
pub struct ScanBlockRef {
    pub uuid: String,
    pub offset: u32,
}

/// A callout found by the scanner: its type, optional title and byte range.
pub struct ScanCallout {
    pub callout_type: String,
    pub title: Option<String>,
    pub offset: u32,
    pub end_offset: u32,
}

/// A query block found by the scanner, with its byte range.
pub struct ScanQueryBlock {
    pub query: String,
    pub offset: u32,
    pub end_offset: u32,
}

/// A link reference definition found by the scanner, with its byte range.
pub struct ScanLinkDefinition {
    pub label: String,
    pub url: String,
    pub title: Option<String>,
    pub offset: u32,
    pub end_offset: u32,
}

/// Everything a scan of one document reports.
pub struct ScanResults {
    pub headings: Vec<ScanHeading>,
    pub links: Vec<ScanLink>,
    pub tags: Vec<ScanTag>,
    pub block_ids: Vec<ScanBlockId>,
    pub code_spans: Vec<ScanCodeSpan>,
    pub tasks: Vec<ScanTask>,
    pub embeds: Vec<ScanEmbed>,
    pub block_refs: Vec<ScanBlockRef>,
    pub callouts: Vec<ScanCallout>,
    pub query_blocks: Vec<ScanQueryBlock>,
    pub link_definitions: Vec<ScanLinkDefinition>,
}

/// Number of UTF-8 bytes of a string.
pub open spec fn blen(s: Seq<char>) -> int {
    encode_utf8(s).len() as int
}

/// The line starts of a text, as the `u32` offsets that positions are computed from.
pub open spec fn starts_u32(b: Seq<u8>) -> Seq<u32> {
    line_starts_of(b).map_values(|x: int| x as u32)
}

/// Line of a byte offset.
pub open spec fn line_at(starts: Seq<u32>, off: int) -> u32 {
    line_of(starts, off as u32) as u32
}

/// Column of a byte offset: its distance from the start of its line.
pub open spec fn col_at(starts: Seq<u32>, off: int) -> u32 {
    (off - starts[line_of(starts, off as u32)]) as u32
}

/// Slug of a heading text before de-duplication.
pub open spec fn base_slug(t: Seq<char>) -> Seq<char> {
    slug_of(lowercase_of(t), alphanumeric_of(lowercase_of(t)))
}

/// `k` is the least suffix number whose slug is not yet in `used`.
pub open spec fn is_least_free(used: Seq<Seq<char>>, base: Seq<char>, k: nat) -> bool {
    &&& !used.contains(numbered_slug(base, k))
    &&& forall|j: nat| j < k ==> used.contains(#[trigger] numbered_slug(base, j))
}

/// The first of `base`, `base-1`, `base-2`, ... that `used` does not hold.
pub open spec fn least_free(used: Seq<Seq<char>>, base: Seq<char>) -> Seq<char> {
    numbered_slug(base, choose|k: nat| is_least_free(used, base, k))
}

/// Slugs of headings with these texts, in order: each the least free numbered
/// form of its base slug, given the slugs before it.
pub open spec fn scan_slugs(texts: Seq<Seq<char>>) -> Seq<Seq<char>>
    decreases texts.len(),
{
    if texts.len() == 0 {
        Seq::empty()
    } else {
        let prev = scan_slugs(texts.drop_last());
        prev.push(least_free(prev, base_slug(texts.last())))
    }
}

/// Texts of scanned headings.
pub open spec fn heading_texts(hs: Seq<ScanHeading>) -> Seq<Seq<char>> {
    hs.map_values(|h: ScanHeading| h.text@)
}

/// Byte offset just past a heading's text: `#`s, a space, then the text.
pub open spec fn heading_end(h: ScanHeading) -> int {
    h.offset + h.level + 1 + blen(h.text@)
}

/// Byte offset just past a scanned link: `[text](target)`, `[[target|text]]` or `[[target]]`.
pub open spec fn link_end(l: ScanLink) -> int {
    match l.kind {
        ScanLinkKind::Markdown => l.offset + blen(l.text@) + blen(l.target@) + 4,
        ScanLinkKind::Wiki => if l.text@ != l.target@ {
            l.offset + blen(l.target@) + 1 + blen(l.text@) + 4
        } else {
            l.offset + blen(l.target@) + 4
        },
    }
}

/// The scanned links written in one syntax, in order.
pub open spec fn links_of_kind(ls: Seq<ScanLink>, wiki: bool) -> Seq<ScanLink>
    decreases ls.len(),
{
    if ls.len() == 0 {
        Seq::empty()
    } else {
        let prev = links_of_kind(ls.drop_last(), wiki);
        if (ls.last().kind is Wiki) == wiki {
            prev.push(ls.last())
        } else {
            prev
        }
    }
}

/// The decoded heading for a scanned one with slug `slug`.
pub open spec fn heading_from(d: HeadingData, st: Seq<u32>, h: ScanHeading, slug: Seq<char>) -> bool {
    &&& d.text@ == h.text@
    &&& d.slug@ == slug
    &&& d.level == h.level
    &&& d.start_line == line_at(st, h.offset as int)
    &&& d.start_col == col_at(st, h.offset as int)
    &&& d.end_line == line_at(st, heading_end(h))
    &&& d.end_col == col_at(st, heading_end(h))
}

/// The wiki link for a scanned one: the whole target, no heading, and the
/// text as alias when it differs from the target.
pub open spec fn wiki_from(d: WikiData, st: Seq<u32>, l: ScanLink) -> bool {
    &&& d.target@ == l.target@
    &&& (if l.text@ != l.target@ {
        d.alias matches Some(a) && a@ == l.text@
    } else {
        d.alias is None
    })
    &&& d.heading is None
    &&& d.source_offset == l.offset
    &&& d.text_len == blen(l.text@)
    &&& d.target_len == blen(l.target@)
    &&& d.start_line == line_at(st, l.offset as int)
    &&& d.start_col == col_at(st, l.offset as int)
    &&& d.end_line == line_at(st, link_end(l))
    &&& d.end_col == col_at(st, link_end(l))
}

/// The markdown link for a scanned one: its target split at the first `#`
/// into URL and anchor.
pub open spec fn markdown_from(d: MarkdownData, st: Seq<u32>, l: ScanLink) -> bool {
    &&& d.text@ == l.text@
    &&& d.url@ == before_hash(encode_utf8(l.target@))
    &&& (match after_hash(encode_utf8(l.target@)) {
        Some(a) => d.anchor matches Some(x) && x@ == a,
        None => d.anchor is None,
    })
    &&& d.source_offset == l.offset
    &&& d.text_len == blen(l.text@)
    &&& d.target_len == blen(l.target@)
    &&& d.start_line == line_at(st, l.offset as int)
    &&& d.start_col == col_at(st, l.offset as int)
    &&& d.end_line == line_at(st, link_end(l))
    &&& d.end_col == col_at(st, link_end(l))
}

/// The block id for a scanned one, spanning `^` and the id.
pub open spec fn block_from(d: BlockData, st: Seq<u32>, b: ScanBlockId) -> bool {
    &&& d.id@ == b.id@
    &&& d.source_offset == b.offset
    &&& d.id_len == blen(b.id@)
    &&& d.start_line == line_at(st, b.offset as int)
    &&& d.start_col == col_at(st, b.offset as int)
    &&& d.end_line == line_at(st, b.offset + 1 + blen(b.id@))
    &&& d.end_col == col_at(st, b.offset + 1 + blen(b.id@))
}

/// The code span for a scanned one.
pub open spec fn code_span_from(d: CodeSpanData, st: Seq<u32>, c: ScanCodeSpan) -> bool {
    &&& d.text@ == c.text@
    &&& d.source_offset == c.offset
    &&& d.end_offset == c.end_offset
    &&& d.start_line == line_at(st, c.offset as int)
    &&& d.start_col == col_at(st, c.offset as int)
    &&& d.end_line == line_at(st, c.end_offset as int)
    &&& d.end_col == col_at(st, c.end_offset as int)
}

/// The task for a scanned one.
pub open spec fn task_from(d: TaskData, st: Seq<u32>, t: ScanTask) -> bool {
    &&& d.state@ == t.state@
    &&& d.text@ == t.text@
    &&& d.source_offset == t.offset
    &&& d.end_offset == t.end_offset
    &&& d.start_line == line_at(st, t.offset as int)
    &&& d.start_col == col_at(st, t.offset as int)
    &&& d.end_line == line_at(st, t.end_offset as int)
    &&& d.end_col == col_at(st, t.end_offset as int)
}

/// The embed for a scanned one.
pub open spec fn embed_from(d: EmbedData, st: Seq<u32>, e: ScanEmbed) -> bool {
    &&& d.target@ == e.target@
    &&& d.source_offset == e.offset
    &&& d.end_offset == e.end_offset
    &&& d.start_line == line_at(st, e.offset as int)
    &&& d.start_col == col_at(st, e.offset as int)
    &&& d.end_line == line_at(st, e.end_offset as int)
    &&& d.end_col == col_at(st, e.end_offset as int)
}

/// The records that a scan of a text with line starts `st` amounts to.
pub open spec fn decoded_from_scan(d: DecodedOwnedData, st: Seq<u32>, s: ScanResults) -> bool {
    let slugs = scan_slugs(heading_texts(s.headings@));
    let wikis = links_of_kind(s.links@, true);
    let mds = links_of_kind(s.links@, false);
    &&& d.headings@.len() == s.headings@.len()
    &&& forall|i: int| 0 <= i < s.headings@.len()
        ==> heading_from(#[trigger] d.headings@[i], st, s.headings@[i], slugs[i])
    &&& d.wiki_links@.len() == wikis.len()
    &&& forall|i: int| 0 <= i < wikis.len() ==> wiki_from(#[trigger] d.wiki_links@[i], st, wikis[i])
    &&& d.markdown_links@.len() == mds.len()
    &&& forall|i: int| 0 <= i < mds.len() ==> markdown_from(#[trigger] d.markdown_links@[i], st, mds[i])
    &&& d.tags@.len() == s.tags@.len()
    &&& forall|i: int| 0 <= i < s.tags@.len() ==> (#[trigger] d.tags@[i]).name@ == s.tags@[i].name@
    &&& d.blocks@.len() == s.block_ids@.len()
    &&& forall|i: int| 0 <= i < s.block_ids@.len() ==> block_from(#[trigger] d.blocks@[i], st, s.block_ids@[i])
    &&& d.code_spans@.len() == s.code_spans@.len()
    &&& forall|i: int| 0 <= i < s.code_spans@.len() ==> code_span_from(#[trigger] d.code_spans@[i], st, s.code_spans@[i])
    &&& d.tasks@.len() == s.tasks@.len()
    &&& forall|i: int| 0 <= i < s.tasks@.len() ==> task_from(#[trigger] d.tasks@[i], st, s.tasks@[i])
    &&& d.embeds@.len() == s.embeds@.len()
    &&& forall|i: int| 0 <= i < s.embeds@.len() ==> embed_from(#[trigger] d.embeds@[i], st, s.embeds@[i])
}

/// The range between two byte offsets.
pub open spec fn range_at(st: Seq<u32>, a: int, b: int) -> Range {
    Range {
        start: Position { line: line_at(st, a), character: col_at(st, a) },
        end: Position { line: line_at(st, b), character: col_at(st, b) },
    }
}

/// Two optional strings with the same text, or both absent.
pub open spec fn same_text(a: Option<String>, b: Option<String>) -> bool {
    match a {
        Some(x) => b matches Some(y) && x@ == y@,
        None => b is None,
    }
}

/// The block reference for a scanned one, spanning `((uuid))`.
pub open spec fn block_ref_from(e: BlockRefEntry, st: Seq<u32>, b: ScanBlockRef) -> bool {
    &&& e.uuid@ == b.uuid@
    &&& e.range == range_at(st, b.offset as int, b.offset + blen(b.uuid@) + 4)
}

/// The callout for a scanned one.
pub open spec fn callout_from(e: CalloutEntry, st: Seq<u32>, c: ScanCallout) -> bool {
    &&& e.callout_type@ == c.callout_type@
    &&& same_text(e.title, c.title)
    &&& e.range == range_at(st, c.offset as int, c.end_offset as int)
    &&& e.start_byte == c.offset
    &&& e.end_byte == c.end_offset
}

/// The query block for a scanned one.
pub open spec fn query_block_from(e: QueryBlockEntry, st: Seq<u32>, q: ScanQueryBlock) -> bool {
    &&& e.query@ == q.query@
    &&& e.range == range_at(st, q.offset as int, q.end_offset as int)
    &&& e.start_byte == q.offset
    &&& e.end_byte == q.end_offset
}

/// The link definition for a scanned one.
pub open spec fn link_definition_from(e: LinkDefinitionEntry, st: Seq<u32>, d: ScanLinkDefinition) -> bool {
    &&& e.label@ == d.label@
    &&& e.url@ == d.url@
    &&& same_text(e.title, d.title)
    &&& e.range == range_at(st, d.offset as int, d.end_offset as int)
    &&& e.start_byte == d.offset
    &&& e.end_byte == d.end_offset
}

/// The block references, callouts, query blocks and link definitions of a
/// scan, each in scan order; a scan reports no properties.
pub open spec fn extras_from_scan(v: DocumentView, st: Seq<u32>, s: ScanResults) -> bool {
    &&& v.properties.len() == 0
    &&& v.block_refs.len() == s.block_refs@.len()
    &&& forall|i: int| 0 <= i < s.block_refs@.len() ==> block_ref_from(#[trigger] v.block_refs[i], st, s.block_refs@[i])
    &&& v.callouts.len() == s.callouts@.len()
    &&& forall|i: int| 0 <= i < s.callouts@.len() ==> callout_from(#[trigger] v.callouts[i], st, s.callouts@[i])
    &&& v.query_blocks.len() == s.query_blocks@.len()
    &&& forall|i: int| 0 <= i < s.query_blocks@.len() ==> query_block_from(#[trigger] v.query_blocks[i], st, s.query_blocks@[i])
    &&& v.link_definitions.len() == s.link_definitions@.len()
    &&& forall|i: int| 0 <= i < s.link_definitions@.len() ==> link_definition_from(#[trigger] v.link_definitions[i], st, s.link_definitions@[i])
}

/// The index of a text built from its scan: the scanned records placed by line
/// and column, headings slugged and de-duplicated, links split by syntax; no
/// XML tags, frontmatter or aliases; its block references, callouts, query
/// blocks and link definitions as the scan reported them.
pub open spec fn index_from_scan(v: DocumentView, text: Seq<u8>, s: ScanResults) -> bool {
    &&& extras_from_scan(v, starts_u32(text), s)
    &&& exists|d: DecodedOwnedData|
        decoded_from_scan(d, starts_u32(text), s) && #[trigger] index_from(
            v,
            d,
            Seq::<XmlTagOwned>::empty(),
            Seq::<FrontmatterOwnedEntry>::empty(),
            Seq::<String>::empty(),
        )
}

/// Whether every offset the scan asks to place fits in `u32`.
pub open spec fn scan_offsets_fit(s: ScanResults) -> bool {
    &&& forall|i: int| 0 <= i < s.headings@.len() ==> heading_end(#[trigger] s.headings@[i]) < 4294967296
    &&& forall|i: int| 0 <= i < s.links@.len() ==> link_end(#[trigger] s.links@[i]) < 4294967296
    &&& forall|i: int| 0 <= i < s.block_ids@.len()
        ==> (#[trigger] s.block_ids@[i]).offset + 1 + blen(s.block_ids@[i].id@) < 4294967296
    &&& forall|i: int| 0 <= i < s.block_refs@.len()
        ==> (#[trigger] s.block_refs@[i]).offset + blen(s.block_refs@[i].uuid@) + 4 < 4294967296
}

/// Whether `st` can serve as line starts for placing offsets.
pub open spec fn good_starts(st: Seq<u32>) -> bool {
    &&& st.len() > 0
    &&& st[0] == 0
    &&& increasing(st)
    &&& st.len() <= 4294967296
}

/// Line and column of a byte offset.
fn place(st: &[u32], off: u32) -> (r: (u32, u32))
    requires
        good_starts(st@),
    ensures
        r.0 == line_at(st@, off as int),
        r.1 == col_at(st@, off as int),
{
    let p = byte_offset_to_position(st, off);
    (p.line, p.character)
}

/// Exactly one suffix number is the least free one, so `least_free` names it.
proof fn lemma_least_free(used: Seq<Seq<char>>, base: Seq<char>, k: nat)
    requires
        is_least_free(used, base, k),
    ensures
        least_free(used, base) == numbered_slug(base, k),
{
    let c = choose|m: nat| is_least_free(used, base, m);
    assert(is_least_free(used, base, c));
    if c < k {
        assert(used.contains(numbered_slug(base, c)));
    } else if c > k {
        assert(used.contains(numbered_slug(base, k)));
    }
}

/// Where some numbered form of `base` is free, a least one is.
proof fn lemma_least_free_exists(used: Seq<Seq<char>>, base: Seq<char>, k: nat)
    requires
        !used.contains(numbered_slug(base, k)),
    ensures
        exists|m: nat| is_least_free(used, base, m),
    decreases k,
{
    if forall|j: nat| j < k ==> used.contains(#[trigger] numbered_slug(base, j)) {
        assert(is_least_free(used, base, k));
    } else {
        let j = choose|j: nat| j < k && !used.contains(#[trigger] numbered_slug(base, j));
        lemma_least_free_exists(used, base, j);
    }
}

/// Headings built from one scan never share a slug: each heading gets the
/// least free numbered form of its base slug, which no earlier heading holds.
pub proof fn law_scan_slugs_distinct(texts: Seq<Seq<char>>)
    ensures
        scan_slugs(texts).len() == texts.len(),
        scan_slugs(texts).no_duplicates(),
    decreases texts.len(),
{
    if texts.len() > 0 {
        let prev = scan_slugs(texts.drop_last());
        let b = base_slug(texts.last());
        law_scan_slugs_distinct(texts.drop_last());
        lemma_some_free(prev, b);
        let k = choose|k: nat| k <= prev.len() && !prev.contains(#[trigger] numbered_slug(b, k));
        lemma_least_free_exists(prev, b, k);
        let m = choose|m: nat| is_least_free(prev, b, m);
        assert(is_least_free(prev, b, m));
        let s = prev.push(least_free(prev, b));
        assert(!prev.contains(least_free(prev, b)));
        assert forall|x: int, y: int| 0 <= x < s.len() && 0 <= y < s.len() && x != y implies s[x] != s[y] by {
            if x < prev.len() && y < prev.len() {
                assert(s[x] == prev[x] && s[y] == prev[y]);
            } else if x < prev.len() {
                assert(prev.contains(prev[x]));
            } else {
                assert(prev.contains(prev[y]));
            }
        }
    }
}

/// Headings placed and given unique slugs, in scan order.
fn scan_headings_data(st: &[u32], hs: &Vec<ScanHeading>) -> (out: Vec<HeadingData>)
    requires
        good_starts(st@),
        hs@.len() < usize::MAX,
        forall|i: int| 0 <= i < hs@.len() ==> heading_end(#[trigger] hs@[i]) < 4294967296,
    ensures
        out@.len() == hs@.len(),
        forall|i: int| 0 <= i < hs@.len() ==> heading_from(
            #[trigger] out@[i],
            st@,
            hs@[i],
            scan_slugs(heading_texts(hs@))[i],
        ),
{
    let ghost texts = heading_texts(hs@);
    let mut used: Vec<String> = Vec::new();
    let mut out: Vec<HeadingData> = Vec::new();
    let mut i: usize = 0;
    proof {
        assert(texts.subrange(0, 0) =~= Seq::<Seq<char>>::empty());
        assert(issued(used@) =~= Seq::<Seq<char>>::empty());
    }
    while i < hs.len()
        invariant
            i <= hs@.len() < usize::MAX,
            good_starts(st@),
            texts == heading_texts(hs@),
            forall|j: int| 0 <= j < hs@.len() ==> heading_end(#[trigger] hs@[j]) < 4294967296,
            used@.len() == i,
            issued(used@) == scan_slugs(texts.subrange(0, i as int)),
            out@.len() == i,
            forall|j: int| 0 <= j < i ==> heading_from(#[trigger] out@[j], st@, hs@[j], issued(used@)[j]),
        decreases hs@.len() - i,
    {
        let h = &hs[i];
        assert(heading_end(hs@[i as int]) < 4294967296);
        let base = slugify(h.text.as_str());
        let ghost prev = issued(used@);
        let ghost old_used = used@;
        let slug = dedup_slug(base.as_str(), &mut used);
        proof {
            let k = choose|k: nat| #[trigger] numbered_slug(base@, k) == slug@
                && forall|j: nat| j < k ==> issued(old_used).contains(#[trigger] numbered_slug(base@, j));
            assert(is_least_free(prev, base@, k));
            lemma_least_free(prev, base@, k);
            let sub = texts.subrange(0, i + 1);
            assert(sub.drop_last() =~= texts.subrange(0, i as int));
            assert(sub.last() == h.text@);
            assert(issued(used@) =~= prev.push(slug@));
        }
        let tl = h.text.as_str().len();
        let end: u32 = h.offset + h.level as u32 + 1 + tl as u32;
        let (sl, sc) = place(st, h.offset);
        let (el, ec) = place(st, end);
        let d = HeadingData {
            text: h.text.clone(),
            slug,
            start_line: sl,
            start_col: sc,
            end_line: el,
            end_col: ec,
            level: h.level,
        };
        let ghost before = out@;
        out.push(d);
        proof {
            assert forall|j: int| 0 <= j < i + 1 implies heading_from(
                #[trigger] out@[j],
                st@,
                hs@[j],
                issued(used@)[j],
            ) by {
                if j < i {
                    assert(out@[j] == before[j]);
                    assert(issued(used@)[j] == prev[j]);
                }
            }
        }
        i = i + 1;
    }
    proof {
        assert(texts.subrange(0, hs@.len() as int) =~= texts);
    }
    out
}

/// The wiki link record of a scanned wiki link.
fn wiki_record(st: &[u32], l: &ScanLink) -> (d: WikiData)
    requires
        good_starts(st@),
        l.kind is Wiki,
        link_end(*l) < 4294967296,
    ensures
        wiki_from(d, st@, *l),
{
    let tl = l.text.as_str().len();
    let gl = l.target.as_str().len();
    let (sl, sc) = place(st, l.offset);
    let aliased = !str_eq(l.text.as_str(), l.target.as_str());
    let end: u32 = if aliased {
        l.offset + gl as u32 + 1 + tl as u32 + 4
    } else {
        l.offset + gl as u32 + 4
    };
    let (el, ec) = place(st, end);
    let alias = if aliased {
        Some(l.text.clone())
    } else {
        None
    };
    WikiData {
        target: l.target.clone(),
        alias,
        heading: None,
        source_offset: l.offset,
        text_len: tl as u32,
        target_len: gl as u32,
        start_line: sl,
        start_col: sc,
        end_line: el,
        end_col: ec,
    }
}

/// The markdown link record of a scanned markdown link.
fn markdown_record(st: &[u32], l: &ScanLink) -> (d: MarkdownData)
    requires
        good_starts(st@),
        l.kind is Markdown,
        link_end(*l) < 4294967296,
    ensures
        markdown_from(d, st@, *l),
{
    let tl = l.text.as_str().len();
    let gl = l.target.as_str().len();
    let (sl, sc) = place(st, l.offset);
    let end: u32 = l.offset + tl as u32 + gl as u32 + 4;
    let (el, ec) = place(st, end);
    let (url, anchor) = split_first_hash(l.target.as_str());
    MarkdownData {
        text: l.text.clone(),
        url,
        anchor,
        source_offset: l.offset,
        text_len: tl as u32,
        target_len: gl as u32,
        start_line: sl,
        start_col: sc,
        end_line: el,
        end_col: ec,
    }
}

/// One more link either joins the links of its syntax or leaves them as they are.
proof fn lemma_links_step(ls: Seq<ScanLink>, i: int, wiki: bool)
    requires
        0 <= i < ls.len(),
    ensures
        links_of_kind(ls.subrange(0, i + 1), wiki) == if (ls[i].kind is Wiki) == wiki {
            links_of_kind(ls.subrange(0, i), wiki).push(ls[i])
        } else {
            links_of_kind(ls.subrange(0, i), wiki)
        },
{
    assert(ls.subrange(0, i + 1).drop_last() =~= ls.subrange(0, i));
    assert(ls.subrange(0, i + 1).last() == ls[i]);
}

/// Links placed and split into wiki and markdown links, each in scan order.
fn scan_links_data(st: &[u32], ls: &Vec<ScanLink>) -> (out: (Vec<WikiData>, Vec<MarkdownData>))
    requires
        good_starts(st@),
        forall|i: int| 0 <= i < ls@.len() ==> link_end(#[trigger] ls@[i]) < 4294967296,
    ensures
        out.0@.len() == links_of_kind(ls@, true).len(),
        forall|i: int| 0 <= i < links_of_kind(ls@, true).len() ==> wiki_from(
            #[trigger] out.0@[i],
            st@,
            links_of_kind(ls@, true)[i],
        ),
        out.1@.len() == links_of_kind(ls@, false).len(),
        forall|i: int| 0 <= i < links_of_kind(ls@, false).len() ==> markdown_from(
            #[trigger] out.1@[i],
            st@,
            links_of_kind(ls@, false)[i],
        ),
{
    let mut wikis: Vec<WikiData> = Vec::new();
    let mut mds: Vec<MarkdownData> = Vec::new();
    let mut i: usize = 0;
    proof {
        assert(ls@.subrange(0, 0) =~= Seq::<ScanLink>::empty());
    }
    while i < ls.len()
        invariant
            i <= ls@.len(),
            good_starts(st@),
            forall|j: int| 0 <= j < ls@.len() ==> link_end(#[trigger] ls@[j]) < 4294967296,
            wikis@.len() == links_of_kind(ls@.subrange(0, i as int), true).len(),
            forall|j: int| 0 <= j < wikis@.len() ==> wiki_from(
                #[trigger] wikis@[j],
                st@,
                links_of_kind(ls@.subrange(0, i as int), true)[j],
            ),
            mds@.len() == links_of_kind(ls@.subrange(0, i as int), false).len(),
            forall|j: int| 0 <= j < mds@.len() ==> markdown_from(
                #[trigger] mds@[j],
                st@,
                links_of_kind(ls@.subrange(0, i as int), false)[j],
            ),
        decreases ls@.len() - i,
    {
        let l = &ls[i];
        assert(link_end(ls@[i as int]) < 4294967296);
        proof {
            lemma_links_step(ls@, i as int, true);
            lemma_links_step(ls@, i as int, false);
        }
        let ghost w0 = links_of_kind(ls@.subrange(0, i as int), true);
        let ghost m0 = links_of_kind(ls@.subrange(0, i as int), false);
        match l.kind {
            ScanLinkKind::Wiki => {
                let d = wiki_record(st, l);
                let ghost before = wikis@;
                wikis.push(d);
                proof {
                    assert forall|j: int| 0 <= j < wikis@.len() implies wiki_from(
                        #[trigger] wikis@[j],
                        st@,
                        w0.push(*l)[j],
                    ) by {
                        if j < before.len() {
                            assert(wikis@[j] == before[j]);
                        }
                    }
                }
            },
            ScanLinkKind::Markdown => {
                let d = markdown_record(st, l);
                let ghost before = mds@;
                mds.push(d);
                proof {
                    assert forall|j: int| 0 <= j < mds@.len() implies markdown_from(
                        #[trigger] mds@[j],
                        st@,
                        m0.push(*l)[j],
                    ) by {
                        if j < before.len() {
                            assert(mds@[j] == before[j]);
                        }
                    }
                }
            },
        }
        i = i + 1;
    }
    proof {
        assert(ls@.subrange(0, ls@.len() as int) =~= ls@);
    }
    (wikis, mds)
}

/// Tags in scan order.
fn scan_tags_data(ts: &Vec<ScanTag>) -> (out: Vec<TagData>)
    ensures
        out@.len() == ts@.len(),
        forall|i: int| 0 <= i < ts@.len() ==> (#[trigger] out@[i]).name@ == ts@[i].name@,
{
    let mut out: Vec<TagData> = Vec::new();
    let mut i: usize = 0;
    while i < ts.len()
        invariant
            i <= ts@.len(),
            out@.len() == i,
            forall|j: int| 0 <= j < i ==> (#[trigger] out@[j]).name@ == ts@[j].name@,
        decreases ts@.len() - i,
    {
        out.push(TagData { name: ts[i].name.clone() });
        i = i + 1;
    }
    out
}

/// Block ids placed, in scan order.
fn scan_blocks_data(st: &[u32], bs: &Vec<ScanBlockId>) -> (out: Vec<BlockData>)
    requires
        good_starts(st@),
        forall|i: int| 0 <= i < bs@.len()
            ==> (#[trigger] bs@[i]).offset + 1 + blen(bs@[i].id@) < 4294967296,
    ensures
        out@.len() == bs@.len(),
        forall|i: int| 0 <= i < bs@.len() ==> block_from(#[trigger] out@[i], st@, bs@[i]),
{
    let mut out: Vec<BlockData> = Vec::new();
    let mut i: usize = 0;
    while i < bs.len()
        invariant
            i <= bs@.len(),
            good_starts(st@),
            forall|j: int| 0 <= j < bs@.len()
                ==> (#[trigger] bs@[j]).offset + 1 + blen(bs@[j].id@) < 4294967296,
            out@.len() == i,
            forall|j: int| 0 <= j < i ==> block_from(#[trigger] out@[j], st@, bs@[j]),
        decreases bs@.len() - i,
    {
        let b = &bs[i];
        assert(bs@[i as int].offset + 1 + blen(bs@[i as int].id@) < 4294967296);
        let il = b.id.as_str().len();
        let end: u32 = b.offset + 1 + il as u32;
        let (sl, sc) = place(st, b.offset);
        let (el, ec) = place(st, end);
        out.push(
            BlockData {
                id: b.id.clone(),
                source_offset: b.offset,
                id_len: il as u32,
                start_line: sl,
                start_col: sc,
                end_line: el,
                end_col: ec,
            },
        );
        i = i + 1;
    }
    out
}

/// Code spans placed, in scan order.
fn scan_code_spans_data(st: &[u32], cs: &Vec<ScanCodeSpan>) -> (out: Vec<CodeSpanData>)
    requires
        good_starts(st@),
    ensures
        out@.len() == cs@.len(),
        forall|i: int| 0 <= i < cs@.len() ==> code_span_from(#[trigger] out@[i], st@, cs@[i]),
{
    let mut out: Vec<CodeSpanData> = Vec::new();
    let mut i: usize = 0;
    while i < cs.len()
        invariant
            i <= cs@.len(),
            good_starts(st@),
            out@.len() == i,
            forall|j: int| 0 <= j < i ==> code_span_from(#[trigger] out@[j], st@, cs@[j]),
        decreases cs@.len() - i,
    {
        let c = &cs[i];
        let (sl, sc) = place(st, c.offset);
        let (el, ec) = place(st, c.end_offset);
        out.push(
            CodeSpanData {
                text: c.text.clone(),
                source_offset: c.offset,
                end_offset: c.end_offset,
                start_line: sl,
                start_col: sc,
                end_line: el,
                end_col: ec,
            },
        );
        i = i + 1;
    }
    out
}

/// Tasks placed, in scan order.
fn scan_tasks_data(st: &[u32], ts: &Vec<ScanTask>) -> (out: Vec<TaskData>)
    requires
        good_starts(st@),
    ensures
        out@.len() == ts@.len(),
        forall|i: int| 0 <= i < ts@.len() ==> task_from(#[trigger] out@[i], st@, ts@[i]),
{
    let mut out: Vec<TaskData> = Vec::new();
    let mut i: usize = 0;
    while i < ts.len()
        invariant
            i <= ts@.len(),
            good_starts(st@),
            out@.len() == i,
            forall|j: int| 0 <= j < i ==> task_from(#[trigger] out@[j], st@, ts@[j]),
        decreases ts@.len() - i,
    {
        let t = &ts[i];
        let (sl, sc) = place(st, t.offset);
        let (el, ec) = place(st, t.end_offset);
        out.push(
            TaskData {
                state: t.state.clone(),
                text: t.text.clone(),
                source_offset: t.offset,
                end_offset: t.end_offset,
                start_line: sl,
                start_col: sc,
                end_line: el,
                end_col: ec,
            },
        );
        i = i + 1;
    }
    out
}

/// Embeds placed, in scan order.
fn scan_embeds_data(st: &[u32], es: &Vec<ScanEmbed>) -> (out: Vec<EmbedData>)
    requires
        good_starts(st@),
    ensures
        out@.len() == es@.len(),
        forall|i: int| 0 <= i < es@.len() ==> embed_from(#[trigger] out@[i], st@, es@[i]),
{
    let mut out: Vec<EmbedData> = Vec::new();
    let mut i: usize = 0;
    while i < es.len()
        invariant
            i <= es@.len(),
            good_starts(st@),
            out@.len() == i,
            forall|j: int| 0 <= j < i ==> embed_from(#[trigger] out@[j], st@, es@[j]),
        decreases es@.len() - i,
    {
        let e = &es[i];
        let (sl, sc) = place(st, e.offset);
        let (el, ec) = place(st, e.end_offset);
        out.push(
            EmbedData {
                target: e.target.clone(),
                source_offset: e.offset,
                end_offset: e.end_offset,
                start_line: sl,
                start_col: sc,
                end_line: el,
                end_col: ec,
            },
        );
        i = i + 1;
    }
    out
}

/// The range between two byte offsets, placed by line and column.
fn place_range(st: &[u32], a: u32, b: u32) -> (r: Range)
    requires
        good_starts(st@),
    ensures
        r == range_at(st@, a as int, b as int),
{
    let (al, ac) = place(st, a);
    let (bl, bc) = place(st, b);
    Range::new(Position::new(al, ac), Position::new(bl, bc))
}

/// Block references placed, in scan order.
fn scan_block_refs(st: &[u32], bs: &Vec<ScanBlockRef>) -> (out: Vec<BlockRefEntry>)
    requires
        good_starts(st@),
        forall|i: int| 0 <= i < bs@.len()
            ==> (#[trigger] bs@[i]).offset + blen(bs@[i].uuid@) + 4 < 4294967296,
    ensures
        out@.len() == bs@.len(),
        forall|i: int| 0 <= i < bs@.len() ==> block_ref_from(#[trigger] out@[i], st@, bs@[i]),
{
    let mut out: Vec<BlockRefEntry> = Vec::new();
    let mut i: usize = 0;
    while i < bs.len()
        invariant
            i <= bs@.len(),
            good_starts(st@),
            forall|j: int| 0 <= j < bs@.len()
                ==> (#[trigger] bs@[j]).offset + blen(bs@[j].uuid@) + 4 < 4294967296,
            out@.len() == i,
            forall|j: int| 0 <= j < i ==> block_ref_from(#[trigger] out@[j], st@, bs@[j]),
        decreases bs@.len() - i,
    {
        let b = &bs[i];
        assert(bs@[i as int].offset + blen(bs@[i as int].uuid@) + 4 < 4294967296);
        let ul = b.uuid.as_str().len();
        let end: u32 = b.offset + ul as u32 + 4;
        out.push(BlockRefEntry { uuid: b.uuid.clone(), range: place_range(st, b.offset, end) });
        i = i + 1;
    }
    out
}

/// Callouts placed, in scan order.
fn scan_callouts(st: &[u32], cs: &Vec<ScanCallout>) -> (out: Vec<CalloutEntry>)
    requires
        good_starts(st@),
    ensures
        out@.len() == cs@.len(),
        forall|i: int| 0 <= i < cs@.len() ==> callout_from(#[trigger] out@[i], st@, cs@[i]),
{
    let mut out: Vec<CalloutEntry> = Vec::new();
    let mut i: usize = 0;
    while i < cs.len()
        invariant
            i <= cs@.len(),
            good_starts(st@),
            out@.len() == i,
            forall|j: int| 0 <= j < i ==> callout_from(#[trigger] out@[j], st@, cs@[j]),
        decreases cs@.len() - i,
    {
        let c = &cs[i];
        let title = clone_opt_string(&c.title);
        assert(same_text(title, c.title));
        let range = place_range(st, c.offset, c.end_offset);
        let ghost before = out@;
        out.push(
            CalloutEntry {
                callout_type: c.callout_type.clone(),
                title,
                range,
                start_byte: c.offset as u64,
                end_byte: c.end_offset as u64,
            },
        );
        proof {
            assert forall|j: int| 0 <= j < i + 1 implies callout_from(#[trigger] out@[j], st@, cs@[j]) by {
                if j < i {
                    assert(out@[j] == before[j]);
                }
            }
        }
        i = i + 1;
    }
    out
}

/// Query blocks placed, in scan order.
fn scan_query_blocks(st: &[u32], qs: &Vec<ScanQueryBlock>) -> (out: Vec<QueryBlockEntry>)
    requires
        good_starts(st@),
    ensures
        out@.len() == qs@.len(),
        forall|i: int| 0 <= i < qs@.len() ==> query_block_from(#[trigger] out@[i], st@, qs@[i]),
{
    let mut out: Vec<QueryBlockEntry> = Vec::new();
    let mut i: usize = 0;
    while i < qs.len()
        invariant
            i <= qs@.len(),
            good_starts(st@),
            out@.len() == i,
            forall|j: int| 0 <= j < i ==> query_block_from(#[trigger] out@[j], st@, qs@[j]),
        decreases qs@.len() - i,
    {
        let q = &qs[i];
        let ghost before = out@;
        out.push(
            QueryBlockEntry {
                query: q.query.clone(),
                range: place_range(st, q.offset, q.end_offset),
                start_byte: q.offset as u64,
                end_byte: q.end_offset as u64,
            },
        );
        proof {
            assert forall|j: int| 0 <= j < i + 1 implies query_block_from(#[trigger] out@[j], st@, qs@[j]) by {
                if j < i {
                    assert(out@[j] == before[j]);
                }
            }
        }
        i = i + 1;
    }
    out
}

/// Link definitions placed, in scan order.
fn scan_link_definitions(st: &[u32], ds: &Vec<ScanLinkDefinition>) -> (out: Vec<LinkDefinitionEntry>)
    requires
        good_starts(st@),
    ensures
        out@.len() == ds@.len(),
        forall|i: int| 0 <= i < ds@.len() ==> link_definition_from(#[trigger] out@[i], st@, ds@[i]),
{
    let mut out: Vec<LinkDefinitionEntry> = Vec::new();
    let mut i: usize = 0;
    while i < ds.len()
        invariant
            i <= ds@.len(),
            good_starts(st@),
            out@.len() == i,
            forall|j: int| 0 <= j < i ==> link_definition_from(#[trigger] out@[j], st@, ds@[j]),
        decreases ds@.len() - i,
    {
        let d = &ds[i];
        let title = clone_opt_string(&d.title);
        assert(same_text(title, d.title));
        let range = place_range(st, d.offset, d.end_offset);
        let ghost before = out@;
        out.push(
            LinkDefinitionEntry {
                label: d.label.clone(),
                url: d.url.clone(),
                title,
                range,
                start_byte: d.offset as u64,
                end_byte: d.end_offset as u64,
            },
        );
        proof {
            assert forall|j: int| 0 <= j < i + 1 implies link_definition_from(#[trigger] out@[j], st@, ds@[j]) by {
                if j < i {
                    assert(out@[j] == before[j]);
                }
            }
        }
        i = i + 1;
    }
    out
}

impl DocumentIndex {
    /// Build a document index from what a byte-offset scanner reported for
    /// `text`. Offsets become line/column positions; each heading gets its
    /// slug, numbered (`-1`, `-2`, ...) where an earlier heading has it; wiki
    /// links keep their whole target, with the display text as alias when it
    /// differs; markdown link targets split at the first `#` into URL and
    /// anchor. The scan carries no XML tags, frontmatter or aliases.
    pub fn from_scan_results(text: &str, scan: ScanResults) -> (r: DocumentIndex)
        requires
            text.spec_bytes().len() < 4294967296,
            scan.headings@.len() < usize::MAX,
            scan_offsets_fit(scan),
        ensures
            index_from_scan(r@, text.spec_bytes(), scan),
    {
        let st = byte_offset_line_starts(text);
        proof {
            let b = text.spec_bytes();
            law_line_starts_fit_positions(b);
            assert(st@ =~= starts_u32(b)) by {
                assert forall|i: int| 0 <= i < st@.len() implies st@[i] == starts_u32(b)[i] by {
                    assert(st@.map_values(|x: u32| x as int)[i] == line_starts_of(b)[i]);
                }
            }
            assert(st@[0] == 0) by {
                assert(st@.map_values(|x: u32| x as int)[0] == line_starts_of(b)[0]);
            }
            assert(increasing(st@)) by {
                assert forall|i: int, j: int| 0 <= i < j < st@.len() implies st@[i] < st@[j] by {
                    assert(st@.map_values(|x: u32| x as int)[i] == line_starts_of(b)[i]);
                    assert(st@.map_values(|x: u32| x as int)[j] == line_starts_of(b)[j]);
                }
            }
        }
        let (wiki_links, markdown_links) = scan_links_data(st.as_slice(), &scan.links);
        let dec = DecodedOwnedData {
            headings: scan_headings_data(st.as_slice(), &scan.headings),
            wiki_links,
            markdown_links,
            tags: scan_tags_data(&scan.tags),
            blocks: scan_blocks_data(st.as_slice(), &scan.block_ids),
            code_spans: scan_code_spans_data(st.as_slice(), &scan.code_spans),
            tasks: scan_tasks_data(st.as_slice(), &scan.tasks),
            embeds: scan_embeds_data(st.as_slice(), &scan.embeds),
        };
        let idx = DocumentIndex::build_index(&dec, Vec::new(), Vec::new(), Vec::new());
        assert(decoded_from_scan(dec, starts_u32(text.spec_bytes()), scan));
        let block_refs = scan_block_refs(st.as_slice(), &scan.block_refs);
        let callouts = scan_callouts(st.as_slice(), &scan.callouts);
        let query_blocks = scan_query_blocks(st.as_slice(), &scan.query_blocks);
        let link_definitions = scan_link_definitions(st.as_slice(), &scan.link_definitions);
        let r = idx.with_extras(Vec::new(), block_refs, callouts, query_blocks, link_definitions);
        assert(index_from(r@, dec, Seq::empty(), Seq::empty(), Seq::empty()));
        r
    }
}

} // verus!
