//! The realm index: markdown documents indexed together, with cross-document
//! lookups of headings, blocks, tags, code spans and journal dates.

use std::collections::{BTreeMap, HashMap};
use lasso::Rodeo;
use vstd::prelude::*;
use vstd::string::StringSliceAdditionalSpecFns;
use vstd::utf8::encode_utf8;

use crate::document::index::{DocumentIndex, DocumentView};
use crate::document::types::{BlockEntry, CodeSpanEntry, HeadingEntry, TagEntry};

use super::interner::{
    interned, interner_get, interner_get_or_intern, interner_len, interner_new, interner_resolve,
};
use super::journal::{detect_journal_date, journal_date_of};
use super::stem::{ascii_lower, ascii_lowercase, stem_of, uri_stem};
use super::tables::{
    copy_list, drop_all, drop_keys, drop_uri, lemma_drop_uri, list_of, lists, push_date_entry,
    push_entry, pushed, retain_or_remove_btree, retain_or_remove_hash, retained, UriEntry,
};
use super::types::{ResolvedBlock, ResolvedCodeSpan, ResolvedHeading};

use super::laws::law_journal_month_sorted_by_day;
use super::tag_laws::{
    law_add_keeps_tags_exact, law_empty_realm_tags_exact, law_remove_keeps_tags_exact,
    law_update_keeps_tags_exact, law_tag_count_is_document_count, docs_with_tag, tag_table_exact,
};

verus! {

broadcast use {
    vstd::std_specs::hash::group_hash_axioms,
    vstd::std_specs::btree::group_btree_axioms,
    vstd::seq_lib::group_seq_properties,
};

/// The list a table holds for string `s`: the list of its key when `s` is
/// interned, else nothing.
pub open spec fn lookup<V>(table: Map<usize, Seq<V>>, strings: Seq<Seq<char>>, s: Seq<char>) -> Seq<V> {
    if strings.contains(s) {
        list_of(table, strings.index_of(s) as usize)
    } else {
        Seq::empty()
    }
}

/// The realm's copy of a heading.
pub open spec fn resolved_heading(h: HeadingEntry) -> ResolvedHeading {
    ResolvedHeading { text: h.text, slug: h.slug, level: h.level, range: h.range }
}

/// The realm's copy of a block.
pub open spec fn resolved_block(b: BlockEntry) -> ResolvedBlock {
    ResolvedBlock { id: b.id, range: b.range }
}

/// The realm's copy of a code span.
pub open spec fn resolved_code_span(c: CodeSpanEntry) -> ResolvedCodeSpan {
    ResolvedCodeSpan { text: c.text, range: c.range, start_byte: c.start_byte, end_byte: c.end_byte }
}

/// The heading entries that document `uri` with headings `hs` adds under `slug`,
/// in document order.
pub open spec fn heading_entries(uri: String, hs: Seq<HeadingEntry>, slug: Seq<char>) -> Seq<
    (String, ResolvedHeading),
>
    decreases hs.len(),
{
    if hs.len() == 0 {
        Seq::empty()
    } else if hs.last().slug@ == slug {
        heading_entries(uri, hs.drop_last(), slug).push((uri, resolved_heading(hs.last())))
    } else {
        heading_entries(uri, hs.drop_last(), slug)
    }
}

/// The block entries that document `uri` with blocks `bs` adds under `id`.
pub open spec fn block_entries(uri: String, bs: Seq<BlockEntry>, id: Seq<char>) -> Seq<
    (String, ResolvedBlock),
>
    decreases bs.len(),
{
    if bs.len() == 0 {
        Seq::empty()
    } else if bs.last().id@ == id {
        block_entries(uri, bs.drop_last(), id).push((uri, resolved_block(bs.last())))
    } else {
        block_entries(uri, bs.drop_last(), id)
    }
}

/// Whether one of `ts` is tag `name`.
pub open spec fn has_tag(ts: Seq<TagEntry>, name: Seq<char>) -> bool {
    exists|i: int| 0 <= i < ts.len() && (#[trigger] ts[i]).name@ == name
}

/// The entries that document `uri` with tags `ts` adds under tag `name`: the
/// document once when it has the tag.
pub open spec fn tag_entries(uri: String, ts: Seq<TagEntry>, name: Seq<char>) -> Seq<String> {
    if has_tag(ts, name) {
        seq![uri]
    } else {
        Seq::empty()
    }
}

/// Index of the first code span with text `text`, or -1.
pub open spec fn first_span(cs: Seq<CodeSpanEntry>, text: Seq<char>) -> int
    decreases cs.len(),
{
    if cs.len() == 0 {
        -1
    } else if first_span(cs.drop_last(), text) >= 0 {
        first_span(cs.drop_last(), text)
    } else if cs.last().text@ == text {
        cs.len() - 1
    } else {
        -1
    }
}

/// The entries that document `uri` with code spans `cs` adds under `text`: its
/// first code span with that text.
pub open spec fn code_span_entries(uri: String, cs: Seq<CodeSpanEntry>, text: Seq<char>) -> Seq<
    (String, ResolvedCodeSpan),
> {
    if first_span(cs, text) >= 0 {
        seq![(uri, resolved_code_span(cs[first_span(cs, text)]))]
    } else {
        Seq::empty()
    }
}

/// The entries that document `uri` adds under journal date `d`.
pub open spec fn date_entries(uri: String, d: (u16, u8, u8)) -> Seq<String> {
    if journal_date_of(encode_utf8(uri@)) == Some(d) {
        seq![uri]
    } else {
        Seq::empty()
    }
}

/// The heading slugs of a document.
pub open spec fn slugs_of(v: DocumentView) -> Seq<Seq<char>> {
    v.headings.map_values(|h: HeadingEntry| h.slug@)
}

/// The block ids of a document.
pub open spec fn block_ids_of(v: DocumentView) -> Seq<Seq<char>> {
    v.blocks.map_values(|b: BlockEntry| b.id@)
}

/// The tag names of a document.
pub open spec fn tag_names_of(v: DocumentView) -> Seq<Seq<char>> {
    v.tags.map_values(|t: TagEntry| t.name@)
}

/// The code span texts of a document.
pub open spec fn span_texts_of(v: DocumentView) -> Seq<Seq<char>> {
    v.code_spans.map_values(|c: CodeSpanEntry| c.text@)
}

/// Whether document `u` is among `docs` and `names` of it holds `s`.
pub open spec fn owned_by(
    docs: Seq<(String, DocumentView)>,
    u: Seq<char>,
    names: spec_fn(DocumentView) -> Seq<Seq<char>>,
    s: Seq<char>,
) -> bool {
    exists|i: int| 0 <= i < docs.len() && docs[i].0@ == u && (#[trigger] names(docs[i].1)).contains(s)
}

/// A table keyed by interned strings is sound: its keys are interned, its lists
/// are not empty, and each entry comes from a document in the realm whose
/// `names` hold the key's string.
pub open spec fn sound<V: UriEntry>(
    t: Map<usize, Seq<V>>,
    strings: Seq<Seq<char>>,
    docs: Seq<(String, DocumentView)>,
    names: spec_fn(DocumentView) -> Seq<Seq<char>>,
) -> bool {
    forall|k: usize|
        #[trigger] t.contains_key(k) ==> k < strings.len() && t[k].len() > 0 && (forall|j: int|
            0 <= j < t[k].len() ==> owned_by(docs, (#[trigger] t[k][j]).entry_uri(), names, strings[k as int]))
}

/// The date table is sound: its lists are not empty, and each lists documents
/// of the realm whose URI names that journal date.
pub open spec fn dates_sound(t: Map<(u16, u8, u8), Seq<String>>, docs: Seq<(String, DocumentView)>) -> bool {
    forall|d: (u16, u8, u8)|
        #[trigger] t.contains_key(d) ==> t[d].len() > 0 && (forall|j: int|
            0 <= j < t[d].len() ==> journal_date_of(encode_utf8((#[trigger] t[d][j])@)) == Some(d)
                && (exists|i: int| 0 <= i < docs.len() && docs[i].0@ == t[d][j]@))
}

/// Mathematical model of a realm index.
pub ghost struct RealmView {
    /// The interned strings; a string's key is its position.
    pub interned: Seq<Seq<char>>,
    /// The documents with their URIs, in the order they were (last) added.
    pub docs: Seq<(String, DocumentView)>,
    /// Headings by interned slug.
    pub headings: Map<usize, Seq<(String, ResolvedHeading)>>,
    /// Blocks by interned id.
    pub blocks: Map<usize, Seq<(String, ResolvedBlock)>>,
    /// Documents by interned tag name.
    pub tags: Map<usize, Seq<String>>,
    /// Code spans by interned text.
    pub code_spans: Map<usize, Seq<(String, ResolvedCodeSpan)>>,
    /// Journal documents by date.
    pub dates: Map<(u16, u8, u8), Seq<String>>,
    /// Documents by interned file stem (see `uri_stem`).
    pub stems: Map<usize, Seq<String>>,
}

/// A multi-document index: documents by URI and cross-document tables of
/// headings, blocks, tags, code spans, journal dates and file stems. Each table entry is an
/// owned copy that names the document it came from.
pub struct RealmIndex {
    interner: Rodeo,
    docs: Vec<(String, DocumentIndex)>,
    slug_to_headings: HashMap<usize, Vec<(String, ResolvedHeading)>>,
    block_to_location: HashMap<usize, Vec<(String, ResolvedBlock)>>,
    tag_to_docs: HashMap<usize, Vec<String>>,
    code_span_to_docs: HashMap<usize, Vec<(String, ResolvedCodeSpan)>>,
    date_to_docs: BTreeMap<(u16, u8, u8), Vec<String>>,
    stem_to_uris: HashMap<usize, Vec<String>>,
}

/// The documents of a realm with their views.
pub open spec fn docs_view(docs: Seq<(String, DocumentIndex)>) -> Seq<(String, DocumentView)> {
    docs.map_values(|e: (String, DocumentIndex)| (e.0, e.1@))
}

impl View for RealmIndex {
    type V = RealmView;

    closed spec fn view(&self) -> RealmView {
        RealmView {
            interned: interned(self.interner),
            docs: docs_view(self.docs@),
            headings: lists(self.slug_to_headings@),
            blocks: lists(self.block_to_location@),
            tags: lists(self.tag_to_docs@),
            code_spans: lists(self.code_span_to_docs@),
            dates: lists(self.date_to_docs@),
            stems: lists(self.stem_to_uris@),
        }
    }
}

/// Whether no two documents share a URI.
pub open spec fn unique_uris(docs: Seq<(String, DocumentView)>) -> bool {
    forall|i: int, j: int| 0 <= i < j < docs.len() ==> (#[trigger] docs[i]).0@ != (#[trigger] docs[j]).0@
}

/// The invariant of a realm view.
pub open spec fn realm_wf(v: RealmView) -> bool {
    &&& v.interned.no_duplicates()
    &&& v.interned.len() < 4294967295
    &&& unique_uris(v.docs)
    &&& sound(v.headings, v.interned, v.docs, |d: DocumentView| slugs_of(d))
    &&& sound(v.blocks, v.interned, v.docs, |d: DocumentView| block_ids_of(d))
    &&& sound(v.tags, v.interned, v.docs, |d: DocumentView| tag_names_of(d))
    &&& sound(v.code_spans, v.interned, v.docs, |d: DocumentView| span_texts_of(d))
    &&& dates_sound(v.dates, v.docs)
    &&& stems_sound(v.stems, v.interned, v.docs)
}

impl RealmIndex {
    /// The invariant of the tables, which every operation keeps.
    pub open spec fn wf(&self) -> bool {
        realm_wf(self@)
    }

    /// Create an empty realm index.
    pub fn new() -> (r: Self)
        ensures
            r@.interned.len() == 0,
            r@.docs.len() == 0,
            r@.headings.is_empty(),
            r@.blocks.is_empty(),
            r@.tags.is_empty(),
            r@.code_spans.is_empty(),
            r@.dates.is_empty(),
            r@.stems.is_empty(),
            r.wf(),
            tag_table_exact(r@),
    {
        let r = RealmIndex {
            interner: interner_new(),
            docs: Vec::new(),
            slug_to_headings: HashMap::new(),
            block_to_location: HashMap::new(),
            tag_to_docs: HashMap::new(),
            code_span_to_docs: HashMap::new(),
            date_to_docs: BTreeMap::new(),
            stem_to_uris: HashMap::new(),
        };
        assert(r@.headings =~= Map::empty());
        assert(r@.blocks =~= Map::empty());
        assert(r@.tags =~= Map::empty());
        assert(r@.code_spans =~= Map::empty());
        assert(r@.dates =~= Map::empty());
        assert(r@.stems =~= Map::empty());
        proof {
            law_empty_realm_tags_exact(r@);
        }
        r
    }

    /// Number of documents in the realm.
    pub fn document_count(&self) -> (n: usize)
        ensures
            n == self@.docs.len(),
    {
        self.docs.len()
    }

    /// Number of markdown documents in the realm: all of its documents.
    pub fn markdown_count(&self) -> (n: usize)
        ensures
            n == self@.docs.len(),
    {
        self.docs.len()
    }

    /// Number of structured documents in the realm: none, as this realm
    /// holds markdown documents only.
    pub fn structured_count(&self) -> (n: usize)
        ensures
            n == 0,
    {
        0
    }

    /// Number of distinct strings the interner holds (slugs, block ids, tags,
    /// code span texts).
    pub fn interner_len(&self) -> (n: usize)
        ensures
            n == self@.interned.len(),
    {
        interner_len(&self.interner)
    }
}

impl Default for RealmIndex {
    fn default() -> (r: Self)
        ensures
            r@.interned.len() == 0,
            r@.docs.len() == 0,
            r@.headings.is_empty(),
            r@.blocks.is_empty(),
            r@.tags.is_empty(),
            r@.code_spans.is_empty(),
            r@.dates.is_empty(),
            r@.stems.is_empty(),
            r.wf(),
    {
        RealmIndex::new()
    }
}

/// Position of document `u` among `docs`, or -1.
pub open spec fn doc_pos(docs: Seq<(String, DocumentView)>, u: Seq<char>) -> int
    decreases docs.len(),
{
    if docs.len() == 0 {
        -1
    } else if docs.last().0@ == u {
        docs.len() - 1
    } else {
        doc_pos(docs.drop_last(), u)
    }
}

/// `doc_pos` is -1 or the position of a document with that URI.
pub proof fn lemma_doc_pos(docs: Seq<(String, DocumentView)>, u: Seq<char>)
    ensures
        -1 <= doc_pos(docs, u) < docs.len(),
        doc_pos(docs, u) >= 0 ==> docs[doc_pos(docs, u)].0@ == u,
        doc_pos(docs, u) == -1 <==> forall|i: int| 0 <= i < docs.len() ==> (#[trigger] docs[i]).0@ != u,
    decreases docs.len(),
{
    if docs.len() > 0 && docs.last().0@ != u {
        lemma_doc_pos(docs.drop_last(), u);
        assert forall|i: int| 0 <= i < docs.len() - 1 implies docs.drop_last()[i] == docs[i] by {}
    }
}

/// In a sequence without duplicates, the position of an element is its index.
pub(crate) proof fn lemma_index_of(s: Seq<Seq<char>>, k: int)
    requires
        s.no_duplicates(),
        0 <= k < s.len(),
    ensures
        s.contains(s[k]),
        s.index_of(s[k]) == k,
{
    assert(s.contains(s[k]));
    let i = s.index_of(s[k]);
    assert(0 <= i < s.len() && s[i] == s[k]);
}

/// The entries of each of days `1..=day` of a month, with their day, in day order.
pub open spec fn month_entries(dates: Map<(u16, u8, u8), Seq<String>>, year: u16, month: u8, day: nat) -> Seq<
    (String, u8),
>
    decreases day,
{
    if day == 0 {
        Seq::empty()
    } else {
        month_entries(dates, year, month, (day - 1) as nat) + list_of(
            dates,
            (year, month, day as u8),
        ).map_values(|u: String| (u, day as u8))
    }
}

/// Tag usage counts: each interned tag name below `n` with a list, with the
/// number of documents that have it, in interning order.
pub open spec fn tag_counts_of(tags: Map<usize, Seq<String>>, strings: Seq<Seq<char>>, n: nat) -> Seq<
    (Seq<char>, nat),
>
    decreases n,
{
    if n == 0 {
        Seq::empty()
    } else if tags.contains_key((n - 1) as usize) {
        tag_counts_of(tags, strings, (n - 1) as nat).push(
            (strings[n - 1], tags[(n - 1) as usize].len()),
        )
    } else {
        tag_counts_of(tags, strings, (n - 1) as nat)
    }
}

impl RealmIndex {
    /// The list of a table for an interned string.
    fn list_for<V: UriEntry>(&self, t: &HashMap<usize, Vec<V>>, s: &str) -> (r: Vec<V>)
        requires
            interned(self.interner).no_duplicates(),
        ensures
            r@ == lookup(lists(t@), interned(self.interner), s@),
    {
        match interner_get(&self.interner, s) {
            None => Vec::new(),
            Some(k) => {
                proof {
                    lemma_index_of(interned(self.interner), k as int);
                }
                match t.get(&k) {
                    Some(v) => copy_list(v),
                    None => Vec::new(),
                }
            },
        }
    }

    /// Look up a heading by slug across all documents.
    pub fn lookup_heading(&self, slug: &str) -> (r: Vec<(String, ResolvedHeading)>)
        requires
            self.wf(),
        ensures
            r@ == lookup(self@.headings, self@.interned, slug@),
    {
        self.list_for(&self.slug_to_headings, slug)
    }

    /// Look up a block by id across all documents: the first document that has it.
    pub fn lookup_block(&self, id: &str) -> (r: Option<(String, ResolvedBlock)>)
        requires
            self.wf(),
        ensures
            r == (if lookup(self@.blocks, self@.interned, id@).len() > 0 {
                Some(lookup(self@.blocks, self@.interned, id@)[0])
            } else {
                None
            }),
    {
        let all = self.list_for(&self.block_to_location, id);
        if all.len() > 0 {
            Some(all[0].copy())
        } else {
            None
        }
    }

    /// The document a page name names: the first one added whose file stem
    /// is the page name, compared in ASCII lowercase.
    pub fn find_uri_by_stem(&self, target: &str) -> (r: Option<String>)
        requires
            self.wf(),
        ensures
            r == first_by_stem(self@, ascii_lower(target@)),
    {
        let lowered = ascii_lowercase(target);
        let all = self.list_for(&self.stem_to_uris, lowered.as_str());
        if all.len() > 0 {
            Some(all[0].clone())
        } else {
            None
        }
    }

    /// Look up the documents containing a code span by its text.
    pub fn lookup_code_span(&self, text: &str) -> (r: Vec<(String, ResolvedCodeSpan)>)
        requires
            self.wf(),
        ensures
            r@ == lookup(self@.code_spans, self@.interned, text@),
    {
        self.list_for(&self.code_span_to_docs, text)
    }

    /// Tag usage counts across all documents: each tag with the number of
    /// documents that have it.
    pub fn tag_counts(&self) -> (r: Vec<(String, usize)>)
        requires
            self.wf(),
        ensures
            r@.map_values(|e: (String, usize)| (e.0@, e.1 as nat)) == tag_counts_of(
                self@.tags,
                self@.interned,
                self@.interned.len(),
            ),
            tag_table_exact(self@) ==> forall|j: int| 0 <= j < r@.len() ==> (#[trigger] r@[j]).1 == docs_with_tag(
                self@.docs,
                r@[j].0@,
            ).len(),
    {
        let n = interner_len(&self.interner);
        let mut out: Vec<(String, usize)> = Vec::new();
        let mut k: usize = 0;
        while k < n
            invariant
                n == interned(self.interner).len(),
                n < 4294967295,
                k <= n,
                out@.map_values(|e: (String, usize)| (e.0@, e.1 as nat)) == tag_counts_of(
                    lists(self.tag_to_docs@),
                    interned(self.interner),
                    k as nat,
                ),
            decreases n - k,
        {
            let ghost before = out@;
            match self.tag_to_docs.get(&k) {
                Some(v) => {
                    let name = interner_resolve(&self.interner, k).to_owned();
                    out.push((name, v.len()));
                    assert(out@.map_values(|e: (String, usize)| (e.0@, e.1 as nat)) =~= before.map_values(
                        |e: (String, usize)| (e.0@, e.1 as nat),
                    ).push((interned(self.interner)[k as int], v@.len())));
                },
                None => {},
            }
            k = k + 1;
        }
        proof {
            if tag_table_exact(self@) {
                law_tag_count_is_document_count(self@);
                let c = tag_counts_of(self@.tags, self@.interned, self@.interned.len());
                assert forall|j: int| 0 <= j < out@.len() implies (#[trigger] out@[j]).1 == docs_with_tag(
                    self@.docs,
                    out@[j].0@,
                ).len() by {
                    assert(out@.map_values(|e: (String, usize)| (e.0@, e.1 as nat))[j] == c[j]);
                }
            }
        }
        out
    }

    /// The document indexed under `uri`, if any.
    pub fn get_document(&self, uri: &str) -> (r: Option<&DocumentIndex>)
        ensures
            doc_pos(self@.docs, uri@) == -1 ==> r is None,
            doc_pos(self@.docs, uri@) >= 0 ==> (r matches Some(d) && d@ == self@.docs[doc_pos(
                self@.docs,
                uri@,
            )].1),
    {
        match self.position_of(uri) {
            Some(i) => Some(&self.docs[i].1),
            None => None,
        }
    }

    /// Position of document `uri`.
    fn position_of(&self, uri: &str) -> (r: Option<usize>)
        ensures
            match r {
                Some(i) => doc_pos(self@.docs, uri@) == i && i < self.docs@.len(),
                None => doc_pos(self@.docs, uri@) == -1,
            },
    {
        let mut i = self.docs.len();
        let ghost dv = docs_view(self.docs@);
        assert(dv.subrange(0, i as int) =~= dv);
        while i > 0
            invariant
                i <= self.docs@.len(),
                dv == docs_view(self.docs@),
                doc_pos(dv, uri@) == doc_pos(dv.subrange(0, i as int), uri@),
            decreases i,
        {
            assert(dv.subrange(0, i as int).drop_last() =~= dv.subrange(0, i - 1));
            if crate::text::str_eq(self.docs[i - 1].0.as_str(), uri) {
                return Some(i - 1);
            }
            i = i - 1;
        }
        None
    }

    /// All documents with their URIs.
    pub fn iter_documents(&self) -> (r: Vec<(&String, &DocumentIndex)>)
        ensures
            r@.len() == self@.docs.len(),
            forall|i: int| 0 <= i < r@.len() ==> *(#[trigger] r@[i]).0 == self@.docs[i].0 && r@[i].1@ == self@.docs[i].1,
    {
        let mut out: Vec<(&String, &DocumentIndex)> = Vec::new();
        let mut i: usize = 0;
        while i < self.docs.len()
            invariant
                i <= self.docs@.len(),
                out@.len() == i,
                forall|k: int| 0 <= k < i ==> *(#[trigger] out@[k]).0 == self@.docs[k].0 && out@[k].1@ == self@.docs[k].1,
            decreases self.docs@.len() - i,
        {
            out.push((&self.docs[i].0, &self.docs[i].1));
            i = i + 1;
        }
        out
    }

    /// The journal documents of a month with their day, by day.
    pub fn lookup_journal_by_month(&self, year: u16, month: u8) -> (r: Vec<(String, u8)>)
        ensures
            r@ == month_entries(self@.dates, year, month, 31),
            forall|i: int, j: int| 0 <= i < j < r@.len() ==> (#[trigger] r@[i]).1 <= (#[trigger] r@[j]).1,
    {
        proof {
            law_journal_month_sorted_by_day(self@.dates, year, month);
        }
        let mut out: Vec<(String, u8)> = Vec::new();
        let mut day: u8 = 1;
        while day <= 31
            invariant
                1 <= day <= 32,
                out@ == month_entries(lists(self.date_to_docs@), year, month, (day - 1) as nat),
            decreases 32 - day,
        {
            let ghost before = out@;
            match self.date_to_docs.get(&(year, month, day)) {
                Some(list) => {
                    let mut j: usize = 0;
                    while j < list.len()
                        invariant
                            j <= list@.len(),
                            out@ == before + list@.subrange(0, j as int).map_values(|u: String| (u, day)),
                        decreases list@.len() - j,
                    {
                        out.push((list[j].clone(), day));
                        assert(list@.subrange(0, j + 1).map_values(|u: String| (u, day)) =~= list@.subrange(
                            0,
                            j as int,
                        ).map_values(|u: String| (u, day)).push((list@[j as int], day)));
                        j = j + 1;
                    }
                    assert(list@.subrange(0, list@.len() as int) =~= list@);
                },
                None => {},
            }
            assert(out@ =~= month_entries(lists(self.date_to_docs@), year, month, day as nat));
            day = day + 1;
        }
        out
    }

    /// The journal date of document `uri`, when it is in the realm and names one.
    pub fn journal_date(&self, uri: &str) -> (r: Option<(u16, u8, u8)>)
        ensures
            r == (if doc_pos(self@.docs, uri@) >= 0 {
                journal_date_of(uri.spec_bytes())
            } else {
                None
            }),
    {
        match self.position_of(uri) {
            Some(_) => detect_journal_date(uri),
            None => None,
        }
    }
}

/// The views of a sequence of string slices.
pub open spec fn strs(v: Seq<&str>) -> Seq<Seq<char>> {
    v.map_values(|x: &str| x@)
}

/// The keys of the interned strings among `names`.
pub open spec fn name_keys(strings: Seq<Seq<char>>, names: Seq<Seq<char>>) -> Set<usize> {
    Set::new(|k: usize| k < strings.len() && names.contains(strings[k as int]))
}

/// Dropping entries of `u` under one more key.
proof fn lemma_retained_drop_keys<V: UriEntry>(t: Map<usize, Seq<V>>, u: Seq<char>, ks: Set<usize>, k: usize)
    ensures
        retained(drop_keys(t, u, ks), k, u) == drop_keys(t, u, ks.insert(k)),
{
    if t.contains_key(k) {
        lemma_drop_uri(t[k], u);
    }
    assert(retained(drop_keys(t, u, ks), k, u) =~= drop_keys(t, u, ks.insert(k)));
}

/// Every entry pushed under `s` is one of `entries` whose name is `s`.
proof fn lemma_pushed<V>(names: Seq<Seq<char>>, entries: Seq<V>, s: Seq<char>)
    requires
        names.len() == entries.len(),
    ensures
        forall|j: int| 0 <= j < pushed(names, entries, s).len() ==> exists|i: int| 0 <= i < names.len() && names[i] == s && entries[i] == #[trigger] pushed(names, entries, s)[j],
        !names.contains(s) ==> pushed(names, entries, s).len() == 0,
    decreases names.len(),
{
    if names.len() > 0 {
        let np = names.drop_last();
        let ep = entries.drop_last();
        lemma_pushed(np, ep, s);
        let p = pushed(np, ep, s);
        assert forall|j: int| 0 <= j < pushed(names, entries, s).len() implies exists|i: int| 0 <= i < names.len() && names[i] == s && entries[i] == #[trigger] pushed(names, entries, s)[j] by {
            if j < p.len() {
                let i = choose|i: int| 0 <= i < np.len() && np[i] == s && ep[i] == #[trigger] p[j];
                assert(names[i] == np[i] && entries[i] == ep[i]);
                assert(pushed(names, entries, s)[j] == p[j]);
            } else {
                assert(names[names.len() - 1] == names.last());
            }
        }
        if !names.contains(s) {
            assert(!np.contains(s)) by {
                if np.contains(s) {
                    let i = choose|i: int| 0 <= i < np.len() && np[i] == s;
                    assert(names[i] == s);
                }
            }
            assert(names[names.len() - 1] != s);
        }
    }
}

/// Drop the entries of document `uri` under the keys of `names`.
fn drop_under<V: UriEntry>(interner: &Rodeo, t: &mut HashMap<usize, Vec<V>>, names: &Vec<&str>, uri: &str)
    requires
        interned(*interner).no_duplicates(),
    ensures
        lists(final(t)@) == drop_keys(lists(old(t)@), uri@, name_keys(interned(*interner), strs(names@))),
{
    let ghost strings = interned(*interner);
    let ghost t0 = lists(t@);
    let ghost nv = strs(names@);
    let mut j: usize = 0;
    assert(name_keys(strings, nv.subrange(0, 0)) =~= Set::<usize>::empty());
    assert(drop_keys(t0, uri@, Set::<usize>::empty()) =~= t0);
    while j < names.len()
        invariant
            j <= names@.len(),
            strings == interned(*interner),
            strings.no_duplicates(),
            nv == strs(names@),
            lists(t@) == drop_keys(t0, uri@, name_keys(strings, nv.subrange(0, j as int))),
        decreases names@.len() - j,
    {
        let ghost ks = name_keys(strings, nv.subrange(0, j as int));
        match interner_get(interner, names[j]) {
            Some(k) => {
                proof {
                    lemma_retained_drop_keys(t0, uri@, ks, k);
                    assert(name_keys(strings, nv.subrange(0, j + 1)) =~= ks.insert(k)) by {
                        assert(nv.subrange(0, j + 1) =~= nv.subrange(0, j as int).push(nv[j as int]));
                        assert forall|m: usize| m < strings.len() && strings[m as int] == nv[j as int] implies m == k by {
                            if m != k {
                                assert(strings[m as int] == strings[k as int]);
                            }
                        }
                    }
                }
                retain_or_remove_hash(t, k, uri);
            },
            None => {
                proof {
                    assert(name_keys(strings, nv.subrange(0, j + 1)) =~= ks) by {
                        assert(nv.subrange(0, j + 1) =~= nv.subrange(0, j as int).push(nv[j as int]));
                        assert forall|m: usize| m < strings.len() implies strings[m as int] != nv[j as int] by {
                            if strings[m as int] == nv[j as int] {
                                assert(strings.contains(names@[j as int]@));
                            }
                        }
                    }
                }
            },
        }
        j = j + 1;
    }
    assert(nv.subrange(0, names@.len() as int) =~= nv);
}

/// Push `entries[i]` under the key of `names[i]`, interning names as needed.
fn push_under<V>(interner: &mut Rodeo, t: &mut HashMap<usize, Vec<V>>, names: &Vec<&str>, entries: Vec<V>)
    requires
        interned(*old(interner)).no_duplicates(),
        interned(*old(interner)).len() + names@.len() < 4294967295,
        names@.len() == entries@.len(),
        forall|k: usize| #[trigger] lists(old(t)@).contains_key(k) ==> k < interned(*old(interner)).len(),
    ensures
        interned(*final(interner)).no_duplicates(),
        interned(*final(interner)).len() <= interned(*old(interner)).len() + names@.len(),
        interned(*old(interner)).len() <= interned(*final(interner)).len(),
        interned(*final(interner)).subrange(0, interned(*old(interner)).len() as int) == interned(*old(interner)),
        forall|k: usize| #[trigger] lists(final(t)@).contains_key(k) ==> k < interned(*final(interner)).len()
            && (lists(old(t)@).contains_key(k) || lists(final(t)@)[k].len() > 0),
        forall|k: usize|
            k < interned(*final(interner)).len() ==> #[trigger] list_of(lists(final(t)@), k) == list_of(lists(old(t)@), k)
                + pushed(strs(names@), entries@, interned(*final(interner))[k as int]),
        forall|i: int| 0 <= i < names@.len() ==> interned(*final(interner)).contains(#[trigger] strs(names@)[i]),
{
    let ghost s0 = interned(*interner);
    let ghost t0 = lists(t@);
    let ghost nv = strs(names@);
    let ghost ev = entries@;
    let mut rest = entries;
    let mut items: Vec<V> = Vec::new();
    // Reverse the entries so that they can be popped in order.
    while rest.len() > 0
        invariant
            rest@ + items@.reverse() == ev,
        decreases rest@.len(),
    {
        let x = rest.pop().unwrap();
        proof {
            assert(items@.push(x).reverse() =~= seq![x] + items@.reverse());
            assert(rest@ + items@.push(x).reverse() =~= ev);
        }
        items.push(x);
    }
    assert(items@.reverse() =~= ev);
    let mut i: usize = 0;
    while i < names.len()
        invariant
            i <= names@.len() == ev.len(),
            nv == strs(names@),
            items@.len() == ev.len() - i,
            items@.reverse() == ev.subrange(i as int, ev.len() as int),
            interned(*interner).no_duplicates(),
            s0.len() <= interned(*interner).len() <= s0.len() + i,
            s0.len() + names@.len() < 4294967295,
            interned(*interner).subrange(0, s0.len() as int) == s0,
            forall|m: int| 0 <= m < i ==> interned(*interner).contains(#[trigger] nv[m]),
            forall|k: usize| #[trigger] lists(t@).contains_key(k) ==> k < interned(*interner).len()
                && (t0.contains_key(k) || lists(t@)[k].len() > 0),
            forall|k: usize| #[trigger] t0.contains_key(k) ==> k < s0.len(),
            forall|k: usize|
                k < interned(*interner).len() ==> #[trigger] list_of(lists(t@), k) == list_of(t0, k)
                    + pushed(nv.subrange(0, i as int), ev.subrange(0, i as int), interned(*interner)[k as int]),
        decreases names@.len() - i,
    {
        let ghost before = items@;
        let ghost sb = interned(*interner);
        let ghost tb = lists(t@);
        let x = items.pop().unwrap();
        proof {
            assert(before == items@.push(x));
            assert(before.reverse()[0] == x);
            assert(ev.subrange(i as int, ev.len() as int)[0] == ev[i as int]);
            assert(items@.push(x).reverse() =~= seq![x] + items@.reverse());
            assert((seq![x] + items@.reverse()).drop_first() =~= items@.reverse());
            assert(ev.subrange(i as int, ev.len() as int).drop_first() =~= ev.subrange(i + 1, ev.len() as int));
        }
        let key = interner_get_or_intern(interner, names[i]);
        push_entry(t, key, x);
        proof {
            let sa = interned(*interner);
            let name = nv[i as int];
            assert(name == names@[i as int]@);
            assert(nv.subrange(0, i + 1).drop_last() =~= nv.subrange(0, i as int));
            assert(ev.subrange(0, i + 1).drop_last() =~= ev.subrange(0, i as int));
            assert(nv.subrange(0, i + 1).last() == name);
            assert(ev.subrange(0, i + 1).last() == x);
            assert(sa.subrange(0, s0.len() as int) =~= s0) by {
                assert(sb.subrange(0, s0.len() as int) == s0);
                if !sb.contains(name) {
                    assert(sa == sb.push(name));
                }
            }
            assert forall|m: int| 0 <= m < i + 1 implies sa.contains(#[trigger] nv[m]) by {
                if m < i {
                    assert(sb.contains(nv[m]));
                    let p = choose|p: int| 0 <= p < sb.len() && sb[p] == nv[m];
                    assert(sa[p] == nv[m]);
                }
            }
            let pre_n = nv.subrange(0, i as int);
            let pre_e = ev.subrange(0, i as int);
            let nn = nv.subrange(0, i + 1);
            let ee = ev.subrange(0, i + 1);
            assert(lists(t@) == tb.insert(key, list_of(tb, key).push(x)));
            assert forall|k: usize| k < sa.len() implies #[trigger] list_of(lists(t@), k) == list_of(t0, k)
                + pushed(nn, ee, sa[k as int]) by {
                assert(pushed(nn, ee, sa[k as int]) == (if name == sa[k as int] {
                    pushed(pre_n, pre_e, sa[k as int]).push(x)
                } else {
                    pushed(pre_n, pre_e, sa[k as int])
                }));
                if k == key {
                    if !sb.contains(name) {
                        // A new string: nothing was pushed under it before.
                        assert(k == sb.len());
                        assert(!tb.contains_key(k));
                        assert(!t0.contains_key(k));
                        assert(!pre_n.contains(name)) by {
                            if pre_n.contains(name) {
                                let m = choose|m: int| 0 <= m < i && pre_n[m] == name;
                                assert(nv[m] == name);
                                assert(sb.contains(nv[m]));
                            }
                        }
                        lemma_pushed(pre_n, pre_e, name);
                        assert(list_of(tb, k) =~= Seq::<V>::empty());
                        assert(list_of(t0, k) =~= Seq::<V>::empty());
                        assert(list_of(lists(t@), k) =~= seq![x]);
                        assert(list_of(t0, k) + pushed(nn, ee, sa[k as int]) =~= seq![x]);
                    } else {
                        assert(sa == sb);
                        assert(list_of(tb, k) == list_of(t0, k) + pushed(pre_n, pre_e, sb[k as int]));
                        assert((list_of(t0, k) + pushed(pre_n, pre_e, name)).push(x) =~= list_of(t0, k)
                            + pushed(pre_n, pre_e, name).push(x));
                    }
                } else {
                    assert(sa[k as int] != name) by {
                        if sa[k as int] == name {
                            assert(sa[k as int] == sa[key as int]);
                        }
                    }
                    assert(k < sb.len()) by {
                        if sb.contains(name) {
                            assert(sa == sb);
                        }
                    }
                    assert(sa[k as int] == sb[k as int]) by {
                        if !sb.contains(name) {
                            assert(sa == sb.push(name));
                        } else {
                            assert(sa == sb);
                        }
                    }
                    assert(list_of(tb, k) == list_of(t0, k) + pushed(pre_n, pre_e, sb[k as int]));
                    assert(list_of(lists(t@), k) == list_of(tb, k));
                }
            }
        }
        i = i + 1;
    }
    assert(nv.subrange(0, names@.len() as int) =~= nv);
    assert(ev.subrange(0, names@.len() as int) =~= ev);
}

/// Positions of the first occurrence of each distinct name, in order.
pub open spec fn firsts(names: Seq<Seq<char>>) -> Seq<int>
    decreases names.len(),
{
    if names.len() == 0 {
        Seq::empty()
    } else if names.drop_last().contains(names.last()) {
        firsts(names.drop_last())
    } else {
        firsts(names.drop_last()).push(names.len() - 1)
    }
}

/// The names at positions `ps`.
pub open spec fn names_at(names: Seq<Seq<char>>, ps: Seq<int>) -> Seq<Seq<char>> {
    ps.map_values(|p: int| names[p])
}

/// Pushing the entries of the headings of a document under their slugs gives
/// its heading entries.
proof fn lemma_heading_pushed(uri: String, hs: Seq<HeadingEntry>, s: Seq<char>)
    ensures
        pushed(
            hs.map_values(|h: HeadingEntry| h.slug@),
            hs.map_values(|h: HeadingEntry| (uri, resolved_heading(h))),
            s,
        ) == heading_entries(uri, hs, s),
    decreases hs.len(),
{
    if hs.len() > 0 {
        lemma_heading_pushed(uri, hs.drop_last(), s);
        assert(hs.map_values(|h: HeadingEntry| h.slug@).drop_last() =~= hs.drop_last().map_values(
            |h: HeadingEntry| h.slug@,
        ));
        assert(hs.map_values(|h: HeadingEntry| (uri, resolved_heading(h))).drop_last()
            =~= hs.drop_last().map_values(|h: HeadingEntry| (uri, resolved_heading(h))));
    }
}

/// Pushing the entries of the blocks of a document under their ids gives its
/// block entries.
proof fn lemma_block_pushed(uri: String, bs: Seq<BlockEntry>, s: Seq<char>)
    ensures
        pushed(
            bs.map_values(|b: BlockEntry| b.id@),
            bs.map_values(|b: BlockEntry| (uri, resolved_block(b))),
            s,
        ) == block_entries(uri, bs, s),
    decreases bs.len(),
{
    if bs.len() > 0 {
        lemma_block_pushed(uri, bs.drop_last(), s);
        assert(bs.map_values(|b: BlockEntry| b.id@).drop_last() =~= bs.drop_last().map_values(
            |b: BlockEntry| b.id@,
        ));
        assert(bs.map_values(|b: BlockEntry| (uri, resolved_block(b))).drop_last()
            =~= bs.drop_last().map_values(|b: BlockEntry| (uri, resolved_block(b))));
    }
}

/// First occurrences: increasing positions of distinct names, one for each
/// name that occurs, each the first with its name.
proof fn lemma_firsts(names: Seq<Seq<char>>)
    ensures
        forall|j: int| 0 <= j < firsts(names).len() ==> 0 <= #[trigger] firsts(names)[j] < names.len(),
        forall|j: int, m: int| 0 <= j < m < firsts(names).len() ==> names[firsts(names)[j]] != names[firsts(names)[m]],
        forall|j: int, q: int| 0 <= j < firsts(names).len() && 0 <= q < firsts(names)[j] ==> #[trigger] names[q] != names[#[trigger] firsts(names)[j]],
        forall|q: int| 0 <= q < names.len() ==> names_at(names, firsts(names)).contains(#[trigger] names[q]),
        firsts(names).len() <= names.len(),
    decreases names.len(),
{
    if names.len() > 0 {
        let p = names.drop_last();
        lemma_firsts(p);
        let f = firsts(p);
        assert forall|j: int| 0 <= j < f.len() implies names[f[j]] == p[f[j]] by {}
        assert forall|j: int, q: int| 0 <= j < f.len() && 0 <= q < f[j] implies #[trigger] names[q] != names[#[trigger] f[j]] by {
            assert(p[q] != p[f[j]]);
        }
        if p.contains(names.last()) {
            assert forall|q: int| 0 <= q < names.len() implies names_at(names, firsts(names)).contains(#[trigger] names[q]) by {
                if q < names.len() - 1 {
                    assert(names[q] == p[q]);
                    assert(names_at(p, f).contains(p[q]));
                    let j = choose|j: int| 0 <= j < names_at(p, f).len() && names_at(p, f)[j] == p[q];
                    assert(names_at(names, f)[j] == names[q]);
                } else {
                    let q2 = choose|q2: int| 0 <= q2 < p.len() && p[q2] == names.last();
                    assert(names_at(p, f).contains(p[q2]));
                    let j = choose|j: int| 0 <= j < names_at(p, f).len() && names_at(p, f)[j] == p[q2];
                    assert(names_at(names, f)[j] == names[q]);
                }
            }
        } else {
            let g = f.push(names.len() - 1);
            assert(firsts(names) == g);
            assert forall|j: int, m: int| 0 <= j < m < g.len() implies names[g[j]] != names[g[m]] by {
                if m == g.len() - 1 {
                    assert(p.contains(p[g[j]]));
                }
            }
            assert forall|j: int, q: int| 0 <= j < g.len() && 0 <= q < g[j] implies #[trigger] names[q] != names[#[trigger] g[j]] by {
                if j == g.len() - 1 {
                    if names[q] == names[g[j]] {
                        assert(p[q] == names.last());
                    }
                } else {
                    assert(g[j] == f[j]);
                }
            }
            assert forall|q: int| 0 <= q < names.len() implies names_at(names, g).contains(#[trigger] names[q]) by {
                if q < names.len() - 1 {
                    assert(names[q] == p[q]);
                    assert(names_at(p, f).contains(p[q]));
                    let j = choose|j: int| 0 <= j < names_at(p, f).len() && names_at(p, f)[j] == p[q];
                    assert(names_at(names, g)[j] == names[q]);
                } else {
                    assert(names_at(names, g)[g.len() - 1] == names[q]);
                }
            }
        }
    }
}

/// The positions of the first occurrence of each distinct name.
fn first_positions(names: &Vec<&str>) -> (r: Vec<usize>)
    ensures
        r@.map_values(|p: usize| p as int) == firsts(strs(names@)),
{
    let ghost nv = strs(names@);
    let mut out: Vec<usize> = Vec::new();
    let mut i: usize = 0;
    while i < names.len()
        invariant
            i <= names@.len(),
            nv == strs(names@),
            out@.map_values(|p: usize| p as int) == firsts(nv.subrange(0, i as int)),
        decreases names@.len() - i,
    {
        // Whether an earlier name is the same.
        let mut seen = false;
        let mut j: usize = 0;
        while j < i
            invariant
                j <= i < names@.len(),
                nv == strs(names@),
                seen == nv.subrange(0, j as int).contains(nv[i as int]),
            decreases i - j,
        {
            if crate::text::str_eq(names[j], names[i]) {
                seen = true;
            }
            assert(nv.subrange(0, j + 1) =~= nv.subrange(0, j as int).push(nv[j as int]));
            j = j + 1;
        }
        let ghost sub = nv.subrange(0, i + 1);
        assert(sub.drop_last() =~= nv.subrange(0, i as int));
        assert(sub.last() == nv[i as int]);
        if !seen {
            out.push(i);
            assert(out@.map_values(|p: usize| p as int) =~= firsts(nv.subrange(0, i as int)).push(i as int));
        }
        i = i + 1;
    }
    assert(nv.subrange(0, names@.len() as int) =~= nv);
    out
}

/// Under distinct names, a string gets the entry of its name, if any.
proof fn lemma_pushed_distinct<V>(names: Seq<Seq<char>>, entries: Seq<V>, s: Seq<char>)
    requires
        names.len() == entries.len(),
        names.no_duplicates(),
    ensures
        names.contains(s) ==> pushed(names, entries, s) == seq![entries[names.index_of(s)]],
        !names.contains(s) ==> pushed(names, entries, s) == Seq::<V>::empty(),
    decreases names.len(),
{
    if names.len() > 0 {
        let np = names.drop_last();
        let ep = entries.drop_last();
        assert(np.no_duplicates());
        lemma_pushed_distinct(np, ep, s);
        lemma_pushed(np, ep, s);
        if names.last() == s {
            assert(!np.contains(s)) by {
                if np.contains(s) {
                    let i = choose|i: int| 0 <= i < np.len() && np[i] == s;
                    assert(names[i] == names[names.len() - 1]);
                }
            }
            assert(names.contains(s));
            assert(names[names.len() - 1] == s);
            assert(names.index_of(s) == names.len() - 1) by {
                let i = names.index_of(s);
                if i != names.len() - 1 {
                    assert(names[i] == names[names.len() - 1]);
                }
            }
            assert(pushed(names, entries, s) =~= seq![entries[names.index_of(s)]]);
        } else if np.contains(s) {
            assert(names.contains(s)) by {
                let i = choose|i: int| 0 <= i < np.len() && np[i] == s;
                assert(names[i] == s);
            }
            assert(names.index_of(s) == np.index_of(s)) by {
                let i = names.index_of(s);
                let j = np.index_of(s);
                assert(names[j] == s);
                if i != j {
                    assert(names[i] == names[j]);
                }
            }
        } else {
            assert(!names.contains(s)) by {
                if names.contains(s) {
                    let i = choose|i: int| 0 <= i < names.len() && names[i] == s;
                    if i < names.len() - 1 {
                        assert(np[i] == s);
                    }
                }
            }
        }
    }
}

/// The first names are distinct.
proof fn lemma_firsts_distinct(names: Seq<Seq<char>>)
    ensures
        names_at(names, firsts(names)).no_duplicates(),
        forall|s: Seq<char>| #[trigger] names_at(names, firsts(names)).contains(s) <==> names.contains(s),
{
    lemma_firsts(names);
    let f = firsts(names);
    let d = names_at(names, f);
    assert forall|s: Seq<char>| #[trigger] d.contains(s) <==> names.contains(s) by {
        if d.contains(s) {
            let j = choose|j: int| 0 <= j < d.len() && d[j] == s;
            assert(names[f[j]] == s);
        }
        if names.contains(s) {
            let q = choose|q: int| 0 <= q < names.len() && names[q] == s;
            assert(d.contains(names[q]));
        }
    }
}

/// `first_span` is the first code span with the text, or -1 when none has it.
pub(crate) proof fn lemma_first_span(cs: Seq<CodeSpanEntry>, text: Seq<char>)
    ensures
        -1 <= first_span(cs, text) < cs.len(),
        first_span(cs, text) >= 0 ==> cs[first_span(cs, text)].text@ == text,
        forall|q: int| 0 <= q < cs.len() && (first_span(cs, text) == -1 || q < first_span(cs, text)) ==> (#[trigger] cs[q]).text@ != text,
    decreases cs.len(),
{
    if cs.len() > 0 {
        lemma_first_span(cs.drop_last(), text);
        assert forall|q: int| 0 <= q < cs.len() - 1 implies cs.drop_last()[q] == cs[q] by {}
    }
}

/// Pushing each distinct tag name of a document with its URI gives its tag entries.
proof fn lemma_tag_pushed(uri: String, ts: Seq<TagEntry>, s: Seq<char>)
    ensures
        ({
            let nt = ts.map_values(|t: TagEntry| t.name@);
            let f = firsts(nt);
            pushed(names_at(nt, f), Seq::new(f.len(), |i: int| uri), s) == tag_entries(uri, ts, s)
        }),
{
    let nt = ts.map_values(|t: TagEntry| t.name@);
    let f = firsts(nt);
    let d = names_at(nt, f);
    lemma_firsts_distinct(nt);
    lemma_pushed_distinct(d, Seq::new(f.len(), |i: int| uri), s);
    assert(d.contains(s) <==> nt.contains(s));
    assert(nt.contains(s) <==> has_tag(ts, s)) by {
        if nt.contains(s) {
            let q = choose|q: int| 0 <= q < nt.len() && nt[q] == s;
            assert(ts[q].name@ == s);
        }
        if has_tag(ts, s) {
            let q = choose|q: int| 0 <= q < ts.len() && (#[trigger] ts[q]).name@ == s;
            assert(nt[q] == s);
        }
    }
}

/// Pushing the first code span of each distinct text gives the code span entries.
proof fn lemma_span_pushed(uri: String, cs: Seq<CodeSpanEntry>, s: Seq<char>)
    ensures
        ({
            let nt = cs.map_values(|c: CodeSpanEntry| c.text@);
            let f = firsts(nt);
            pushed(
                names_at(nt, f),
                f.map_values(|p: int| (uri, resolved_code_span(cs[p]))),
                s,
            ) == code_span_entries(uri, cs, s)
        }),
{
    let nt = cs.map_values(|c: CodeSpanEntry| c.text@);
    let f = firsts(nt);
    let d = names_at(nt, f);
    let e = f.map_values(|p: int| (uri, resolved_code_span(cs[p])));
    lemma_firsts(nt);
    lemma_firsts_distinct(nt);
    lemma_pushed_distinct(d, e, s);
    lemma_first_span(cs, s);
    if d.contains(s) {
        let j = d.index_of(s);
        assert(d[j] == s);
        let p = f[j];
        assert(nt[p] == s);
        assert(cs[p].text@ == s);
        // `p` is the first span with the text.
        assert(first_span(cs, s) == p) by {
            let fs = first_span(cs, s);
            if fs == -1 {
                assert(cs[p].text@ != s);
            } else if fs < p {
                assert(nt[fs] != nt[p]);
            } else if fs > p {
                assert(cs[p].text@ != s);
            }
        }
    } else {
        assert(first_span(cs, s) == -1) by {
            if first_span(cs, s) >= 0 {
                assert(nt[first_span(cs, s)] == s);
                assert(nt.contains(s));
            }
        }
    }
}

/// Dropping a document's entries under the keys of its names drops all of them.
proof fn lemma_drop_keys_all<V: UriEntry>(
    t: Map<usize, Seq<V>>,
    strings: Seq<Seq<char>>,
    docs: Seq<(String, DocumentView)>,
    names: spec_fn(DocumentView) -> Seq<Seq<char>>,
    i: int,
)
    requires
        sound(t, strings, docs, names),
        unique_uris(docs),
        0 <= i < docs.len(),
    ensures
        drop_keys(t, docs[i].0@, name_keys(strings, names(docs[i].1))) == drop_all(t, docs[i].0@),
{
    let u = docs[i].0@;
    let ks = name_keys(strings, names(docs[i].1));
    assert forall|k: usize| t.contains_key(k) && !ks.contains(k) implies drop_uri(t[k], u) == t[k] by {
        assert forall|j: int| 0 <= j < t[k].len() implies (#[trigger] t[k][j]).entry_uri() != u by {
            if t[k][j].entry_uri() == u {
                assert(owned_by(docs, t[k][j].entry_uri(), names, strings[k as int]));
                let i2 = choose|i2: int| 0 <= i2 < docs.len() && docs[i2].0@ == t[k][j].entry_uri() && (#[trigger] names(docs[i2].1)).contains(strings[k as int]);
                if i2 != i {
                    if i2 < i {
                        assert(docs[i2].0@ != docs[i].0@);
                    } else {
                        assert(docs[i].0@ != docs[i2].0@);
                    }
                }
            }
        }
        lemma_drop_uri(t[k], u);
    }
    assert(drop_keys(t, u, ks) =~= drop_all(t, u));
}

/// A table holds no entry of a document that is not in the realm.
pub(crate) proof fn lemma_drop_absent<V: UriEntry>(
    t: Map<usize, Seq<V>>,
    strings: Seq<Seq<char>>,
    docs: Seq<(String, DocumentView)>,
    names: spec_fn(DocumentView) -> Seq<Seq<char>>,
    u: Seq<char>,
)
    requires
        sound(t, strings, docs, names),
        forall|i: int| 0 <= i < docs.len() ==> (#[trigger] docs[i]).0@ != u,
    ensures
        drop_all(t, u) == t,
{
    assert forall|k: usize| t.contains_key(k) implies drop_uri(t[k], u) == t[k] by {
        assert forall|j: int| 0 <= j < t[k].len() implies (#[trigger] t[k][j]).entry_uri() != u by {
            if t[k][j].entry_uri() == u {
                assert(owned_by(docs, t[k][j].entry_uri(), names, strings[k as int]));
                let i2 = choose|i2: int| 0 <= i2 < docs.len() && docs[i2].0@ == t[k][j].entry_uri() && (#[trigger] names(docs[i2].1)).contains(strings[k as int]);
                assert(docs[i2].0@ != u);
            }
        }
        lemma_drop_uri(t[k], u);
    }
    assert(drop_all(t, u) =~= t);
}

/// Dropping a document's entries keeps a table sound.
proof fn lemma_drop_all_sound<V: UriEntry>(
    t: Map<usize, Seq<V>>,
    strings: Seq<Seq<char>>,
    docs: Seq<(String, DocumentView)>,
    names: spec_fn(DocumentView) -> Seq<Seq<char>>,
    u: Seq<char>,
)
    requires
        sound(t, strings, docs, names),
    ensures
        sound(drop_all(t, u), strings, docs, names),
        forall|k: usize, j: int|
            drop_all(t, u).contains_key(k) && 0 <= j < drop_all(t, u)[k].len() ==> (#[trigger] drop_all(t, u)[k][j]).entry_uri() != u,
{
    let d = drop_all(t, u);
    assert forall|k: usize| #[trigger] d.contains_key(k) implies k < strings.len() && d[k].len() > 0 && (forall|j: int|
        0 <= j < d[k].len() ==> owned_by(docs, (#[trigger] d[k][j]).entry_uri(), names, strings[k as int])) by {
        lemma_drop_uri(t[k], u);
        assert forall|j: int| 0 <= j < d[k].len() implies owned_by(docs, (#[trigger] d[k][j]).entry_uri(), names, strings[k as int]) by {
            assert(t[k].contains(d[k][j]));
            let m = choose|m: int| 0 <= m < t[k].len() && t[k][m] == d[k][j];
            assert(owned_by(docs, t[k][m].entry_uri(), names, strings[k as int]));
        }
    }
    assert forall|k: usize, j: int| d.contains_key(k) && 0 <= j < d[k].len() implies (#[trigger] d[k][j]).entry_uri() != u by {
        lemma_drop_uri(t[k], u);
    }
}

/// The string list of a table after dropping a document.
pub(crate) proof fn lemma_lookup_drop<V: UriEntry>(t: Map<usize, Seq<V>>, strings: Seq<Seq<char>>, u: Seq<char>, s: Seq<char>)
    ensures
        lookup(drop_all(t, u), strings, s) == drop_uri(lookup(t, strings, s), u),
{
    if strings.contains(s) {
        let k = strings.index_of(s) as usize;
        if !t.contains_key(k) {
            assert(drop_uri(Seq::<V>::empty(), u) == Seq::<V>::empty());
        } else if drop_uri(t[k], u).len() == 0 {
            assert(drop_uri(t[k], u) =~= Seq::<V>::empty());
        }
    } else {
        assert(drop_uri(Seq::<V>::empty(), u) == Seq::<V>::empty());
    }
}

/// The slugs of a document's headings.
fn slug_names(idx: &DocumentIndex) -> (r: Vec<&str>)
    ensures
        strs(r@) == slugs_of(idx@),
{
    let hs = idx.headings();
    let mut out: Vec<&str> = Vec::new();
    let mut i: usize = 0;
    while i < hs.len()
        invariant
            i <= hs@.len(),
            hs@ == idx@.headings,
            out@.len() == i,
            forall|j: int| 0 <= j < i ==> (#[trigger] out@[j])@ == hs@[j].slug@,
        decreases hs@.len() - i,
    {
        let n = hs[i].slug.as_str();
        assert(n@ == hs@[i as int].slug@);
        out.push(n);
        i = i + 1;
    }
    assert(strs(out@) =~= slugs_of(idx@));
    out
}

/// The ids of a document's blocks.
fn block_names(idx: &DocumentIndex) -> (r: Vec<&str>)
    ensures
        strs(r@) == block_ids_of(idx@),
{
    let bs = idx.blocks();
    let mut out: Vec<&str> = Vec::new();
    let mut i: usize = 0;
    while i < bs.len()
        invariant
            i <= bs@.len(),
            bs@ == idx@.blocks,
            out@.len() == i,
            forall|j: int| 0 <= j < i ==> (#[trigger] out@[j])@ == bs@[j].id@,
        decreases bs@.len() - i,
    {
        let n = bs[i].id.as_str();
        assert(n@ == bs@[i as int].id@);
        out.push(n);
        i = i + 1;
    }
    assert(strs(out@) =~= block_ids_of(idx@));
    out
}

/// The names of a document's tags.
fn tag_names(idx: &DocumentIndex) -> (r: Vec<&str>)
    ensures
        strs(r@) == tag_names_of(idx@),
{
    let ts = idx.tags();
    let mut out: Vec<&str> = Vec::new();
    let mut i: usize = 0;
    while i < ts.len()
        invariant
            i <= ts@.len(),
            ts@ == idx@.tags,
            out@.len() == i,
            forall|j: int| 0 <= j < i ==> (#[trigger] out@[j])@ == ts@[j].name@,
        decreases ts@.len() - i,
    {
        let n = ts[i].name.as_str();
        assert(n@ == ts@[i as int].name@);
        out.push(n);
        i = i + 1;
    }
    assert(strs(out@) =~= tag_names_of(idx@));
    out
}

/// The texts of a document's code spans.
fn span_texts(idx: &DocumentIndex) -> (r: Vec<&str>)
    ensures
        strs(r@) == span_texts_of(idx@),
{
    let cs = idx.code_spans();
    let mut out: Vec<&str> = Vec::new();
    let mut i: usize = 0;
    while i < cs.len()
        invariant
            i <= cs@.len(),
            cs@ == idx@.code_spans,
            out@.len() == i,
            forall|j: int| 0 <= j < i ==> (#[trigger] out@[j])@ == cs@[j].text@,
        decreases cs@.len() - i,
    {
        let n = cs[i].text.as_str();
        assert(n@ == cs@[i as int].text@);
        out.push(n);
        i = i + 1;
    }
    assert(strs(out@) =~= span_texts_of(idx@));
    out
}

/// The date table without a document's entries.
pub(crate) proof fn lemma_dates_drop(t: Map<(u16, u8, u8), Seq<String>>, docs: Seq<(String, DocumentView)>, u: Seq<char>)
    requires
        dates_sound(t, docs),
    ensures
        journal_date_of(encode_utf8(u)) matches Some(d) ==> retained(t, d, u) == drop_all(t, u),
        journal_date_of(encode_utf8(u)) is None ==> drop_all(t, u) == t,
        (forall|i: int| 0 <= i < docs.len() ==> (#[trigger] docs[i]).0@ != u) ==> drop_all(t, u) == t,
        dates_sound(drop_all(t, u), docs),
        forall|d: (u16, u8, u8), j: int|
            drop_all(t, u).contains_key(d) && 0 <= j < drop_all(t, u)[d].len() ==> (#[trigger] drop_all(t, u)[d][j])@ != u,
{
    // Entries of `u` can only sit under the date its URI names.
    assert forall|d: (u16, u8, u8)| t.contains_key(d) && journal_date_of(encode_utf8(u)) != Some(d) implies drop_uri(t[d], u) == t[d] by {
        assert forall|j: int| 0 <= j < t[d].len() implies (#[trigger] t[d][j]).entry_uri() != u by {}
        lemma_drop_uri(t[d], u);
    }
    if forall|i: int| 0 <= i < docs.len() ==> (#[trigger] docs[i]).0@ != u {
        assert forall|d: (u16, u8, u8)| t.contains_key(d) implies drop_uri(t[d], u) == t[d] by {
            assert forall|j: int| 0 <= j < t[d].len() implies (#[trigger] t[d][j]).entry_uri() != u by {
                if t[d][j]@ == u {
                    let i = choose|i: int| 0 <= i < docs.len() && docs[i].0@ == t[d][j]@;
                    assert(docs[i].0@ != u);
                }
            }
            lemma_drop_uri(t[d], u);
        }
        assert(drop_all(t, u) =~= t);
    }
    if let Some(d) = journal_date_of(encode_utf8(u)) {
        if t.contains_key(d) {
            lemma_drop_uri(t[d], u);
        }
        assert(retained(t, d, u) =~= drop_all(t, u));
    } else {
        assert(drop_all(t, u) =~= t);
    }
    let dd = drop_all(t, u);
    assert forall|d: (u16, u8, u8)| #[trigger] dd.contains_key(d) implies dd[d].len() > 0 && (forall|j: int|
        0 <= j < dd[d].len() ==> journal_date_of(encode_utf8((#[trigger] dd[d][j])@)) == Some(d)
            && (exists|i: int| 0 <= i < docs.len() && docs[i].0@ == dd[d][j]@)) by {
        lemma_drop_uri(t[d], u);
        assert forall|j: int| 0 <= j < dd[d].len() implies journal_date_of(encode_utf8((#[trigger] dd[d][j])@)) == Some(d)
            && (exists|i: int| 0 <= i < docs.len() && docs[i].0@ == dd[d][j]@) by {
            assert(t[d].contains(dd[d][j]));
            let m = choose|m: int| 0 <= m < t[d].len() && t[d][m] == dd[d][j];
            assert(journal_date_of(encode_utf8(t[d][m]@)) == Some(d));
        }
    }
    assert forall|d: (u16, u8, u8), j: int| dd.contains_key(d) && 0 <= j < dd[d].len() implies (#[trigger] dd[d][j])@ != u by {
        lemma_drop_uri(t[d], u);
        assert(dd[d][j].entry_uri() != u);
    }
}

impl RealmIndex {
    /// Remove the entries of document `uri` from every cross-document table.
    fn remove_from_cross_doc_indexes(&mut self, uri: &str)
        requires
            old(self).wf(),
        ensures
            final(self).wf(),
            final(self)@.interned == old(self)@.interned,
            final(self)@.docs == old(self)@.docs,
            final(self)@.headings == drop_all(old(self)@.headings, uri@),
            final(self)@.blocks == drop_all(old(self)@.blocks, uri@),
            final(self)@.tags == drop_all(old(self)@.tags, uri@),
            final(self)@.code_spans == drop_all(old(self)@.code_spans, uri@),
            final(self)@.dates == drop_all(old(self)@.dates, uri@),
            final(self)@.stems == drop_all(old(self)@.stems, uri@),
    {
        let ghost v = self@;
        proof {
            lemma_stems_drop(v.stems, v.interned, v.docs, uri@);
            lemma_drop_all_sound(v.headings, v.interned, v.docs, |d: DocumentView| slugs_of(d), uri@);
            lemma_drop_all_sound(v.blocks, v.interned, v.docs, |d: DocumentView| block_ids_of(d), uri@);
            lemma_drop_all_sound(v.tags, v.interned, v.docs, |d: DocumentView| tag_names_of(d), uri@);
            lemma_drop_all_sound(v.code_spans, v.interned, v.docs, |d: DocumentView| span_texts_of(d), uri@);
            lemma_dates_drop(v.dates, v.docs, uri@);
            lemma_doc_pos(v.docs, uri@);
        }
        match self.position_of(uri) {
            None => {
                proof {
                    lemma_drop_absent(v.headings, v.interned, v.docs, |d: DocumentView| slugs_of(d), uri@);
                    lemma_drop_absent(v.blocks, v.interned, v.docs, |d: DocumentView| block_ids_of(d), uri@);
                    lemma_drop_absent(v.tags, v.interned, v.docs, |d: DocumentView| tag_names_of(d), uri@);
                    lemma_drop_absent(v.code_spans, v.interned, v.docs, |d: DocumentView| span_texts_of(d), uri@);
                }
            },
            Some(i) => {
                proof {
                    lemma_drop_keys_all(v.headings, v.interned, v.docs, |d: DocumentView| slugs_of(d), i as int);
                    lemma_drop_keys_all(v.blocks, v.interned, v.docs, |d: DocumentView| block_ids_of(d), i as int);
                    lemma_drop_keys_all(v.tags, v.interned, v.docs, |d: DocumentView| tag_names_of(d), i as int);
                    lemma_drop_keys_all(v.code_spans, v.interned, v.docs, |d: DocumentView| span_texts_of(d), i as int);
                }
                let idx = &self.docs[i].1;
                let slugs = slug_names(idx);
                drop_under(&self.interner, &mut self.slug_to_headings, &slugs, uri);
                let ids = block_names(idx);
                drop_under(&self.interner, &mut self.block_to_location, &ids, uri);
                let tags = tag_names(idx);
                drop_under(&self.interner, &mut self.tag_to_docs, &tags, uri);
                let texts = span_texts(idx);
                drop_under(&self.interner, &mut self.code_span_to_docs, &texts, uri);
                match detect_journal_date(uri) {
                    Some(d) => {
                        retain_or_remove_btree(&mut self.date_to_docs, d, uri);
                    },
                    None => {},
                }
                match stem_of(uri) {
                    Some(st) => {
                        match interner_get(&self.interner, st.as_str()) {
                            Some(k) => {
                                proof {
                                    lemma_index_of(interned(self.interner), k as int);
                                }
                                retain_or_remove_hash(&mut self.stem_to_uris, k, uri);
                            },
                            None => {},
                        }
                    },
                    None => {},
                }
            },
        }
    }
}

/// The documents without document `u`.
pub open spec fn without_doc(docs: Seq<(String, DocumentView)>, u: Seq<char>) -> Seq<(String, DocumentView)> {
    if doc_pos(docs, u) >= 0 {
        docs.remove(doc_pos(docs, u))
    } else {
        docs
    }
}

/// Removing a document that owns no entry keeps a table sound.
proof fn lemma_sound_remove_doc<V: UriEntry>(
    t: Map<usize, Seq<V>>,
    strings: Seq<Seq<char>>,
    docs: Seq<(String, DocumentView)>,
    names: spec_fn(DocumentView) -> Seq<Seq<char>>,
    i: int,
)
    requires
        sound(t, strings, docs, names),
        0 <= i < docs.len(),
        forall|k: usize, j: int| t.contains_key(k) && 0 <= j < t[k].len() ==> (#[trigger] t[k][j]).entry_uri() != docs[i].0@,
    ensures
        sound(t, strings, docs.remove(i), names),
{
    let d2 = docs.remove(i);
    assert forall|k: usize| #[trigger] t.contains_key(k) implies k < strings.len() && t[k].len() > 0 && (forall|j: int|
        0 <= j < t[k].len() ==> owned_by(d2, (#[trigger] t[k][j]).entry_uri(), names, strings[k as int])) by {
        assert forall|j: int| 0 <= j < t[k].len() implies owned_by(d2, (#[trigger] t[k][j]).entry_uri(), names, strings[k as int]) by {
            assert(owned_by(docs, t[k][j].entry_uri(), names, strings[k as int]));
            let i2 = choose|i2: int| 0 <= i2 < docs.len() && docs[i2].0@ == t[k][j].entry_uri() && (#[trigger] names(docs[i2].1)).contains(strings[k as int]);
            assert(i2 != i);
            if i2 < i {
                assert(d2[i2] == docs[i2]);
            } else {
                assert(d2[i2 - 1] == docs[i2]);
            }
        }
    }
}

/// Removing a document that owns no date entry keeps the date table sound.
proof fn lemma_dates_remove_doc(t: Map<(u16, u8, u8), Seq<String>>, docs: Seq<(String, DocumentView)>, i: int)
    requires
        dates_sound(t, docs),
        0 <= i < docs.len(),
        forall|d: (u16, u8, u8), j: int| t.contains_key(d) && 0 <= j < t[d].len() ==> (#[trigger] t[d][j])@ != docs[i].0@,
    ensures
        dates_sound(t, docs.remove(i)),
{
    let d2 = docs.remove(i);
    assert forall|d: (u16, u8, u8)| #[trigger] t.contains_key(d) implies t[d].len() > 0 && (forall|j: int|
        0 <= j < t[d].len() ==> journal_date_of(encode_utf8((#[trigger] t[d][j])@)) == Some(d)
            && (exists|m: int| 0 <= m < d2.len() && d2[m].0@ == t[d][j]@)) by {
        assert forall|j: int| 0 <= j < t[d].len() implies journal_date_of(encode_utf8((#[trigger] t[d][j])@)) == Some(d)
            && (exists|m: int| 0 <= m < d2.len() && d2[m].0@ == t[d][j]@) by {
            let i2 = choose|i2: int| 0 <= i2 < docs.len() && docs[i2].0@ == t[d][j]@;
            assert(i2 != i);
            if i2 < i {
                assert(d2[i2] == docs[i2]);
            } else {
                assert(d2[i2 - 1] == docs[i2]);
            }
        }
    }
}

/// Whether some document of `docs` has URI `u`.
pub open spec fn has_doc(docs: Seq<(String, DocumentView)>, u: Seq<char>) -> bool {
    exists|i: int| 0 <= i < docs.len() && docs[i].0@ == u
}

/// The stem table is sound: its keys are interned, its lists are not empty,
/// and each lists documents of the realm whose URI has the key's string as stem.
pub open spec fn stems_sound(t: Map<usize, Seq<String>>, strings: Seq<Seq<char>>, docs: Seq<(String, DocumentView)>) -> bool {
    forall|k: usize|
        #[trigger] t.contains_key(k) ==> k < strings.len() && t[k].len() > 0 && (forall|j: int|
            0 <= j < t[k].len() ==> uri_stem((#[trigger] t[k][j])@) == Some(strings[k as int]) && has_doc(docs, t[k][j]@))
}

/// The stem entries a document under `uri` adds under string `s`: its URI,
/// when `s` is the URI's stem.
pub open spec fn stem_entries(uri: String, s: Seq<char>) -> Seq<String> {
    if uri_stem(uri@) == Some(s) {
        seq![uri]
    } else {
        Seq::empty()
    }
}

/// The document a page name `s` (already in ASCII lowercase) names: the first
/// one listed under that stem, if any.
pub open spec fn first_by_stem(v: RealmView, s: Seq<char>) -> Option<String> {
    if lookup(v.stems, v.interned, s).len() > 0 {
        Some(lookup(v.stems, v.interned, s)[0])
    } else {
        None
    }
}

/// The stem table without a document's entries: they sit only under the key
/// of the document's stem.
pub(crate) proof fn lemma_stems_drop(t: Map<usize, Seq<String>>, strings: Seq<Seq<char>>, docs: Seq<(String, DocumentView)>, u: Seq<char>)
    requires
        stems_sound(t, strings, docs),
        strings.no_duplicates(),
    ensures
        (forall|i: int| 0 <= i < docs.len() ==> (#[trigger] docs[i]).0@ != u) ==> drop_all(t, u) == t,
        uri_stem(u) is None ==> drop_all(t, u) == t,
        uri_stem(u) is Some && !strings.contains(uri_stem(u)->0) ==> drop_all(t, u) == t,
        uri_stem(u) is Some && strings.contains(uri_stem(u)->0) ==> retained(
            t,
            strings.index_of(uri_stem(u)->0) as usize,
            u,
        ) == drop_all(t, u),
        stems_sound(drop_all(t, u), strings, docs),
        forall|k: usize, j: int|
            drop_all(t, u).contains_key(k) && 0 <= j < drop_all(t, u)[k].len() ==> (#[trigger] drop_all(t, u)[k][j])@ != u,
{
    // Entries of `u` can only sit under the key of its stem.
    assert forall|k: usize| t.contains_key(k) && uri_stem(u) != Some(strings[k as int]) implies drop_uri(t[k], u) == t[k] by {
        assert forall|j: int| 0 <= j < t[k].len() implies (#[trigger] t[k][j]).entry_uri() != u by {}
        lemma_drop_uri(t[k], u);
    }
    if forall|i: int| 0 <= i < docs.len() ==> (#[trigger] docs[i]).0@ != u {
        assert forall|k: usize| t.contains_key(k) implies drop_uri(t[k], u) == t[k] by {
            assert forall|j: int| 0 <= j < t[k].len() implies (#[trigger] t[k][j]).entry_uri() != u by {
                if t[k][j]@ == u {
                    let i = choose|i: int| 0 <= i < docs.len() && docs[i].0@ == t[k][j]@;
                    assert(docs[i].0@ != u);
                }
            }
            lemma_drop_uri(t[k], u);
        }
        assert(drop_all(t, u) =~= t);
    }
    match uri_stem(u) {
        None => {
            assert(drop_all(t, u) =~= t);
        },
        Some(st) => {
            if strings.contains(st) {
                let kk = strings.index_of(st) as usize;
                assert forall|k: usize| t.contains_key(k) && k != kk implies drop_uri(t[k], u) == t[k] by {
                    if strings[k as int] == st {
                        lemma_index_of(strings, k as int);
                    }
                }
                if t.contains_key(kk) {
                    lemma_drop_uri(t[kk], u);
                }
                assert(retained(t, kk, u) =~= drop_all(t, u));
            } else {
                assert forall|k: usize| t.contains_key(k) implies drop_uri(t[k], u) == t[k] by {
                    assert(strings.contains(strings[k as int]));
                }
                assert(drop_all(t, u) =~= t);
            }
        },
    }
    let dd = drop_all(t, u);
    assert forall|k: usize| #[trigger] dd.contains_key(k) implies k < strings.len() && dd[k].len() > 0 && (forall|j: int|
        0 <= j < dd[k].len() ==> uri_stem((#[trigger] dd[k][j])@) == Some(strings[k as int])
            && has_doc(docs, dd[k][j]@)) by {
        lemma_drop_uri(t[k], u);
        assert forall|j: int| 0 <= j < dd[k].len() implies uri_stem((#[trigger] dd[k][j])@) == Some(strings[k as int])
            && has_doc(docs, dd[k][j]@) by {
            assert(t[k].contains(dd[k][j]));
            let m = choose|m: int| 0 <= m < t[k].len() && t[k][m] == dd[k][j];
            assert(uri_stem(t[k][m]@) == Some(strings[k as int]));
        }
    }
    assert forall|k: usize, j: int| dd.contains_key(k) && 0 <= j < dd[k].len() implies (#[trigger] dd[k][j])@ != u by {
        lemma_drop_uri(t[k], u);
        assert(dd[k][j].entry_uri() != u);
    }
}

/// The stem table stays sound when more strings are interned and the
/// documents change without losing a URI that it lists.
proof fn lemma_stems_frame(
    t: Map<usize, Seq<String>>,
    s0: Seq<Seq<char>>,
    s1: Seq<Seq<char>>,
    docs0: Seq<(String, DocumentView)>,
    docs1: Seq<(String, DocumentView)>,
)
    requires
        stems_sound(t, s0, docs0),
        s0.len() <= s1.len(),
        s1.subrange(0, s0.len() as int) == s0,
        forall|k: usize, j: int| t.contains_key(k) && 0 <= j < t[k].len() ==> has_doc(docs1, (#[trigger] t[k][j])@),
    ensures
        stems_sound(t, s1, docs1),
{
    assert forall|k: usize| #[trigger] t.contains_key(k) implies k < s1.len() && t[k].len() > 0 && (forall|j: int|
        0 <= j < t[k].len() ==> uri_stem((#[trigger] t[k][j])@) == Some(s1[k as int])
            && has_doc(docs1, t[k][j]@)) by {
        assert(s1[k as int] == s1.subrange(0, s0.len() as int)[k as int]);
    }
}

/// Removing a document that owns no stem entry keeps the stem table sound.
proof fn lemma_stems_remove_doc(t: Map<usize, Seq<String>>, strings: Seq<Seq<char>>, docs: Seq<(String, DocumentView)>, i: int)
    requires
        stems_sound(t, strings, docs),
        0 <= i < docs.len(),
        forall|k: usize, j: int| t.contains_key(k) && 0 <= j < t[k].len() ==> (#[trigger] t[k][j])@ != docs[i].0@,
    ensures
        stems_sound(t, strings, docs.remove(i)),
{
    let d2 = docs.remove(i);
    assert forall|k: usize| #[trigger] t.contains_key(k) implies k < strings.len() && t[k].len() > 0 && (forall|j: int|
        0 <= j < t[k].len() ==> uri_stem((#[trigger] t[k][j])@) == Some(strings[k as int])
            && has_doc(d2, t[k][j]@)) by {
        assert forall|j: int| 0 <= j < t[k].len() implies uri_stem((#[trigger] t[k][j])@) == Some(strings[k as int])
            && has_doc(d2, t[k][j]@) by {
            let i2 = choose|i2: int| 0 <= i2 < docs.len() && docs[i2].0@ == t[k][j]@;
            assert(i2 != i);
            if i2 < i {
                assert(d2[i2] == docs[i2]);
            } else {
                assert(d2[i2 - 1] == docs[i2]);
            }
        }
    }
}

/// Appending a document of the realm under the key of its stem keeps the
/// stem table sound.
proof fn lemma_stems_push(t: Map<usize, Seq<String>>, strings: Seq<Seq<char>>, docs: Seq<(String, DocumentView)>, k: usize, u: String)
    requires
        stems_sound(t, strings, docs),
        k < strings.len(),
        uri_stem(u@) == Some(strings[k as int]),
        exists|i: int| 0 <= i < docs.len() && docs[i].0@ == u@,
    ensures
        stems_sound(t.insert(k, list_of(t, k).push(u)), strings, docs),
{
    let t2 = t.insert(k, list_of(t, k).push(u));
    assert forall|kk: usize| #[trigger] t2.contains_key(kk) implies kk < strings.len() && t2[kk].len() > 0 && (forall|j: int|
        0 <= j < t2[kk].len() ==> uri_stem((#[trigger] t2[kk][j])@) == Some(strings[kk as int])
            && has_doc(docs, t2[kk][j]@)) by {
        if kk == k {
            assert forall|j: int| 0 <= j < t2[kk].len() implies uri_stem((#[trigger] t2[kk][j])@) == Some(strings[kk as int])
                && has_doc(docs, t2[kk][j]@) by {
                if j < list_of(t, k).len() {
                    assert(t2[kk][j] == t[k][j]);
                } else {
                    assert(t2[kk][j] == u);
                }
            }
        }
    }
}

/// The stem table after adding a document: the realm's table without the
/// document's entries, then the document under the key of its stem.
proof fn lemma_add_stems(
    t0: Map<usize, Seq<String>>,
    s0: Seq<Seq<char>>,
    t2: Map<usize, Seq<String>>,
    docs2: Seq<(String, DocumentView)>,
    docs: Seq<(String, DocumentView)>,
    strings: Seq<Seq<char>>,
    t: Map<usize, Seq<String>>,
    u: String,
    d: DocumentView,
    k: usize,
)
    requires
        stems_sound(t2, s0, docs2),
        t2 == drop_all(t0, u@),
        strings.no_duplicates(),
        strings.len() < 4294967295,
        s0.len() <= strings.len(),
        strings.subrange(0, s0.len() as int) == s0,
        docs == docs2.push((u, d)),
        uri_stem(u@) is Some ==> k < strings.len() && strings[k as int] == uri_stem(u@)->0 && t == t2.insert(
            k,
            list_of(t2, k).push(u),
        ),
        uri_stem(u@) is None ==> t == t2,
    ensures
        stems_sound(t, strings, docs),
        forall|s: Seq<char>| #[trigger] lookup(t, strings, s) == drop_uri(lookup(t0, s0, s), u@) + stem_entries(u, s),
{
    assert forall|kk: usize, j: int| t2.contains_key(kk) && 0 <= j < t2[kk].len() implies has_doc(docs, (#[trigger] t2[kk][j])@) by {
        assert(t2.contains_key(kk));
        assert(uri_stem(t2[kk][j]@) == Some(s0[kk as int]));
        let m = choose|m: int| 0 <= m < docs2.len() && docs2[m].0@ == t2[kk][j]@;
        assert(docs[m] == docs2[m]);
    }
    lemma_stems_frame(t2, s0, strings, docs2, docs);
    assert(docs[docs.len() - 1].0@ == u@);
    if uri_stem(u@) is Some {
        lemma_stems_push(t2, strings, docs, k, u);
    }
    assert forall|s: Seq<char>| #[trigger] lookup(t, strings, s) == drop_uri(lookup(t0, s0, s), u@) + stem_entries(u, s) by {
        lemma_lookup_extend(t2, s0, strings, s);
        lemma_lookup_drop(t0, s0, u@, s);
        if uri_stem(u@) is Some {
            lemma_lookup_push_one(t2, strings, k, u, s);
        } else {
            assert(drop_uri(lookup(t0, s0, s), u@) + stem_entries(u, s) =~= drop_uri(lookup(t0, s0, s), u@));
        }
    }
}

/// Looking a string up after appending `x` to the list of key `k`.
proof fn lemma_lookup_push_one<V>(t: Map<usize, Seq<V>>, strings: Seq<Seq<char>>, k: usize, x: V, s: Seq<char>)
    requires
        strings.no_duplicates(),
        k < strings.len(),
        strings.len() < 4294967295,
    ensures
        lookup(t.insert(k, list_of(t, k).push(x)), strings, s) == lookup(t, strings, s) + (if s == strings[k as int] {
            seq![x]
        } else {
            Seq::<V>::empty()
        }),
{
    lemma_index_of(strings, k as int);
    let t2 = t.insert(k, list_of(t, k).push(x));
    if strings.contains(s) {
        let ks = strings.index_of(s);
        assert(0 <= ks < strings.len() && strings[ks] == s);
        if s == strings[k as int] {
            assert(ks == k);
            assert(lookup(t2, strings, s) == list_of(t2, k));
            assert(lookup(t, strings, s) == list_of(t, k));
        } else {
            let kk = ks as usize;
            assert(kk != k);
            assert(t2.contains_key(kk) == t.contains_key(kk));
            if t.contains_key(kk) {
                assert(t2[kk] == t[kk]);
            }
            assert(list_of(t2, kk) == list_of(t, kk));
            assert(lookup(t, strings, s) + Seq::<V>::empty() =~= lookup(t, strings, s));
        }
    } else {
        assert(strings.contains(strings[k as int]));
        assert(s != strings[k as int]);
        assert(lookup(t, strings, s) + Seq::<V>::empty() =~= lookup(t, strings, s));
    }
}

/// After pushing a new document's entries, a table is sound for the realm
/// with that document appended.
proof fn lemma_sound_after_push<V: UriEntry>(
    t0: Map<usize, Seq<V>>,
    s0: Seq<Seq<char>>,
    t1: Map<usize, Seq<V>>,
    s1: Seq<Seq<char>>,
    docs: Seq<(String, DocumentView)>,
    names_fn: spec_fn(DocumentView) -> Seq<Seq<char>>,
    names: Seq<Seq<char>>,
    entries: Seq<V>,
    extra: (String, DocumentView),
)
    requires
        sound(t0, s0, docs, names_fn),
        s0.len() <= s1.len(),
        s1.subrange(0, s0.len() as int) == s0,
        forall|k: usize| #[trigger] t1.contains_key(k) ==> k < s1.len() && (t0.contains_key(k) || t1[k].len() > 0),
        forall|k: usize| k < s1.len() ==> #[trigger] list_of(t1, k) == list_of(t0, k) + pushed(names, entries, s1[k as int]),
        names.len() == entries.len(),
        forall|i: int| 0 <= i < entries.len() ==> (#[trigger] entries[i]).entry_uri() == extra.0@ && names_fn(extra.1).contains(names[i]),
    ensures
        sound(t1, s1, docs.push(extra), names_fn),
{
    let d2 = docs.push(extra);
    assert forall|k: usize| #[trigger] t1.contains_key(k) implies k < s1.len() && t1[k].len() > 0 && (forall|j: int|
        0 <= j < t1[k].len() ==> owned_by(d2, (#[trigger] t1[k][j]).entry_uri(), names_fn, s1[k as int])) by {
        let l0 = list_of(t0, k);
        let p = pushed(names, entries, s1[k as int]);
        assert(t1[k] == list_of(t1, k));
        assert(t1[k] == l0 + p);
        lemma_pushed(names, entries, s1[k as int]);
        if t0.contains_key(k) {
            assert(k < s0.len());
            assert(s1[k as int] == s0[k as int]);
        }
        assert forall|j: int| 0 <= j < t1[k].len() implies owned_by(d2, (#[trigger] t1[k][j]).entry_uri(), names_fn, s1[k as int]) by {
            if j < l0.len() {
                assert(t0.contains_key(k));
                assert(t1[k][j] == t0[k][j]);
                assert(owned_by(docs, t0[k][j].entry_uri(), names_fn, s0[k as int]));
                let i2 = choose|i2: int| 0 <= i2 < docs.len() && docs[i2].0@ == t0[k][j].entry_uri() && (#[trigger] names_fn(docs[i2].1)).contains(s0[k as int]);
                assert(d2[i2] == docs[i2]);
            } else {
                assert(t1[k][j] == p[j - l0.len()]);
                let i = choose|i: int| 0 <= i < names.len() && names[i] == s1[k as int] && entries[i] == #[trigger] p[j - l0.len()];
                assert(entries[i].entry_uri() == extra.0@);
                assert(d2[docs.len() as int] == extra);
                assert(names_fn(d2[docs.len() as int].1).contains(s1[k as int]));
            }
        }
    }
}

/// A table's string lists after pushing entries under names.
proof fn lemma_lookup_push<V>(
    t0: Map<usize, Seq<V>>,
    s0: Seq<Seq<char>>,
    t1: Map<usize, Seq<V>>,
    s1: Seq<Seq<char>>,
    names: Seq<Seq<char>>,
    entries: Seq<V>,
    s: Seq<char>,
)
    requires
        s0.no_duplicates(),
        s1.no_duplicates(),
        s0.len() <= s1.len(),
        s1.len() < 4294967295,
        s1.subrange(0, s0.len() as int) == s0,
        forall|k: usize| #[trigger] t0.contains_key(k) ==> k < s0.len(),
        forall|k: usize| k < s1.len() ==> #[trigger] list_of(t1, k) == list_of(t0, k) + pushed(names, entries, s1[k as int]),
        forall|i: int| 0 <= i < names.len() ==> s1.contains(#[trigger] names[i]),
        names.len() == entries.len(),
    ensures
        lookup(t1, s1, s) == lookup(t0, s0, s) + pushed(names, entries, s),
{
    lemma_pushed(names, entries, s);
    if s1.contains(s) {
        let k1 = s1.index_of(s);
        assert(0 <= k1 < s1.len() && s1[k1] == s);
        assert(list_of(t1, k1 as usize) == list_of(t0, k1 as usize) + pushed(names, entries, s1[k1]));
        if s0.contains(s) {
            let k0 = s0.index_of(s);
            assert(s1[k0] == s0[k0]);
            assert(k0 == k1) by {
                if k0 != k1 {
                    assert(s1[k0] == s1[k1]);
                }
            }
        } else {
            assert(k1 >= s0.len()) by {
                if k1 < s0.len() {
                    assert(s0[k1] == s1[k1]);
                }
            }
            assert(!t0.contains_key(k1 as usize));
            assert(list_of(t0, k1 as usize) =~= Seq::<V>::empty());
        }
    } else {
        assert(!s0.contains(s)) by {
            if s0.contains(s) {
                let k0 = s0.index_of(s);
                assert(s1[k0] == s0[k0]);
            }
        }
        assert(!names.contains(s)) by {
            if names.contains(s) {
                let i = choose|i: int| 0 <= i < names.len() && names[i] == s;
                assert(s1.contains(names[i]));
            }
        }
        assert(pushed(names, entries, s) =~= Seq::<V>::empty());
    }
}

/// The heading entries of a document, in order.
fn heading_entry_list(uri: &String, idx: &DocumentIndex) -> (r: Vec<(String, ResolvedHeading)>)
    ensures
        r@ == idx@.headings.map_values(|h: HeadingEntry| (*uri, resolved_heading(h))),
{
    let hs = idx.headings();
    let mut out: Vec<(String, ResolvedHeading)> = Vec::new();
    let mut i: usize = 0;
    while i < hs.len()
        invariant
            i <= hs@.len(),
            hs@ == idx@.headings,
            out@ == hs@.subrange(0, i as int).map_values(|h: HeadingEntry| (*uri, resolved_heading(h))),
        decreases hs@.len() - i,
    {
        let h = &hs[i];
        out.push(
            (
                uri.clone(),
                ResolvedHeading {
                    text: h.text.clone(),
                    slug: h.slug.clone(),
                    level: h.level,
                    range: h.range,
                },
            ),
        );
        assert(out@ =~= hs@.subrange(0, i + 1).map_values(|h: HeadingEntry| (*uri, resolved_heading(h))));
        i = i + 1;
    }
    assert(hs@.subrange(0, hs@.len() as int) =~= hs@);
    out
}

/// The block entries of a document, in order.
fn block_entry_list(uri: &String, idx: &DocumentIndex) -> (r: Vec<(String, ResolvedBlock)>)
    ensures
        r@ == idx@.blocks.map_values(|b: BlockEntry| (*uri, resolved_block(b))),
{
    let bs = idx.blocks();
    let mut out: Vec<(String, ResolvedBlock)> = Vec::new();
    let mut i: usize = 0;
    while i < bs.len()
        invariant
            i <= bs@.len(),
            bs@ == idx@.blocks,
            out@ == bs@.subrange(0, i as int).map_values(|b: BlockEntry| (*uri, resolved_block(b))),
        decreases bs@.len() - i,
    {
        out.push((uri.clone(), ResolvedBlock { id: bs[i].id.clone(), range: bs[i].range }));
        assert(out@ =~= bs@.subrange(0, i + 1).map_values(|b: BlockEntry| (*uri, resolved_block(b))));
        i = i + 1;
    }
    assert(bs@.subrange(0, bs@.len() as int) =~= bs@);
    out
}

/// The names at the given positions.
fn names_at_exec<'a>(names: &Vec<&'a str>, ps: &Vec<usize>) -> (r: Vec<&'a str>)
    requires
        forall|j: int| 0 <= j < ps@.len() ==> #[trigger] ps@[j] < names@.len(),
    ensures
        strs(r@) == names_at(strs(names@), ps@.map_values(|p: usize| p as int)),
{
    let mut out: Vec<&str> = Vec::new();
    let mut j: usize = 0;
    while j < ps.len()
        invariant
            j <= ps@.len(),
            forall|m: int| 0 <= m < ps@.len() ==> #[trigger] ps@[m] < names@.len(),
            out@.len() == j,
            forall|m: int| 0 <= m < j ==> (#[trigger] out@[m])@ == names@[ps@[m] as int]@,
        decreases ps@.len() - j,
    {
        out.push(names[ps[j]]);
        j = j + 1;
    }
    assert(strs(out@) =~= names_at(strs(names@), ps@.map_values(|p: usize| p as int)));
    out
}

/// `n` copies of a URI.
fn uri_copies(uri: &String, n: usize) -> (r: Vec<String>)
    ensures
        r@ == Seq::new(n as nat, |i: int| *uri),
{
    let mut out: Vec<String> = Vec::new();
    let mut j: usize = 0;
    while j < n
        invariant
            j <= n,
            out@ == Seq::new(j as nat, |i: int| *uri),
        decreases n - j,
    {
        out.push(uri.clone());
        assert(out@ =~= Seq::new((j + 1) as nat, |i: int| *uri));
        j = j + 1;
    }
    out
}

/// The code span entries at the given positions.
fn span_entry_list(uri: &String, idx: &DocumentIndex, ps: &Vec<usize>) -> (r: Vec<(String, ResolvedCodeSpan)>)
    requires
        forall|j: int| 0 <= j < ps@.len() ==> #[trigger] ps@[j] < idx@.code_spans.len(),
    ensures
        r@ == ps@.map_values(|p: usize| p as int).map_values(
            |p: int| (*uri, resolved_code_span(idx@.code_spans[p])),
        ),
{
    let cs = idx.code_spans();
    let mut out: Vec<(String, ResolvedCodeSpan)> = Vec::new();
    let mut j: usize = 0;
    while j < ps.len()
        invariant
            j <= ps@.len(),
            cs@ == idx@.code_spans,
            forall|m: int| 0 <= m < ps@.len() ==> #[trigger] ps@[m] < cs@.len(),
            out@.len() == j,
            forall|m: int| 0 <= m < j ==> #[trigger] out@[m] == (*uri, resolved_code_span(cs@[ps@[m] as int])),
        decreases ps@.len() - j,
    {
        let c = &cs[ps[j]];
        out.push(
            (
                uri.clone(),
                ResolvedCodeSpan {
                    text: c.text.clone(),
                    range: c.range,
                    start_byte: c.start_byte,
                    end_byte: c.end_byte,
                },
            ),
        );
        j = j + 1;
    }
    assert(out@ =~= ps@.map_values(|p: usize| p as int).map_values(
        |p: int| (*uri, resolved_code_span(idx@.code_spans[p])),
    ));
    out
}

/// Interning more strings changes no string list of a table.
proof fn lemma_lookup_extend<V>(t: Map<usize, Seq<V>>, s0: Seq<Seq<char>>, s1: Seq<Seq<char>>, s: Seq<char>)
    requires
        s1.no_duplicates(),
        s0.len() <= s1.len(),
        s1.len() < 4294967295,
        s1.subrange(0, s0.len() as int) == s0,
        forall|k: usize| #[trigger] t.contains_key(k) ==> k < s0.len(),
    ensures
        lookup(t, s1, s) == lookup(t, s0, s),
{
    if s1.contains(s) {
        let k1 = s1.index_of(s);
        assert(0 <= k1 < s1.len() && s1[k1] == s);
        if s0.contains(s) {
            let k0 = s0.index_of(s);
            assert(s1[k0] == s0[k0]);
            if k0 != k1 {
                assert(s1[k0] == s1[k1]);
            }
        } else {
            if k1 < s0.len() {
                assert(s0[k1] == s1[k1]);
            }
            assert(!t.contains_key(k1 as usize));
        }
    } else if s0.contains(s) {
        let k0 = s0.index_of(s);
        assert(s1[k0] == s0[k0]);
    }
}

/// Interning more strings keeps a table sound.
proof fn lemma_sound_extend<V: UriEntry>(
    t: Map<usize, Seq<V>>,
    s0: Seq<Seq<char>>,
    s1: Seq<Seq<char>>,
    docs: Seq<(String, DocumentView)>,
    names: spec_fn(DocumentView) -> Seq<Seq<char>>,
)
    requires
        sound(t, s0, docs, names),
        s0.len() <= s1.len(),
        s1.subrange(0, s0.len() as int) == s0,
    ensures
        sound(t, s1, docs, names),
{
    assert forall|k: usize| #[trigger] t.contains_key(k) implies k < s1.len() && t[k].len() > 0 && (forall|j: int|
        0 <= j < t[k].len() ==> owned_by(docs, (#[trigger] t[k][j]).entry_uri(), names, s1[k as int])) by {
        assert(s1[k as int] == s0[k as int]);
    }
}

/// What adding document `d` under `uri` does to a realm: the document takes
/// the last place (leaving the one it had), at most more strings are
/// interned, and under every string each table lists its entries without
/// those of `uri`, then the new document's.
pub open spec fn add_effect(v0: RealmView, uri: String, d: DocumentView, v1: RealmView) -> bool {
    &&& v1.docs == without_doc(v0.docs, uri@).push((uri, d))
    &&& v1.interned.len() >= v0.interned.len()
    &&& forall|s: Seq<char>|
        #[trigger] lookup(v1.headings, v1.interned, s) == drop_uri(lookup(v0.headings, v0.interned, s), uri@)
            + heading_entries(uri, d.headings, s)
    &&& forall|s: Seq<char>|
        #[trigger] lookup(v1.blocks, v1.interned, s) == drop_uri(lookup(v0.blocks, v0.interned, s), uri@)
            + block_entries(uri, d.blocks, s)
    &&& forall|s: Seq<char>|
        #[trigger] lookup(v1.tags, v1.interned, s) == drop_uri(lookup(v0.tags, v0.interned, s), uri@)
            + tag_entries(uri, d.tags, s)
    &&& forall|s: Seq<char>|
        #[trigger] lookup(v1.code_spans, v1.interned, s) == drop_uri(lookup(v0.code_spans, v0.interned, s), uri@)
            + code_span_entries(uri, d.code_spans, s)
    &&& forall|dd: (u16, u8, u8)|
        #[trigger] list_of(v1.dates, dd) == drop_uri(list_of(v0.dates, dd), uri@) + date_entries(uri, dd)
    &&& forall|s: Seq<char>|
        #[trigger] lookup(v1.stems, v1.interned, s) == drop_uri(lookup(v0.stems, v0.interned, s), uri@)
            + stem_entries(uri, s)
}

/// What removing document `u` does to a realm: it leaves the documents, and
/// its entries leave every table; nothing else changes.
pub open spec fn remove_effect(v0: RealmView, u: Seq<char>, v1: RealmView) -> bool {
    &&& v1.docs == without_doc(v0.docs, u)
    &&& v1.interned == v0.interned
    &&& forall|s: Seq<char>|
        #[trigger] lookup(v1.headings, v1.interned, s) == drop_uri(lookup(v0.headings, v0.interned, s), u)
    &&& forall|s: Seq<char>|
        #[trigger] lookup(v1.blocks, v1.interned, s) == drop_uri(lookup(v0.blocks, v0.interned, s), u)
    &&& forall|s: Seq<char>|
        #[trigger] lookup(v1.tags, v1.interned, s) == drop_uri(lookup(v0.tags, v0.interned, s), u)
    &&& forall|s: Seq<char>|
        #[trigger] lookup(v1.code_spans, v1.interned, s) == drop_uri(lookup(v0.code_spans, v0.interned, s), u)
    &&& v1.dates == drop_all(v0.dates, u)
    &&& forall|s: Seq<char>|
        #[trigger] lookup(v1.stems, v1.interned, s) == drop_uri(lookup(v0.stems, v0.interned, s), u)
}

/// What updating document `uri` to version `d` does to a realm: a document
/// not there is added at the end; one there keeps its place with the new
/// version, and each table's list changes by `patched`; the date table gains
/// the new document's journal date only when it was not there, and the stem
/// table its stem entry likewise.
pub open spec fn update_effect(v0: RealmView, uri: String, d: DocumentView, v1: RealmView) -> bool {
    &&& v1.docs == (if doc_pos(v0.docs, uri@) >= 0 {
        v0.docs.update(doc_pos(v0.docs, uri@), (uri, d))
    } else {
        v0.docs.push((uri, d))
    })
    &&& v1.interned.len() >= v0.interned.len()
    &&& forall|s: Seq<char>|
        #[trigger] lookup(v1.headings, v1.interned, s) == patched(
            lookup(v0.headings, v0.interned, s),
            uri@,
            prior_names(v0.docs, uri@, |x: DocumentView| slugs_of(x)).contains(s),
            slugs_of(d).contains(s),
            heading_entries(uri, d.headings, s),
        )
    &&& forall|s: Seq<char>|
        #[trigger] lookup(v1.blocks, v1.interned, s) == patched(
            lookup(v0.blocks, v0.interned, s),
            uri@,
            prior_names(v0.docs, uri@, |x: DocumentView| block_ids_of(x)).contains(s),
            block_ids_of(d).contains(s),
            block_entries(uri, d.blocks, s),
        )
    &&& forall|s: Seq<char>|
        #[trigger] lookup(v1.tags, v1.interned, s) == patched(
            lookup(v0.tags, v0.interned, s),
            uri@,
            prior_names(v0.docs, uri@, |x: DocumentView| tag_names_of(x)).contains(s),
            tag_names_of(d).contains(s),
            tag_entries(uri, d.tags, s),
        )
    &&& forall|s: Seq<char>|
        #[trigger] lookup(v1.code_spans, v1.interned, s) == patched(
            lookup(v0.code_spans, v0.interned, s),
            uri@,
            prior_names(v0.docs, uri@, |x: DocumentView| span_texts_of(x)).contains(s),
            span_texts_of(d).contains(s),
            code_span_entries(uri, d.code_spans, s),
        )
    &&& forall|dd: (u16, u8, u8)|
        #[trigger] list_of(v1.dates, dd) == list_of(v0.dates, dd) + (if doc_pos(v0.docs, uri@) >= 0 {
            Seq::<String>::empty()
        } else {
            date_entries(uri, dd)
        })
    &&& forall|s: Seq<char>|
        #[trigger] lookup(v1.stems, v1.interned, s) == lookup(v0.stems, v0.interned, s) + (if doc_pos(v0.docs, uri@)
            >= 0 {
            Seq::<String>::empty()
        } else {
            stem_entries(uri, s)
        })
}

/// The number of names a document can add to the interner: its heading
/// slugs, block ids, tag names and code span texts, and the stem of its URI.
pub open spec fn names_in(d: DocumentView) -> int {
    (d.headings.len() + d.blocks.len() + d.tags.len() + d.code_spans.len() + 1) as int
}

impl RealmIndex {
    /// Add a markdown document under `uri`, replacing the document already
    /// there: its old entries leave every cross-document table, and the new
    /// document's headings, blocks, tags (once per tag), code spans (the first
    /// per text) and journal date join them, after the entries already there.
    pub fn add_document(&mut self, uri: String, index: DocumentIndex)
        requires
            old(self).wf(),
            old(self)@.interned.len() + names_in(index@) < 4294967295,
        ensures
            final(self).wf(),
            add_effect(old(self)@, uri, index@, final(self)@),
            final(self)@.interned.len() <= old(self)@.interned.len() + names_in(index@),
            tag_table_exact(old(self)@) ==> tag_table_exact(final(self)@),
    {
        let ghost v0 = self@;
        let ghost u = uri;
        let ghost dv = index@;
        self.add_document_structural(uri, index);
        proof {
            if tag_table_exact(v0) {
                law_add_keeps_tags_exact(v0, self@, u, dv);
            }
        }
    }

    /// Add a markdown document to the cross-document tables and the document
    /// list; `add_document` does the same.
    #[verifier::rlimit(60)]
    pub fn add_document_structural(&mut self, uri: String, index: DocumentIndex)
        requires
            old(self).wf(),
            old(self)@.interned.len() + names_in(index@) < 4294967295,
        ensures
            final(self).wf(),
            add_effect(old(self)@, uri, index@, final(self)@),
            final(self)@.interned.len() <= old(self)@.interned.len() + names_in(index@),
    {
        let ghost v0 = self@;
        let ghost iv = index@;
        self.remove_from_cross_doc_indexes(uri.as_str());
        let ghost v1 = self@;
        proof {
            lemma_drop_all_sound(v0.headings, v0.interned, v0.docs, |d: DocumentView| slugs_of(d), uri@);
            lemma_drop_all_sound(v0.blocks, v0.interned, v0.docs, |d: DocumentView| block_ids_of(d), uri@);
            lemma_drop_all_sound(v0.tags, v0.interned, v0.docs, |d: DocumentView| tag_names_of(d), uri@);
            lemma_drop_all_sound(v0.code_spans, v0.interned, v0.docs, |d: DocumentView| span_texts_of(d), uri@);
            lemma_dates_drop(v0.dates, v0.docs, uri@);
            lemma_stems_drop(v0.stems, v0.interned, v0.docs, uri@);
            lemma_doc_pos(v0.docs, uri@);
        }
        match self.position_of(uri.as_str()) {
            Some(i) => {
                proof {
                    lemma_sound_remove_doc(v1.headings, v1.interned, v1.docs, |d: DocumentView| slugs_of(d), i as int);
                    lemma_sound_remove_doc(v1.blocks, v1.interned, v1.docs, |d: DocumentView| block_ids_of(d), i as int);
                    lemma_sound_remove_doc(v1.tags, v1.interned, v1.docs, |d: DocumentView| tag_names_of(d), i as int);
                    lemma_sound_remove_doc(v1.code_spans, v1.interned, v1.docs, |d: DocumentView| span_texts_of(d), i as int);
                    lemma_dates_remove_doc(v1.dates, v1.docs, i as int);
                    lemma_stems_remove_doc(v1.stems, v1.interned, v1.docs, i as int);
                }
                self.docs.remove(i);
                proof {
                    assert(docs_view(self.docs@) =~= v1.docs.remove(i as int));
                }
            },
            None => {},
        }
        let ghost v2 = self@;
        assert(v2.docs == without_doc(v0.docs, uri@));
        assert(stems_sound(v2.stems, v0.interned, v2.docs));
        assert(v2.stems == drop_all(v0.stems, uri@));
        // Headings.
        let slugs = slug_names(&index);
        let hentries = heading_entry_list(&uri, &index);
        let ghost hn = strs(slugs@);
        let ghost he = hentries@;
        assert(hn.len() == iv.headings.len());
        assert(v2.interned == v0.interned);
        push_under(&mut self.interner, &mut self.slug_to_headings, &slugs, hentries);
        let ghost v3 = self@;
        // Blocks.
        let ids = block_names(&index);
        let bentries = block_entry_list(&uri, &index);
        let ghost bn = strs(ids@);
        let ghost be = bentries@;
        assert(bn.len() == iv.blocks.len());
        push_under(&mut self.interner, &mut self.block_to_location, &ids, bentries);
        let ghost v4 = self@;
        // Tags, once per distinct name.
        let tnames = tag_names(&index);
        let tps = first_positions(&tnames);
        proof {
            lemma_firsts(strs(tnames@));
            assert forall|j: int| 0 <= j < tps@.len() implies #[trigger] tps@[j] < tnames@.len() by {
                assert(tps@.map_values(|p: usize| p as int)[j] == tps@[j] as int);
            }
        }
        let tdistinct = names_at_exec(&tnames, &tps);
        let tentries = uri_copies(&uri, tps.len());
        let ghost tn = strs(tdistinct@);
        let ghost te = tentries@;
        assert(tn.len() == tps@.len());
        assert(tps@.len() == tps@.map_values(|p: usize| p as int).len());
        assert(tn.len() <= iv.tags.len());
        push_under(&mut self.interner, &mut self.tag_to_docs, &tdistinct, tentries);
        let ghost v5 = self@;
        // Code spans, the first per distinct text.
        let texts = span_texts(&index);
        let sps = first_positions(&texts);
        proof {
            lemma_firsts(strs(texts@));
            assert forall|j: int| 0 <= j < sps@.len() implies #[trigger] sps@[j] < texts@.len() by {
                assert(sps@.map_values(|p: usize| p as int)[j] == sps@[j] as int);
            }
        }
        let sdistinct = names_at_exec(&texts, &sps);
        let sentries = span_entry_list(&uri, &index, &sps);
        let ghost sn = strs(sdistinct@);
        let ghost se = sentries@;
        assert(sn.len() == sps@.len());
        assert(sps@.len() == sps@.map_values(|p: usize| p as int).len());
        assert(sn.len() <= iv.code_spans.len());
        push_under(&mut self.interner, &mut self.code_span_to_docs, &sdistinct, sentries);
        let ghost v6 = self@;
        // File stem.
        let ghost mut stem_key: usize = 0;
        match stem_of(uri.as_str()) {
            Some(st) => {
                assert(v6.interned.len() < 4294967295);
                let k = interner_get_or_intern(&mut self.interner, st.as_str());
                push_entry(&mut self.stem_to_uris, k, uri.clone());
                proof {
                    stem_key = k;
                    assert(self@.stems == v6.stems.insert(k, list_of(v6.stems, k).push(uri)));
                    assert(self@.interned[k as int] == uri_stem(uri@)->0);
                }
            },
            None => {},
        }
        let ghost v7 = self@;
        // Journal date.
        match detect_journal_date(uri.as_str()) {
            Some(d) => {
                push_date_entry(&mut self.date_to_docs, d, uri.clone());
            },
            None => {},
        }
        let ghost u = uri;
        self.docs.push((uri, index));
        proof {
            let v = self@;
            let extra = (u, iv);
            assert(v.interned.subrange(0, v6.interned.len() as int) =~= v6.interned);
            assert(v.docs =~= v2.docs.push(extra));
            let s0 = v0.interned;
            assert(v1.interned == s0 && v2.interned == s0);
            // Interned strings only grow.
            assert(v.interned.subrange(0, v5.interned.len() as int) =~= v5.interned);
            assert(v.interned.subrange(0, v4.interned.len() as int) =~= v4.interned);
            assert(v.interned.subrange(0, v3.interned.len() as int) =~= v3.interned);
            assert(v.interned.subrange(0, s0.len() as int) =~= s0);
            assert(v5.interned.subrange(0, v4.interned.len() as int) =~= v4.interned);
            assert(v5.interned.subrange(0, v3.interned.len() as int) =~= v3.interned);
            assert(v4.interned.subrange(0, v3.interned.len() as int) =~= v3.interned);
            assert(v4.interned.subrange(0, s0.len() as int) =~= s0);
            assert(v5.interned.subrange(0, s0.len() as int) =~= s0);
            assert(v3.interned.subrange(0, s0.len() as int) =~= s0);
            // Headings.
            assert forall|i: int| 0 <= i < he.len() implies (#[trigger] he[i]).entry_uri() == extra.0@ && slugs_of(extra.1).contains(hn[i]) by {
                assert(hn[i] == slugs_of(iv)[i]);
            }
            lemma_sound_after_push(v2.headings, s0, v3.headings, v3.interned, v2.docs, |d: DocumentView| slugs_of(d), hn, he, extra);
            lemma_sound_extend(v3.headings, v3.interned, v.interned, v.docs, |d: DocumentView| slugs_of(d));
            assert forall|s: Seq<char>| #[trigger] lookup(v.headings, v.interned, s) == drop_uri(lookup(v0.headings, s0, s), u@) + heading_entries(u, iv.headings, s) by {
                lemma_lookup_push(v2.headings, s0, v3.headings, v3.interned, hn, he, s);
                lemma_lookup_extend(v3.headings, v3.interned, v.interned, s);
                lemma_lookup_drop(v0.headings, s0, u@, s);
                lemma_heading_pushed(u, iv.headings, s);
            }
            // Blocks.
            assert forall|i: int| 0 <= i < be.len() implies (#[trigger] be[i]).entry_uri() == extra.0@ && block_ids_of(extra.1).contains(bn[i]) by {
                assert(bn[i] == block_ids_of(iv)[i]);
            }
            lemma_sound_extend(v2.blocks, s0, v3.interned, v2.docs, |d: DocumentView| block_ids_of(d));
            lemma_sound_after_push(v3.blocks, v3.interned, v4.blocks, v4.interned, v2.docs, |d: DocumentView| block_ids_of(d), bn, be, extra);
            lemma_sound_extend(v4.blocks, v4.interned, v.interned, v.docs, |d: DocumentView| block_ids_of(d));
            assert forall|s: Seq<char>| #[trigger] lookup(v.blocks, v.interned, s) == drop_uri(lookup(v0.blocks, s0, s), u@) + block_entries(u, iv.blocks, s) by {
                lemma_lookup_extend(v2.blocks, s0, v3.interned, s);
                lemma_lookup_push(v3.blocks, v3.interned, v4.blocks, v4.interned, bn, be, s);
                lemma_lookup_extend(v4.blocks, v4.interned, v.interned, s);
                lemma_lookup_drop(v0.blocks, s0, u@, s);
                lemma_block_pushed(u, iv.blocks, s);
            }
            // Tags.
            let nt = tag_names_of(iv);
            assert(tps@.map_values(|p: usize| p as int) == firsts(nt));
            assert(tn == names_at(nt, firsts(nt)));
            assert(te =~= Seq::new(firsts(nt).len(), |i: int| u));
            assert forall|i: int| 0 <= i < te.len() implies (#[trigger] te[i]).entry_uri() == extra.0@ && tag_names_of(extra.1).contains(tn[i]) by {
                assert(tn[i] == nt[firsts(nt)[i]]);
            }
            lemma_sound_extend(v2.tags, s0, v4.interned, v2.docs, |d: DocumentView| tag_names_of(d));
            lemma_sound_after_push(v4.tags, v4.interned, v5.tags, v5.interned, v2.docs, |d: DocumentView| tag_names_of(d), tn, te, extra);
            lemma_sound_extend(v5.tags, v5.interned, v.interned, v.docs, |d: DocumentView| tag_names_of(d));
            assert forall|s: Seq<char>| #[trigger] lookup(v.tags, v.interned, s) == drop_uri(lookup(v0.tags, s0, s), u@) + tag_entries(u, iv.tags, s) by {
                lemma_lookup_extend(v2.tags, s0, v4.interned, s);
                lemma_lookup_push(v4.tags, v4.interned, v5.tags, v5.interned, tn, te, s);
                lemma_lookup_extend(v5.tags, v5.interned, v.interned, s);
                lemma_lookup_drop(v0.tags, s0, u@, s);
                lemma_tag_pushed(u, iv.tags, s);
            }
            // Code spans.
            let nc = span_texts_of(iv);
            assert(sps@.map_values(|p: usize| p as int) == firsts(nc));
            assert(sn == names_at(nc, firsts(nc)));
            assert(se == firsts(nc).map_values(|p: int| (u, resolved_code_span(iv.code_spans[p]))));
            assert forall|i: int| 0 <= i < se.len() implies (#[trigger] se[i]).entry_uri() == extra.0@ && span_texts_of(extra.1).contains(sn[i]) by {
                assert(sn[i] == nc[firsts(nc)[i]]);
            }
            lemma_sound_extend(v2.code_spans, s0, v5.interned, v2.docs, |d: DocumentView| span_texts_of(d));
            lemma_sound_after_push(v5.code_spans, v5.interned, v6.code_spans, v6.interned, v2.docs, |d: DocumentView| span_texts_of(d), sn, se, extra);
            lemma_sound_extend(v6.code_spans, v6.interned, v.interned, v.docs, |d: DocumentView| span_texts_of(d));
            assert forall|s: Seq<char>| #[trigger] lookup(v.code_spans, v.interned, s) == drop_uri(lookup(v0.code_spans, s0, s), u@) + code_span_entries(u, iv.code_spans, s) by {
                lemma_lookup_extend(v2.code_spans, s0, v5.interned, s);
                lemma_lookup_push(v5.code_spans, v5.interned, v6.code_spans, v6.interned, sn, se, s);
                lemma_lookup_extend(v6.code_spans, v6.interned, v.interned, s);
                lemma_lookup_drop(v0.code_spans, s0, u@, s);
                lemma_span_pushed(u, iv.code_spans, s);
            }
            // Journal dates.
            // File stems.
            lemma_add_stems(v0.stems, s0, v2.stems, v2.docs, v.docs, v.interned, v.stems, u, iv, stem_key);
            assert forall|d: (u16, u8, u8)| #[trigger] list_of(v.dates, d) == drop_uri(list_of(v0.dates, d), u@) + date_entries(u, d) by {
                if v0.dates.contains_key(d) {
                    if drop_uri(v0.dates[d], u@).len() == 0 {
                        assert(drop_uri(v0.dates[d], u@) =~= Seq::<String>::empty());
                    }
                } else {
                    assert(drop_uri(Seq::<String>::empty(), u@) == Seq::<String>::empty());
                }
            }
            assert(unique_uris(v.docs)) by {
                assert forall|i: int, j: int| 0 <= i < j < v.docs.len() implies (#[trigger] v.docs[i]).0@ != (#[trigger] v.docs[j]).0@ by {
                    if j == v.docs.len() - 1 {
                        assert(v2.docs[i].0@ != u@);
                    } else {
                        assert(v.docs[i] == v2.docs[i] && v.docs[j] == v2.docs[j]);
                    }
                }
            }
            assert(dates_sound(v.dates, v.docs)) by {
                assert forall|d: (u16, u8, u8)| #[trigger] v.dates.contains_key(d) implies v.dates[d].len() > 0 && (forall|j: int|
                    0 <= j < v.dates[d].len() ==> journal_date_of(encode_utf8((#[trigger] v.dates[d][j])@)) == Some(d)
                        && (exists|m: int| 0 <= m < v.docs.len() && v.docs[m].0@ == v.dates[d][j]@)) by {
                    assert forall|j: int| 0 <= j < v.dates[d].len() implies journal_date_of(encode_utf8((#[trigger] v.dates[d][j])@)) == Some(d)
                        && (exists|m: int| 0 <= m < v.docs.len() && v.docs[m].0@ == v.dates[d][j]@) by {
                        if v2.dates.contains_key(d) && j < v2.dates[d].len() {
                            assert(v.dates[d][j] == v2.dates[d][j]);
                            let m = choose|m: int| 0 <= m < v2.docs.len() && v2.docs[m].0@ == v2.dates[d][j]@;
                            assert(v.docs[m] == v2.docs[m]);
                        } else {
                            assert(v.dates[d][j] == u);
                            assert(v.docs[v.docs.len() - 1].0@ == u@);
                        }
                    }
                }
            }
        }
    }

    /// Remove a document: it leaves the realm and all its entries leave the
    /// cross-document tables.
    pub fn remove_document(&mut self, uri: &str)
        requires
            old(self).wf(),
        ensures
            final(self).wf(),
            remove_effect(old(self)@, uri@, final(self)@),
            tag_table_exact(old(self)@) ==> tag_table_exact(final(self)@),
    {
        let ghost v0 = self@;
        self.remove_from_cross_doc_indexes(uri);
        let ghost v1 = self@;
        proof {
            lemma_drop_all_sound(v0.headings, v0.interned, v0.docs, |d: DocumentView| slugs_of(d), uri@);
            lemma_drop_all_sound(v0.blocks, v0.interned, v0.docs, |d: DocumentView| block_ids_of(d), uri@);
            lemma_drop_all_sound(v0.tags, v0.interned, v0.docs, |d: DocumentView| tag_names_of(d), uri@);
            lemma_drop_all_sound(v0.code_spans, v0.interned, v0.docs, |d: DocumentView| span_texts_of(d), uri@);
            lemma_dates_drop(v0.dates, v0.docs, uri@);
            lemma_doc_pos(v0.docs, uri@);
            assert forall|s: Seq<char>| #[trigger] lookup(v1.headings, v1.interned, s) == drop_uri(lookup(v0.headings, v0.interned, s), uri@) by {
                lemma_lookup_drop(v0.headings, v0.interned, uri@, s);
            }
            assert forall|s: Seq<char>| #[trigger] lookup(v1.blocks, v1.interned, s) == drop_uri(lookup(v0.blocks, v0.interned, s), uri@) by {
                lemma_lookup_drop(v0.blocks, v0.interned, uri@, s);
            }
            assert forall|s: Seq<char>| #[trigger] lookup(v1.tags, v1.interned, s) == drop_uri(lookup(v0.tags, v0.interned, s), uri@) by {
                lemma_lookup_drop(v0.tags, v0.interned, uri@, s);
            }
            assert forall|s: Seq<char>| #[trigger] lookup(v1.code_spans, v1.interned, s) == drop_uri(lookup(v0.code_spans, v0.interned, s), uri@) by {
                lemma_lookup_drop(v0.code_spans, v0.interned, uri@, s);
            }
            assert forall|s: Seq<char>| #[trigger] lookup(v1.stems, v1.interned, s) == drop_uri(lookup(v0.stems, v0.interned, s), uri@) by {
                lemma_lookup_drop(v0.stems, v0.interned, uri@, s);
            }
            lemma_stems_drop(v0.stems, v0.interned, v0.docs, uri@);
        }
        match self.position_of(uri) {
            Some(i) => {
                proof {
                    lemma_sound_remove_doc(v1.headings, v1.interned, v1.docs, |d: DocumentView| slugs_of(d), i as int);
                    lemma_sound_remove_doc(v1.blocks, v1.interned, v1.docs, |d: DocumentView| block_ids_of(d), i as int);
                    lemma_sound_remove_doc(v1.tags, v1.interned, v1.docs, |d: DocumentView| tag_names_of(d), i as int);
                    lemma_sound_remove_doc(v1.code_spans, v1.interned, v1.docs, |d: DocumentView| span_texts_of(d), i as int);
                    lemma_dates_remove_doc(v1.dates, v1.docs, i as int);
                    lemma_stems_remove_doc(v1.stems, v1.interned, v1.docs, i as int);
                }
                self.docs.remove(i);
                proof {
                    assert(docs_view(self.docs@) =~= v1.docs.remove(i as int));
                    assert(unique_uris(self@.docs)) by {
                        let d2 = self@.docs;
                        assert forall|a: int, b: int| 0 <= a < b < d2.len() implies (#[trigger] d2[a]).0@ != (#[trigger] d2[b]).0@ by {
                            let a0 = if a < i { a } else { a + 1 };
                            let b0 = if b < i { b } else { b + 1 };
                            assert(d2[a] == v1.docs[a0] && d2[b] == v1.docs[b0]);
                        }
                    }
                }
            },
            None => {},
        }
        proof {
            assert(remove_effect(v0, uri@, self@));
            if tag_table_exact(v0) {
                law_remove_keeps_tags_exact(v0, self@, uri@);
            }
        }
    }

    /// Add documents one after another, as `add_document` does for each.
    pub fn add_documents(&mut self, docs: Vec<(String, DocumentIndex)>)
        requires
            old(self).wf(),
            old(self)@.interned.len() + names_total(docs_view(docs@)) < 4294967295,
        ensures
            final(self).wf(),
            adds_effect(old(self)@, docs_view(docs@), final(self)@),
            tag_table_exact(old(self)@) ==> tag_table_exact(final(self)@),
    {
        let ghost v0 = self@;
        let ghost all = docs@;
        let ghost dv = docs_view(all);
        let mut rest = docs;
        let mut items: Vec<(String, DocumentIndex)> = Vec::new();
        // Reverse the documents so that they can be popped in order.
        while rest.len() > 0
            invariant
                rest@ + items@.reverse() == all,
            decreases rest@.len(),
        {
            let x = rest.pop().unwrap();
            proof {
                assert(items@.push(x).reverse() =~= seq![x] + items@.reverse());
                assert(rest@ + items@.push(x).reverse() =~= all);
            }
            items.push(x);
        }
        assert(items@.reverse() =~= all);
        assert(all.subrange(0, all.len() as int) =~= all);
        assert(dv.subrange(0, 0) =~= Seq::<(String, DocumentView)>::empty());
        let ghost mut vs = seq![v0];
        while items.len() > 0
            invariant
                items@.len() <= all.len(),
                items@.reverse() == all.subrange(all.len() - items@.len(), all.len() as int),
                dv == docs_view(all),
                self.wf(),
                add_steps(vs, dv.subrange(0, all.len() - items@.len())),
                vs[0] == v0,
                vs.last() == self@,
                self@.interned.len() <= v0.interned.len() + names_total(dv.subrange(0, all.len() - items@.len())),
                v0.interned.len() + names_total(dv) < 4294967295,
                tag_table_exact(v0) ==> tag_table_exact(self@),
            decreases items@.len(),
        {
            let ghost k = all.len() - items@.len();
            let ghost before = items@;
            let (uri, index) = items.pop().unwrap();
            let ghost d = (uri, index@);
            proof {
                assert(before == items@.push((uri, index)));
                assert(before.reverse()[0] == (uri, index));
                assert(all.subrange(k, all.len() as int)[0] == all[k]);
                assert(all[k] == (uri, index));
                assert(items@.push((uri, index)).reverse() =~= seq![(uri, index)] + items@.reverse());
                assert((seq![(uri, index)] + items@.reverse()).drop_first() =~= items@.reverse());
                assert(all.subrange(k, all.len() as int).drop_first() =~= all.subrange(k + 1, all.len() as int));
                let pre = dv.subrange(0, k + 1);
                assert(pre.drop_last() =~= dv.subrange(0, k));
                assert(pre.last() == d);
                lemma_names_total_prefix(dv, k + 1);
            }
            let ghost vb = self@;
            self.add_document_structural(uri, index);
            proof {
                if tag_table_exact(v0) {
                    law_add_keeps_tags_exact(vb, self@, d.0, d.1);
                }
                let pre = dv.subrange(0, k + 1);
                let vs1 = vs.push(self@);
                assert forall|i: int| 0 <= i < pre.len() implies add_effect(vs1[i], (#[trigger] pre[i]).0, pre[i].1, vs1[i + 1]) by {
                    if i < k {
                        assert(pre[i] == dv.subrange(0, k)[i]);
                    } else {
                        assert(pre[i] == d);
                    }
                }
                vs = vs1;
            }
        }
        assert(dv.subrange(0, all.len() as int) =~= dv);
        assert(add_steps(vs, dv));
    }
}

/// The names all the documents `ds` can add to the interner.
pub open spec fn names_total(ds: Seq<(String, DocumentView)>) -> int
    decreases ds.len(),
{
    if ds.len() == 0 {
        0
    } else {
        names_total(ds.drop_last()) + names_in(ds.last().1)
    }
}

/// Whether the realms `vs` are those seen while adding the documents `ds`
/// in turn: each comes from the one before by adding the next document.
pub open spec fn add_steps(vs: Seq<RealmView>, ds: Seq<(String, DocumentView)>) -> bool {
    &&& vs.len() == ds.len() + 1
    &&& forall|i: int| 0 <= i < ds.len() ==> add_effect(vs[i], (#[trigger] ds[i]).0, ds[i].1, vs[i + 1])
}

/// What adding the documents `ds` one after another does to a realm: the
/// effect of adding each in turn, from `v0` to `v1`.
pub open spec fn adds_effect(v0: RealmView, ds: Seq<(String, DocumentView)>, v1: RealmView) -> bool {
    exists|vs: Seq<RealmView>| #[trigger] add_steps(vs, ds) && vs[0] == v0 && vs.last() == v1
}

/// A prefix of a list of documents has no more names than the whole.
proof fn lemma_names_total_prefix(ds: Seq<(String, DocumentView)>, k: int)
    requires
        0 <= k <= ds.len(),
    ensures
        names_total(ds.subrange(0, k)) <= names_total(ds),
    decreases ds.len(),
{
    if k == ds.len() {
        assert(ds.subrange(0, k) =~= ds);
    } else {
        lemma_names_total_prefix(ds.drop_last(), k);
        assert(ds.drop_last().subrange(0, k) =~= ds.subrange(0, k));
    }
}

/// The names in `ns` that `other` does not hold, in order.
pub open spec fn names_outside(ns: Seq<Seq<char>>, other: Seq<Seq<char>>) -> Seq<Seq<char>>
    decreases ns.len(),
{
    if ns.len() == 0 {
        Seq::empty()
    } else if other.contains(ns.last()) {
        names_outside(ns.drop_last(), other)
    } else {
        names_outside(ns.drop_last(), other).push(ns.last())
    }
}

/// The entries of the names in `ns` that `other` does not hold, in order.
pub open spec fn entries_outside<V>(ns: Seq<Seq<char>>, es: Seq<V>, other: Seq<Seq<char>>) -> Seq<V>
    decreases ns.len(),
{
    if ns.len() == 0 || es.len() == 0 {
        Seq::empty()
    } else if other.contains(ns.last()) {
        entries_outside(ns.drop_last(), es.drop_last(), other)
    } else {
        entries_outside(ns.drop_last(), es.drop_last(), other).push(es.last())
    }
}

/// The names a document of the realm had under `names`, or none when it is
/// not in the realm.
pub open spec fn prior_names(
    docs: Seq<(String, DocumentView)>,
    u: Seq<char>,
    names: spec_fn(DocumentView) -> Seq<Seq<char>>,
) -> Seq<Seq<char>> {
    if doc_pos(docs, u) >= 0 {
        names(docs[doc_pos(docs, u)].1)
    } else {
        Seq::empty()
    }
}

/// A table's list for a string after document `u` changed: its entries leave
/// when the old version had the string and the new one has not; the new
/// entries join when only the new version has it; otherwise the list stays
/// as it was.
pub open spec fn patched<V: UriEntry>(old: Seq<V>, u: Seq<char>, was_in: bool, is_in: bool, added: Seq<V>) -> Seq<V> {
    if was_in && !is_in {
        drop_uri(old, u)
    } else if !was_in {
        old + added
    } else {
        old
    }
}

/// Keeping the names outside `other` keeps their entries alongside, and
/// pushing them gives what pushing all gives for strings outside `other`.
proof fn lemma_outside<V>(ns: Seq<Seq<char>>, es: Seq<V>, other: Seq<Seq<char>>)
    requires
        ns.len() == es.len(),
    ensures
        names_outside(ns, other).len() == entries_outside(ns, es, other).len(),
        names_outside(ns, other).len() <= ns.len(),
        forall|m: int| 0 <= m < names_outside(ns, other).len() ==> exists|j: int|
            0 <= j < ns.len() && ns[j] == #[trigger] names_outside(ns, other)[m] && es[j] == entries_outside(ns, es, other)[m],
        forall|s: Seq<char>| #[trigger] names_outside(ns, other).contains(s) <==> ns.contains(s) && !other.contains(s),
        forall|s: Seq<char>| #[trigger] pushed(names_outside(ns, other), entries_outside(ns, es, other), s) == (if other.contains(s) {
            Seq::<V>::empty()
        } else {
            pushed(ns, es, s)
        }),
    decreases ns.len(),
{
    if ns.len() > 0 {
        let np = ns.drop_last();
        let ep = es.drop_last();
        lemma_outside(np, ep, other);
        let kn = names_outside(np, other);
        let ke = entries_outside(np, ep, other);
        assert forall|m: int| 0 <= m < names_outside(ns, other).len() implies exists|j: int|
            0 <= j < ns.len() && ns[j] == #[trigger] names_outside(ns, other)[m] && es[j] == entries_outside(ns, es, other)[m] by {
            if m < kn.len() {
                let j = choose|j: int| 0 <= j < np.len() && np[j] == #[trigger] kn[m] && ep[j] == ke[m];
                assert(ns[j] == np[j] && es[j] == ep[j]);
                assert(names_outside(ns, other)[m] == kn[m]);
                assert(entries_outside(ns, es, other)[m] == ke[m]);
            } else {
                assert(ns[ns.len() - 1] == ns.last() && es[es.len() - 1] == es.last());
            }
        }
        assert forall|s: Seq<char>| #[trigger] names_outside(ns, other).contains(s) <==> ns.contains(s) && !other.contains(s) by {
            if names_outside(ns, other).contains(s) {
                let m = choose|m: int| 0 <= m < names_outside(ns, other).len() && names_outside(ns, other)[m] == s;
                if m < kn.len() {
                    assert(kn[m] == s);
                    assert(kn.contains(s));
                    let j = choose|j: int| 0 <= j < np.len() && np[j] == s;
                    assert(ns[j] == s);
                } else {
                    assert(ns[ns.len() - 1] == s);
                }
            }
            if ns.contains(s) && !other.contains(s) {
                let j = choose|j: int| 0 <= j < ns.len() && ns[j] == s;
                if j < ns.len() - 1 {
                    assert(np[j] == s);
                    assert(kn.contains(s));
                    let m = choose|m: int| 0 <= m < kn.len() && kn[m] == s;
                    assert(names_outside(ns, other)[m] == s);
                } else {
                    assert(names_outside(ns, other) == kn.push(s));
                    assert(names_outside(ns, other)[kn.len() as int] == s);
                }
            }
        }
        assert forall|s: Seq<char>| #[trigger] pushed(names_outside(ns, other), entries_outside(ns, es, other), s) == (if other.contains(s) {
            Seq::<V>::empty()
        } else {
            pushed(ns, es, s)
        }) by {
            assert(pushed(kn, ke, s) == (if other.contains(s) { Seq::<V>::empty() } else { pushed(np, ep, s) }));
            if !other.contains(ns.last()) {
                assert(names_outside(ns, other).drop_last() =~= kn);
                assert(entries_outside(ns, es, other).drop_last() =~= ke);
            }
        }
    }
}

/// A table's list for a string after dropping a document's entries under the
/// keys of some names.
proof fn lemma_lookup_drop_keys<V: UriEntry>(
    t: Map<usize, Seq<V>>,
    strings: Seq<Seq<char>>,
    u: Seq<char>,
    gone: Seq<Seq<char>>,
    s: Seq<char>,
)
    requires
        strings.no_duplicates(),
        strings.len() < 4294967295,
    ensures
        lookup(drop_keys(t, u, name_keys(strings, gone)), strings, s) == (if gone.contains(s) {
            drop_uri(lookup(t, strings, s), u)
        } else {
            lookup(t, strings, s)
        }),
{
    let d = drop_keys(t, u, name_keys(strings, gone));
    assert(drop_uri(Seq::<V>::empty(), u) == Seq::<V>::empty());
    if strings.contains(s) {
        let k = strings.index_of(s);
        assert(0 <= k < strings.len() && strings[k] == s);
        let ku = k as usize;
        assert(ku as int == k);
        assert(name_keys(strings, gone).contains(ku) == gone.contains(s));
        if t.contains_key(ku) && gone.contains(s) && drop_uri(t[ku], u).len() == 0 {
            assert(drop_uri(t[ku], u) =~= Seq::<V>::empty());
        }
    }
}

/// Dropping a document's entries under the keys of the names its new version
/// lost keeps a table sound for the realm with that new version in its place.
proof fn lemma_sound_drop_update<V: UriEntry>(
    t: Map<usize, Seq<V>>,
    strings: Seq<Seq<char>>,
    docs: Seq<(String, DocumentView)>,
    names: spec_fn(DocumentView) -> Seq<Seq<char>>,
    i: int,
    extra: (String, DocumentView),
    gone: Seq<Seq<char>>,
)
    requires
        sound(t, strings, docs, names),
        unique_uris(docs),
        0 <= i < docs.len(),
        extra.0@ == docs[i].0@,
        forall|s: Seq<char>| #[trigger] names(docs[i].1).contains(s) && !names(extra.1).contains(s) ==> gone.contains(s),
    ensures
        sound(drop_keys(t, docs[i].0@, name_keys(strings, gone)), strings, docs.update(i, extra), names),
{
    let u = docs[i].0@;
    let ks = name_keys(strings, gone);
    let d = drop_keys(t, u, ks);
    let d2 = docs.update(i, extra);
    assert forall|k: usize| #[trigger] d.contains_key(k) implies k < strings.len() && d[k].len() > 0 && (forall|j: int|
        0 <= j < d[k].len() ==> owned_by(d2, (#[trigger] d[k][j]).entry_uri(), names, strings[k as int])) by {
        lemma_drop_uri(t[k], u);
        assert forall|j: int| 0 <= j < d[k].len() implies owned_by(d2, (#[trigger] d[k][j]).entry_uri(), names, strings[k as int]) by {
            let e = d[k][j];
            let m = if ks.contains(k) {
                assert(t[k].contains(e));
                choose|m: int| 0 <= m < t[k].len() && t[k][m] == e
            } else {
                j
            };
            assert(t[k][m] == e);
            assert(owned_by(docs, e.entry_uri(), names, strings[k as int]));
            let i2 = choose|i2: int| 0 <= i2 < docs.len() && docs[i2].0@ == e.entry_uri() && (#[trigger] names(docs[i2].1)).contains(strings[k as int]);
            if i2 != i {
                assert(d2[i2] == docs[i2]);
            } else {
                // The entry is the document's own, under a name it kept.
                assert(!ks.contains(k)) by {
                    if ks.contains(k) {
                        assert(e.entry_uri() != u);
                    }
                }
                assert(!gone.contains(strings[k as int]));
                assert(names(extra.1).contains(strings[k as int]));
                assert(d2[i] == extra);
            }
        }
    }
}

/// Pushing entries of one document of the realm, under names it has, keeps a
/// table sound.
proof fn lemma_sound_push_own<V: UriEntry>(
    t0: Map<usize, Seq<V>>,
    s0: Seq<Seq<char>>,
    t1: Map<usize, Seq<V>>,
    s1: Seq<Seq<char>>,
    docs: Seq<(String, DocumentView)>,
    names_fn: spec_fn(DocumentView) -> Seq<Seq<char>>,
    names: Seq<Seq<char>>,
    entries: Seq<V>,
    i: int,
)
    requires
        sound(t0, s0, docs, names_fn),
        0 <= i < docs.len(),
        s0.len() <= s1.len(),
        s1.subrange(0, s0.len() as int) == s0,
        forall|k: usize| #[trigger] t1.contains_key(k) ==> k < s1.len() && (t0.contains_key(k) || t1[k].len() > 0),
        forall|k: usize| k < s1.len() ==> #[trigger] list_of(t1, k) == list_of(t0, k) + pushed(names, entries, s1[k as int]),
        names.len() == entries.len(),
        forall|m: int| 0 <= m < entries.len() ==> (#[trigger] entries[m]).entry_uri() == docs[i].0@ && names_fn(docs[i].1).contains(names[m]),
    ensures
        sound(t1, s1, docs, names_fn),
{
    assert forall|k: usize| #[trigger] t1.contains_key(k) implies k < s1.len() && t1[k].len() > 0 && (forall|j: int|
        0 <= j < t1[k].len() ==> owned_by(docs, (#[trigger] t1[k][j]).entry_uri(), names_fn, s1[k as int])) by {
        let l0 = list_of(t0, k);
        let p = pushed(names, entries, s1[k as int]);
        assert(t1[k] == list_of(t1, k));
        assert(t1[k] == l0 + p);
        lemma_pushed(names, entries, s1[k as int]);
        if t0.contains_key(k) {
            assert(k < s0.len());
            assert(s1[k as int] == s0[k as int]);
        }
        assert forall|j: int| 0 <= j < t1[k].len() implies owned_by(docs, (#[trigger] t1[k][j]).entry_uri(), names_fn, s1[k as int]) by {
            if j < l0.len() {
                assert(t0.contains_key(k));
                assert(t1[k][j] == t0[k][j]);
                assert(owned_by(docs, t0[k][j].entry_uri(), names_fn, s0[k as int]));
            } else {
                assert(t1[k][j] == p[j - l0.len()]);
                let m = choose|m: int| 0 <= m < names.len() && names[m] == s1[k as int] && entries[m] == #[trigger] p[j - l0.len()];
                assert(entries[m].entry_uri() == docs[i].0@);
                assert(names_fn(docs[i].1).contains(s1[k as int]));
            }
        }
    }
}

/// One cross-document table through an update of document `docs[i]` to
/// `extra`: drop its entries under the names it lost, then push the entries
/// `es` of new names `ns` that the old version lacked.
proof fn lemma_update_table<V: UriEntry>(
    t0: Map<usize, Seq<V>>,
    s0: Seq<Seq<char>>,
    sa: Seq<Seq<char>>,
    t1: Map<usize, Seq<V>>,
    s1: Seq<Seq<char>>,
    s_end: Seq<Seq<char>>,
    docs: Seq<(String, DocumentView)>,
    i: int,
    extra: (String, DocumentView),
    f: spec_fn(DocumentView) -> Seq<Seq<char>>,
    ns: Seq<Seq<char>>,
    es: Seq<V>,
)
    requires
        sound(t0, s0, docs, f),
        unique_uris(docs),
        0 <= i < docs.len(),
        extra.0@ == docs[i].0@,
        sa.no_duplicates(),
        s0.len() <= sa.len(),
        sa.subrange(0, s0.len() as int) == s0,
        s1.no_duplicates(),
        sa.len() <= s1.len(),
        s1.subrange(0, sa.len() as int) == sa,
        s_end.no_duplicates(),
        s1.len() <= s_end.len(),
        s_end.len() < 4294967295,
        s_end.subrange(0, s1.len() as int) == s1,
        forall|k: usize| #[trigger] t1.contains_key(k) ==> k < s1.len() && (drop_keys(
            t0,
            docs[i].0@,
            name_keys(sa, names_outside(f(docs[i].1), f(extra.1))),
        ).contains_key(k) || t1[k].len() > 0),
        forall|k: usize|
            k < s1.len() ==> #[trigger] list_of(t1, k) == list_of(
                drop_keys(t0, docs[i].0@, name_keys(sa, names_outside(f(docs[i].1), f(extra.1)))),
                k,
            ) + pushed(names_outside(ns, f(docs[i].1)), entries_outside(ns, es, f(docs[i].1)), s1[k as int]),
        forall|m: int| 0 <= m < names_outside(ns, f(docs[i].1)).len() ==> s1.contains(#[trigger] names_outside(ns, f(docs[i].1))[m]),
        ns.len() == es.len(),
        forall|j: int| 0 <= j < es.len() ==> (#[trigger] es[j]).entry_uri() == extra.0@,
        forall|j: int| 0 <= j < ns.len() ==> f(extra.1).contains(#[trigger] ns[j]),
    ensures
        sound(t1, s_end, docs.update(i, extra), f),
        forall|s: Seq<char>| #[trigger] lookup(t1, s_end, s) == patched(
            lookup(t0, s0, s),
            docs[i].0@,
            f(docs[i].1).contains(s),
            f(extra.1).contains(s),
            pushed(ns, es, s),
        ),
{
    let u = docs[i].0@;
    let ov = f(docs[i].1);
    let nv = f(extra.1);
    let gone = names_outside(ov, nv);
    let td = drop_keys(t0, u, name_keys(sa, gone));
    let kn = names_outside(ns, ov);
    let ke = entries_outside(ns, es, ov);
    let d2 = docs.update(i, extra);
    lemma_outside(ov, ov, nv);
    lemma_outside(ns, es, ov);
    lemma_sound_extend(t0, s0, sa, docs, f);
    lemma_sound_drop_update(t0, sa, docs, f, i, extra, gone);
    assert(d2[i] == extra);
    assert forall|m: int| 0 <= m < ke.len() implies (#[trigger] ke[m]).entry_uri() == d2[i].0@ && f(d2[i].1).contains(kn[m]) by {
        let j = choose|j: int| 0 <= j < ns.len() && ns[j] == #[trigger] kn[m] && es[j] == ke[m];
        assert(f(extra.1).contains(ns[j]));
    }
    lemma_sound_push_own(td, sa, t1, s1, d2, f, kn, ke, i);
    lemma_sound_extend(t1, s1, s_end, d2, f);
    assert forall|s: Seq<char>| #[trigger] lookup(t1, s_end, s) == patched(
        lookup(t0, s0, s),
        u,
        ov.contains(s),
        nv.contains(s),
        pushed(ns, es, s),
    ) by {
        lemma_lookup_extend(t1, s1, s_end, s);
        lemma_lookup_push(td, sa, t1, s1, kn, ke, s);
        lemma_lookup_drop_keys(t0, sa, u, gone, s);
        lemma_lookup_extend(t0, s0, sa, s);
        assert(gone.contains(s) == (ov.contains(s) && !nv.contains(s)));
        let base = lookup(t0, s0, s);
        if ov.contains(s) {
            assert(pushed(kn, ke, s) == Seq::<V>::empty());
            if nv.contains(s) {
                assert(base + Seq::<V>::empty() =~= base);
            } else {
                assert(drop_uri(base, u) + Seq::<V>::empty() =~= drop_uri(base, u));
            }
        }
    }
}

/// Whether string `s` is one of `v`.
fn holds_str(v: &Vec<&str>, s: &str) -> (r: bool)
    ensures
        r == strs(v@).contains(s@),
{
    let ghost sv = strs(v@);
    let mut j: usize = 0;
    while j < v.len()
        invariant
            j <= v@.len(),
            sv == strs(v@),
            !sv.subrange(0, j as int).contains(s@),
        decreases v@.len() - j,
    {
        if crate::text::str_eq(v[j], s) {
            assert(sv[j as int] == s@);
            return true;
        }
        assert(sv.subrange(0, j + 1) =~= sv.subrange(0, j as int).push(sv[j as int]));
        j = j + 1;
    }
    assert(sv.subrange(0, v@.len() as int) =~= sv);
    false
}

/// The names of `names` that `other` does not hold, in order.
fn names_outside_exec<'a>(names: &Vec<&'a str>, other: &Vec<&str>) -> (r: Vec<&'a str>)
    ensures
        strs(r@) == names_outside(strs(names@), strs(other@)),
{
    let ghost nv = strs(names@);
    let ghost ov = strs(other@);
    let mut out: Vec<&str> = Vec::new();
    let mut i: usize = 0;
    while i < names.len()
        invariant
            i <= names@.len(),
            nv == strs(names@),
            ov == strs(other@),
            strs(out@) == names_outside(nv.subrange(0, i as int), ov),
        decreases names@.len() - i,
    {
        let ghost sub = nv.subrange(0, i + 1);
        assert(sub.drop_last() =~= nv.subrange(0, i as int));
        assert(sub.last() == nv[i as int]);
        if !holds_str(other, names[i]) {
            out.push(names[i]);
            assert(strs(out@) =~= names_outside(nv.subrange(0, i as int), ov).push(nv[i as int]));
        }
        i = i + 1;
    }
    assert(nv.subrange(0, names@.len() as int) =~= nv);
    out
}

/// The names of `names` that `other` does not hold, with copies of their entries.
fn keep_outside<'a, V: UriEntry>(names: &Vec<&'a str>, entries: &Vec<V>, other: &Vec<&str>) -> (r: (Vec<&'a str>, Vec<V>))
    requires
        names@.len() == entries@.len(),
    ensures
        strs(r.0@) == names_outside(strs(names@), strs(other@)),
        r.1@ == entries_outside(strs(names@), entries@, strs(other@)),
{
    let ghost nv = strs(names@);
    let ghost ov = strs(other@);
    let ghost ev = entries@;
    let mut out_n: Vec<&str> = Vec::new();
    let mut out_e: Vec<V> = Vec::new();
    let mut i: usize = 0;
    while i < names.len()
        invariant
            i <= names@.len() == ev.len(),
            nv == strs(names@),
            ov == strs(other@),
            ev == entries@,
            strs(out_n@) == names_outside(nv.subrange(0, i as int), ov),
            out_e@ == entries_outside(nv.subrange(0, i as int), ev.subrange(0, i as int), ov),
        decreases names@.len() - i,
    {
        let ghost sub = nv.subrange(0, i + 1);
        let ghost esub = ev.subrange(0, i + 1);
        assert(sub.drop_last() =~= nv.subrange(0, i as int));
        assert(esub.drop_last() =~= ev.subrange(0, i as int));
        assert(sub.last() == nv[i as int]);
        assert(esub.last() == ev[i as int]);
        if !holds_str(other, names[i]) {
            out_n.push(names[i]);
            out_e.push(entries[i].copy());
            assert(strs(out_n@) =~= names_outside(nv.subrange(0, i as int), ov).push(nv[i as int]));
        }
        i = i + 1;
    }
    assert(nv.subrange(0, names@.len() as int) =~= nv);
    assert(ev.subrange(0, names@.len() as int) =~= ev);
    (out_n, out_e)
}

impl RealmIndex {
    /// Update a markdown document by what changed in it. A document not in the
    /// realm is added. For one already there, its entries leave a table only
    /// under the names (heading slugs, block ids, tags, code span texts) its
    /// new version lost, and the new version's entries join only under the
    /// names the old version lacked; entries under names both versions have
    /// stay as they were. Its journal date stays, as the URI does.
    pub fn update_document(&mut self, uri: String, index: DocumentIndex)
        requires
            old(self).wf(),
            old(self)@.interned.len() + names_in(index@) < 4294967295,
        ensures
            final(self).wf(),
            update_effect(old(self)@, uri, index@, final(self)@),
            tag_table_exact(old(self)@) ==> tag_table_exact(final(self)@),
    {
        let ghost v0 = self@;
        let ghost u0 = uri;
        let ghost dv0 = index@;
        proof {
            lemma_doc_pos(v0.docs, uri@);
        }
        match self.position_of(uri.as_str()) {
            None => {
                let ghost u = uri;
                self.add_document(uri, index);
                proof {
                    let v = self@;
                    lemma_drop_absent(v0.headings, v0.interned, v0.docs, |d: DocumentView| slugs_of(d), u@);
                    lemma_drop_absent(v0.blocks, v0.interned, v0.docs, |d: DocumentView| block_ids_of(d), u@);
                    lemma_drop_absent(v0.tags, v0.interned, v0.docs, |d: DocumentView| tag_names_of(d), u@);
                    lemma_drop_absent(v0.code_spans, v0.interned, v0.docs, |d: DocumentView| span_texts_of(d), u@);
                    lemma_dates_drop(v0.dates, v0.docs, u@);
                    assert forall|s: Seq<char>| #[trigger] drop_uri(lookup(v0.headings, v0.interned, s), u@) == lookup(v0.headings, v0.interned, s) by {
                        lemma_lookup_drop(v0.headings, v0.interned, u@, s);
                    }
                    assert forall|s: Seq<char>| #[trigger] drop_uri(lookup(v0.blocks, v0.interned, s), u@) == lookup(v0.blocks, v0.interned, s) by {
                        lemma_lookup_drop(v0.blocks, v0.interned, u@, s);
                    }
                    assert forall|s: Seq<char>| #[trigger] drop_uri(lookup(v0.tags, v0.interned, s), u@) == lookup(v0.tags, v0.interned, s) by {
                        lemma_lookup_drop(v0.tags, v0.interned, u@, s);
                    }
                    assert forall|s: Seq<char>| #[trigger] drop_uri(lookup(v0.code_spans, v0.interned, s), u@) == lookup(v0.code_spans, v0.interned, s) by {
                        lemma_lookup_drop(v0.code_spans, v0.interned, u@, s);
                    }
                    lemma_stems_drop(v0.stems, v0.interned, v0.docs, u@);
                    assert forall|s: Seq<char>| #[trigger] drop_uri(lookup(v0.stems, v0.interned, s), u@) == lookup(v0.stems, v0.interned, s) by {
                        lemma_lookup_drop(v0.stems, v0.interned, u@, s);
                    }
                    assert forall|d: (u16, u8, u8)| #[trigger] drop_uri(list_of(v0.dates, d), u@) == list_of(v0.dates, d) by {
                        if v0.dates.contains_key(d) {
                            assert(drop_all(v0.dates, u@)[d] == drop_uri(v0.dates[d], u@));
                        } else {
                            assert(drop_uri(Seq::<String>::empty(), u@) == Seq::<String>::empty());
                        }
                    }
                }
            },
            Some(i) => {
                self.patch_document(i, uri, index);
                proof {
                    let v = self@;
                    assert forall|s: Seq<char>| #[trigger] lookup(v.stems, v.interned, s) == lookup(v0.stems, v0.interned, s) + Seq::<String>::empty() by {
                        lemma_lookup_extend(v0.stems, v0.interned, v.interned, s);
                        assert(lookup(v0.stems, v0.interned, s) + Seq::<String>::empty() =~= lookup(v0.stems, v0.interned, s));
                    }
                }
            },
        }
        proof {
            assert(update_effect(v0, u0, dv0, self@));
            if tag_table_exact(v0) {
                law_update_keeps_tags_exact(v0, self@, u0, dv0);
            }
        }
    }

    /// Patch the tables for document `self.docs[i]` taking version `index`.
    fn patch_document(&mut self, i: usize, uri: String, index: DocumentIndex)
        requires
            old(self).wf(),
            doc_pos(old(self)@.docs, uri@) == i,
            i < old(self)@.docs.len(),
            old(self)@.interned.len() + names_in(index@) < 4294967295,
        ensures
            final(self).wf(),
            final(self)@.docs == old(self)@.docs.update(i as int, (uri, index@)),
            final(self)@.interned.len() >= old(self)@.interned.len(),
            final(self)@.interned.subrange(0, old(self)@.interned.len() as int) == old(self)@.interned,
            final(self)@.dates == old(self)@.dates,
            final(self)@.stems == old(self)@.stems,
            forall|s: Seq<char>|
                #[trigger] lookup(final(self)@.headings, final(self)@.interned, s) == patched(
                    lookup(old(self)@.headings, old(self)@.interned, s),
                    uri@,
                    slugs_of(old(self)@.docs[i as int].1).contains(s),
                    slugs_of(index@).contains(s),
                    heading_entries(uri, index@.headings, s),
                ),
            forall|s: Seq<char>|
                #[trigger] lookup(final(self)@.blocks, final(self)@.interned, s) == patched(
                    lookup(old(self)@.blocks, old(self)@.interned, s),
                    uri@,
                    block_ids_of(old(self)@.docs[i as int].1).contains(s),
                    block_ids_of(index@).contains(s),
                    block_entries(uri, index@.blocks, s),
                ),
            forall|s: Seq<char>|
                #[trigger] lookup(final(self)@.tags, final(self)@.interned, s) == patched(
                    lookup(old(self)@.tags, old(self)@.interned, s),
                    uri@,
                    tag_names_of(old(self)@.docs[i as int].1).contains(s),
                    tag_names_of(index@).contains(s),
                    tag_entries(uri, index@.tags, s),
                ),
            forall|s: Seq<char>|
                #[trigger] lookup(final(self)@.code_spans, final(self)@.interned, s) == patched(
                    lookup(old(self)@.code_spans, old(self)@.interned, s),
                    uri@,
                    span_texts_of(old(self)@.docs[i as int].1).contains(s),
                    span_texts_of(index@).contains(s),
                    code_span_entries(uri, index@.code_spans, s),
                ),
    {
        let ghost v0 = self@;
        let ghost iv = index@;
        proof {
            lemma_doc_pos(v0.docs, uri@);
        }
        let prev = self.docs.remove(i);
        let ghost ov = prev.1@;
        assert(ov == v0.docs[i as int].1);
        let ghost s0 = v0.interned;
        // Headings.
        let old_slugs = slug_names(&prev.1);
        let new_slugs = slug_names(&index);
        let gone_slugs = names_outside_exec(&old_slugs, &new_slugs);
        drop_under(&self.interner, &mut self.slug_to_headings, &gone_slugs, uri.as_str());
        let hentries = heading_entry_list(&uri, &index);
        let (hnames, hkept) = keep_outside(&new_slugs, &hentries, &old_slugs);
        proof {
            lemma_outside(strs(new_slugs@), hentries@, strs(old_slugs@));
            assert(forall|k: usize| #[trigger] lists(self.slug_to_headings@).contains_key(k) ==> v0.headings.contains_key(k));
        }
        push_under(&mut self.interner, &mut self.slug_to_headings, &hnames, hkept);
        let ghost s1 = interned(self.interner);
        // Blocks.
        let old_ids = block_names(&prev.1);
        let new_ids = block_names(&index);
        let gone_ids = names_outside_exec(&old_ids, &new_ids);
        drop_under(&self.interner, &mut self.block_to_location, &gone_ids, uri.as_str());
        let bentries = block_entry_list(&uri, &index);
        let (bnames, bkept) = keep_outside(&new_ids, &bentries, &old_ids);
        proof {
            lemma_outside(strs(new_ids@), bentries@, strs(old_ids@));
            assert(forall|k: usize| #[trigger] lists(self.block_to_location@).contains_key(k) ==> v0.blocks.contains_key(k));
        }
        push_under(&mut self.interner, &mut self.block_to_location, &bnames, bkept);
        let ghost s2 = interned(self.interner);
        // Tags, once per distinct name.
        let old_tags = tag_names(&prev.1);
        let new_tags = tag_names(&index);
        let gone_tags = names_outside_exec(&old_tags, &new_tags);
        drop_under(&self.interner, &mut self.tag_to_docs, &gone_tags, uri.as_str());
        let tps = first_positions(&new_tags);
        proof {
            lemma_firsts(strs(new_tags@));
            assert forall|j: int| 0 <= j < tps@.len() implies #[trigger] tps@[j] < new_tags@.len() by {
                assert(tps@.map_values(|p: usize| p as int)[j] == tps@[j] as int);
            }
        }
        let tdistinct = names_at_exec(&new_tags, &tps);
        let tcopies = uri_copies(&uri, tps.len());
        let (tnames, tkept) = keep_outside(&tdistinct, &tcopies, &old_tags);
        proof {
            assert(tps@.len() == tps@.map_values(|p: usize| p as int).len());
            lemma_outside(strs(tdistinct@), tcopies@, strs(old_tags@));
            assert(forall|k: usize| #[trigger] lists(self.tag_to_docs@).contains_key(k) ==> v0.tags.contains_key(k));
        }
        push_under(&mut self.interner, &mut self.tag_to_docs, &tnames, tkept);
        let ghost s3 = interned(self.interner);
        // Code spans, the first per distinct text.
        let old_texts = span_texts(&prev.1);
        let new_texts = span_texts(&index);
        let gone_texts = names_outside_exec(&old_texts, &new_texts);
        drop_under(&self.interner, &mut self.code_span_to_docs, &gone_texts, uri.as_str());
        let sps = first_positions(&new_texts);
        proof {
            lemma_firsts(strs(new_texts@));
            assert forall|j: int| 0 <= j < sps@.len() implies #[trigger] sps@[j] < new_texts@.len() by {
                assert(sps@.map_values(|p: usize| p as int)[j] == sps@[j] as int);
            }
        }
        let sdistinct = names_at_exec(&new_texts, &sps);
        let sentries = span_entry_list(&uri, &index, &sps);
        let (snames, skept) = keep_outside(&sdistinct, &sentries, &old_texts);
        proof {
            assert(sps@.len() == sps@.map_values(|p: usize| p as int).len());
            lemma_outside(strs(sdistinct@), sentries@, strs(old_texts@));
            assert(forall|k: usize| #[trigger] lists(self.code_span_to_docs@).contains_key(k) ==> v0.code_spans.contains_key(k));
        }
        push_under(&mut self.interner, &mut self.code_span_to_docs, &snames, skept);
        let ghost u = uri;
        self.docs.insert(i, (uri, index));
        proof {
            let v = self@;
            let extra = (u, iv);
            let d2 = v0.docs.update(i as int, extra);
            assert(v.docs =~= d2);
            assert(v.interned.subrange(0, s3.len() as int) =~= s3);
            assert(v.interned.subrange(0, s2.len() as int) =~= s2);
            assert(v.interned.subrange(0, s1.len() as int) =~= s1);
            assert(s3.subrange(0, s2.len() as int) =~= s2);
            assert(s2.subrange(0, s1.len() as int) =~= s1);
            assert(s1.subrange(0, s0.len() as int) =~= s0);
            assert(s2.subrange(0, s0.len() as int) =~= s0);
            assert(s3.subrange(0, s0.len() as int) =~= s0);
            assert(v.interned.subrange(0, s0.len() as int) =~= s0);
            assert(s0.subrange(0, s0.len() as int) =~= s0);
            assert(v.interned.subrange(0, v.interned.len() as int) =~= v.interned);
            assert(v0.docs[i as int].0@ == u@);
            // Headings.
            assert forall|j: int| 0 <= j < hentries@.len() implies (#[trigger] hentries@[j]).entry_uri() == u@ by {}
            assert forall|j: int| 0 <= j < slugs_of(iv).len() implies slugs_of(iv).contains(#[trigger] slugs_of(iv)[j]) by {}
            lemma_update_table(v0.headings, s0, s0, v.headings, s1, v.interned, v0.docs, i as int, extra, |d: DocumentView| slugs_of(d), slugs_of(iv), hentries@);
            assert forall|s: Seq<char>| #[trigger] pushed(slugs_of(iv), hentries@, s) == heading_entries(u, iv.headings, s) by {
                lemma_heading_pushed(u, iv.headings, s);
            }
            // Blocks.
            assert forall|j: int| 0 <= j < bentries@.len() implies (#[trigger] bentries@[j]).entry_uri() == u@ by {}
            assert forall|j: int| 0 <= j < block_ids_of(iv).len() implies block_ids_of(iv).contains(#[trigger] block_ids_of(iv)[j]) by {}
            lemma_update_table(v0.blocks, s0, s1, v.blocks, s2, v.interned, v0.docs, i as int, extra, |d: DocumentView| block_ids_of(d), block_ids_of(iv), bentries@);
            assert forall|s: Seq<char>| #[trigger] pushed(block_ids_of(iv), bentries@, s) == block_entries(u, iv.blocks, s) by {
                lemma_block_pushed(u, iv.blocks, s);
            }
            // Tags.
            let nt = tag_names_of(iv);
            assert(tps@.map_values(|p: usize| p as int) == firsts(nt));
            let tn = names_at(nt, firsts(nt));
            assert(strs(tdistinct@) == tn);
            assert(tcopies@ =~= Seq::new(firsts(nt).len(), |j: int| u));
            lemma_firsts_distinct(nt);
            assert forall|j: int| 0 <= j < tcopies@.len() implies (#[trigger] tcopies@[j]).entry_uri() == u@ by {}
            assert forall|j: int| 0 <= j < tn.len() implies nt.contains(#[trigger] tn[j]) by {
                assert(tn.contains(tn[j]));
            }
            lemma_update_table(v0.tags, s0, s2, v.tags, s3, v.interned, v0.docs, i as int, extra, |d: DocumentView| tag_names_of(d), tn, tcopies@);
            assert forall|s: Seq<char>| #[trigger] pushed(tn, tcopies@, s) == tag_entries(u, iv.tags, s) by {
                lemma_tag_pushed(u, iv.tags, s);
            }
            // Code spans.
            let nc = span_texts_of(iv);
            assert(sps@.map_values(|p: usize| p as int) == firsts(nc));
            let sn = names_at(nc, firsts(nc));
            assert(strs(sdistinct@) == sn);
            assert(sentries@ == firsts(nc).map_values(|p: int| (u, resolved_code_span(iv.code_spans[p]))));
            lemma_firsts_distinct(nc);
            assert forall|j: int| 0 <= j < sentries@.len() implies (#[trigger] sentries@[j]).entry_uri() == u@ by {}
            assert forall|j: int| 0 <= j < sn.len() implies nc.contains(#[trigger] sn[j]) by {
                assert(sn.contains(sn[j]));
            }
            lemma_update_table(v0.code_spans, s0, s3, v.code_spans, v.interned, v.interned, v0.docs, i as int, extra, |d: DocumentView| span_texts_of(d), sn, sentries@);
            assert forall|s: Seq<char>| #[trigger] pushed(sn, sentries@, s) == code_span_entries(u, iv.code_spans, s) by {
                lemma_span_pushed(u, iv.code_spans, s);
            }
            // The URIs stay, and with them the date table.
            assert(unique_uris(d2)) by {
                assert forall|a: int, b: int| 0 <= a < b < d2.len() implies (#[trigger] d2[a]).0@ != (#[trigger] d2[b]).0@ by {
                    assert(d2[a].0@ == v0.docs[a].0@ && d2[b].0@ == v0.docs[b].0@);
                }
            }
            assert(dates_sound(v.dates, d2)) by {
                assert forall|d: (u16, u8, u8)| #[trigger] v.dates.contains_key(d) implies v.dates[d].len() > 0 && (forall|j: int|
                    0 <= j < v.dates[d].len() ==> journal_date_of(encode_utf8((#[trigger] v.dates[d][j])@)) == Some(d)
                        && (exists|m: int| 0 <= m < d2.len() && d2[m].0@ == v.dates[d][j]@)) by {
                    assert forall|j: int| 0 <= j < v.dates[d].len() implies journal_date_of(encode_utf8((#[trigger] v.dates[d][j])@)) == Some(d)
                        && (exists|m: int| 0 <= m < d2.len() && d2[m].0@ == v.dates[d][j]@) by {
                        let m = choose|m: int| 0 <= m < v0.docs.len() && v0.docs[m].0@ == v0.dates[d][j]@;
                        assert(d2[m].0@ == v0.docs[m].0@);
                    }
                }
            }
            // The stem table stays as it was.
            assert forall|k: usize, j: int| v0.stems.contains_key(k) && 0 <= j < v0.stems[k].len() implies has_doc(
                d2,
                (#[trigger] v0.stems[k][j])@,
            ) by {
                assert(has_doc(v0.docs, v0.stems[k][j]@));
                let m = choose|m: int| 0 <= m < v0.docs.len() && v0.docs[m].0@ == v0.stems[k][j]@;
                assert(d2[m].0@ == v0.docs[m].0@);
            }
            lemma_stems_frame(v0.stems, s0, v.interned, v0.docs, d2);
        }
    }
}

} // verus!
