//! Properties of the realm that span its operations: what adding, updating
//! and removing documents do to one another and to the other documents.

use vstd::prelude::*;
use vstd::utf8::encode_utf8;

use crate::document::index::DocumentView;
use crate::document::types::{BlockEntry, CodeSpanEntry, HeadingEntry, TagEntry};

use super::index::{
    add_effect, add_steps, adds_effect, block_entries, block_ids_of, code_span_entries, date_entries, doc_pos, first_span,
    has_tag, heading_entries, lemma_dates_drop, lemma_doc_pos, lemma_drop_absent, lemma_first_span,
    lemma_lookup_drop, lookup, month_entries, patched, prior_names, realm_wf, remove_effect,
    lemma_stems_drop, slugs_of, tag_counts_of, span_texts_of, stem_entries, tag_entries, tag_names_of, update_effect, without_doc, RealmView,
};
use super::journal::journal_date_of;
use super::stem::uri_stem;
use super::tables::{drop_all, drop_uri, lemma_drop_uri, list_of, UriEntry};

verus! {

broadcast use vstd::seq_lib::group_seq_properties;

/// Dropping a document's entries from two lists joined is joining the two
/// lists with its entries dropped.
proof fn lemma_drop_uri_concat<V: UriEntry>(a: Seq<V>, b: Seq<V>, u: Seq<char>)
    ensures
        drop_uri(a + b, u) == drop_uri(a, u) + drop_uri(b, u),
    decreases b.len(),
{
    if b.len() == 0 {
        assert(a + b =~= a);
        assert(drop_uri(a, u) + drop_uri(b, u) =~= drop_uri(a, u));
    } else {
        lemma_drop_uri_concat(a, b.drop_last(), u);
        assert((a + b).drop_last() =~= a + b.drop_last());
        assert((a + b).last() == b.last());
        if b.last().entry_uri() != u {
            assert(drop_uri(a, u) + drop_uri(b.drop_last(), u).push(b.last()) =~= (drop_uri(a, u)
                + drop_uri(b.drop_last(), u)).push(b.last()));
        }
    }
}

/// A list of one document's entries is empty once they are dropped.
proof fn lemma_drop_uri_own<V: UriEntry>(e: Seq<V>, u: Seq<char>)
    requires
        forall|j: int| 0 <= j < e.len() ==> (#[trigger] e[j]).entry_uri() == u,
    ensures
        drop_uri(e, u) == Seq::<V>::empty(),
    decreases e.len(),
{
    if e.len() > 0 {
        assert forall|j: int| 0 <= j < e.drop_last().len() implies (#[trigger] e.drop_last()[j]).entry_uri() == u by {
            assert(e.drop_last()[j] == e[j]);
        }
        lemma_drop_uri_own(e.drop_last(), u);
        assert(e[e.len() - 1] == e.last());
    }
}

/// The heading entries of a document name it, and there are some under a
/// slug only when one of its headings has that slug.
proof fn lemma_heading_entries(uri: String, hs: Seq<HeadingEntry>, s: Seq<char>)
    ensures
        forall|j: int| 0 <= j < heading_entries(uri, hs, s).len() ==> (#[trigger] heading_entries(uri, hs, s)[j]).0 == uri,
        heading_entries(uri, hs, s).len() > 0 ==> hs.map_values(|h: HeadingEntry| h.slug@).contains(s),
    decreases hs.len(),
{
    if hs.len() > 0 {
        let p = hs.drop_last();
        lemma_heading_entries(uri, p, s);
        if heading_entries(uri, p, s).len() > 0 {
            let ps = p.map_values(|h: HeadingEntry| h.slug@);
            let j = choose|j: int| 0 <= j < ps.len() && ps[j] == s;
            assert(hs.map_values(|h: HeadingEntry| h.slug@)[j] == s);
        }
        if hs.last().slug@ == s {
            assert(hs.map_values(|h: HeadingEntry| h.slug@)[hs.len() - 1] == s);
        }
    }
}

/// The block entries of a document name it, and there are some under an id
/// only when one of its blocks has that id.
proof fn lemma_block_entries(uri: String, bs: Seq<BlockEntry>, s: Seq<char>)
    ensures
        forall|j: int| 0 <= j < block_entries(uri, bs, s).len() ==> (#[trigger] block_entries(uri, bs, s)[j]).0 == uri,
        block_entries(uri, bs, s).len() > 0 ==> bs.map_values(|b: BlockEntry| b.id@).contains(s),
    decreases bs.len(),
{
    if bs.len() > 0 {
        let p = bs.drop_last();
        lemma_block_entries(uri, p, s);
        if block_entries(uri, p, s).len() > 0 {
            let ps = p.map_values(|b: BlockEntry| b.id@);
            let j = choose|j: int| 0 <= j < ps.len() && ps[j] == s;
            assert(bs.map_values(|b: BlockEntry| b.id@)[j] == s);
        }
        if bs.last().id@ == s {
            assert(bs.map_values(|b: BlockEntry| b.id@)[bs.len() - 1] == s);
        }
    }
}

/// The entries a document adds under a string are its own, and there are
/// none under a string it does not have.
proof fn lemma_added_entries(uri: String, d: DocumentView, s: Seq<char>, dd: (u16, u8, u8))
    ensures
        drop_uri(heading_entries(uri, d.headings, s), uri@) == Seq::<(String, super::types::ResolvedHeading)>::empty(),
        drop_uri(block_entries(uri, d.blocks, s), uri@) == Seq::<(String, super::types::ResolvedBlock)>::empty(),
        drop_uri(tag_entries(uri, d.tags, s), uri@) == Seq::<String>::empty(),
        drop_uri(code_span_entries(uri, d.code_spans, s), uri@) == Seq::<(String, super::types::ResolvedCodeSpan)>::empty(),
        drop_uri(date_entries(uri, dd), uri@) == Seq::<String>::empty(),
        !slugs_of(d).contains(s) ==> heading_entries(uri, d.headings, s) == Seq::<(String, super::types::ResolvedHeading)>::empty(),
        !block_ids_of(d).contains(s) ==> block_entries(uri, d.blocks, s) == Seq::<(String, super::types::ResolvedBlock)>::empty(),
        !tag_names_of(d).contains(s) ==> tag_entries(uri, d.tags, s) == Seq::<String>::empty(),
        !span_texts_of(d).contains(s) ==> code_span_entries(uri, d.code_spans, s) == Seq::<(String, super::types::ResolvedCodeSpan)>::empty(),
{
    lemma_heading_entries(uri, d.headings, s);
    lemma_block_entries(uri, d.blocks, s);
    lemma_drop_uri_own(heading_entries(uri, d.headings, s), uri@);
    lemma_drop_uri_own(block_entries(uri, d.blocks, s), uri@);
    lemma_drop_uri_own(tag_entries(uri, d.tags, s), uri@);
    lemma_drop_uri_own(code_span_entries(uri, d.code_spans, s), uri@);
    lemma_drop_uri_own(date_entries(uri, dd), uri@);
    if heading_entries(uri, d.headings, s).len() == 0 {
        assert(heading_entries(uri, d.headings, s) =~= Seq::<(String, super::types::ResolvedHeading)>::empty());
    }
    if block_entries(uri, d.blocks, s).len() == 0 {
        assert(block_entries(uri, d.blocks, s) =~= Seq::<(String, super::types::ResolvedBlock)>::empty());
    }
    if has_tag(d.tags, s) {
        let q = choose|q: int| 0 <= q < d.tags.len() && (#[trigger] d.tags[q]).name@ == s;
        assert(tag_names_of(d)[q] == s);
    }
    lemma_first_span(d.code_spans, s);
    if first_span(d.code_spans, s) >= 0 {
        assert(span_texts_of(d)[first_span(d.code_spans, s)] == s);
    }
}

/// A date's list after dropping a document from the date table.
proof fn lemma_list_of_drop_all(t: Map<(u16, u8, u8), Seq<String>>, u: Seq<char>, dd: (u16, u8, u8))
    ensures
        list_of(drop_all(t, u), dd) == drop_uri(list_of(t, dd), u),
{
    if t.contains_key(dd) {
        if drop_uri(t[dd], u).len() == 0 {
            assert(drop_uri(t[dd], u) =~= Seq::<String>::empty());
        }
    } else {
        assert(drop_uri(Seq::<String>::empty(), u) == Seq::<String>::empty());
    }
}

/// Dropping a document's entries twice, with its new entries in between, is
/// dropping them once.
proof fn lemma_drop_readd<V: UriEntry>(l: Seq<V>, e: Seq<V>, u: Seq<char>)
    requires
        drop_uri(e, u) == Seq::<V>::empty(),
    ensures
        drop_uri(drop_uri(l, u) + e, u) == drop_uri(l, u),
{
    lemma_drop_uri_concat(drop_uri(l, u), e, u);
    lemma_drop_uri(l, u);
    assert(drop_uri(l, u) + Seq::<V>::empty() =~= drop_uri(l, u));
}

/// Adding a document, then removing it, leaves the documents of a realm
/// without it.
proof fn lemma_without_pushed(docs: Seq<(String, DocumentView)>, uri: String, d: DocumentView)
    ensures
        without_doc(without_doc(docs, uri@).push((uri, d)), uri@) == without_doc(docs, uri@),
{
    let w = without_doc(docs, uri@);
    let p = w.push((uri, d));
    assert(p.drop_last() =~= w);
    assert(doc_pos(p, uri@) == w.len());
    assert(p.remove(w.len() as int) =~= w);
}

/// Removing a document right after adding it leaves the realm as removing it
/// alone would: the same documents and, under every string and every date,
/// the same lists. When the document was not in the realm before, the realm's
/// documents and lists are as they were.
pub proof fn law_remove_undoes_add(v0: RealmView, v1: RealmView, v2: RealmView, uri: String, d: DocumentView)
    requires
        realm_wf(v0),
        add_effect(v0, uri, d, v1),
        remove_effect(v1, uri@, v2),
    ensures
        v2.docs == without_doc(v0.docs, uri@),
        forall|s: Seq<char>|
            #[trigger] lookup(v2.headings, v2.interned, s) == drop_uri(lookup(v0.headings, v0.interned, s), uri@),
        forall|s: Seq<char>|
            #[trigger] lookup(v2.blocks, v2.interned, s) == drop_uri(lookup(v0.blocks, v0.interned, s), uri@),
        forall|s: Seq<char>| #[trigger] lookup(v2.tags, v2.interned, s) == drop_uri(lookup(v0.tags, v0.interned, s), uri@),
        forall|s: Seq<char>|
            #[trigger] lookup(v2.code_spans, v2.interned, s) == drop_uri(lookup(v0.code_spans, v0.interned, s), uri@),
        forall|dd: (u16, u8, u8)| #[trigger] list_of(v2.dates, dd) == drop_uri(list_of(v0.dates, dd), uri@),
        doc_pos(v0.docs, uri@) == -1 ==> {
            &&& v2.docs == v0.docs
            &&& forall|s: Seq<char>| #[trigger] lookup(v2.headings, v2.interned, s) == lookup(v0.headings, v0.interned, s)
            &&& forall|s: Seq<char>| #[trigger] lookup(v2.blocks, v2.interned, s) == lookup(v0.blocks, v0.interned, s)
            &&& forall|s: Seq<char>| #[trigger] lookup(v2.tags, v2.interned, s) == lookup(v0.tags, v0.interned, s)
            &&& forall|s: Seq<char>| #[trigger] lookup(v2.code_spans, v2.interned, s) == lookup(v0.code_spans, v0.interned, s)
            &&& forall|dd: (u16, u8, u8)| #[trigger] list_of(v2.dates, dd) == list_of(v0.dates, dd)
        },
{
    let u = uri@;
    lemma_without_pushed(v0.docs, uri, d);
    assert forall|s: Seq<char>| #[trigger] lookup(v2.headings, v2.interned, s) == drop_uri(lookup(v0.headings, v0.interned, s), u) by {
        lemma_added_entries(uri, d, s, (0, 0, 0));
        lemma_drop_readd(lookup(v0.headings, v0.interned, s), heading_entries(uri, d.headings, s), u);
    }
    assert forall|s: Seq<char>| #[trigger] lookup(v2.blocks, v2.interned, s) == drop_uri(lookup(v0.blocks, v0.interned, s), u) by {
        lemma_added_entries(uri, d, s, (0, 0, 0));
        lemma_drop_readd(lookup(v0.blocks, v0.interned, s), block_entries(uri, d.blocks, s), u);
    }
    assert forall|s: Seq<char>| #[trigger] lookup(v2.tags, v2.interned, s) == drop_uri(lookup(v0.tags, v0.interned, s), u) by {
        lemma_added_entries(uri, d, s, (0, 0, 0));
        lemma_drop_readd(lookup(v0.tags, v0.interned, s), tag_entries(uri, d.tags, s), u);
    }
    assert forall|s: Seq<char>| #[trigger] lookup(v2.code_spans, v2.interned, s) == drop_uri(lookup(v0.code_spans, v0.interned, s), u) by {
        lemma_added_entries(uri, d, s, (0, 0, 0));
        lemma_drop_readd(lookup(v0.code_spans, v0.interned, s), code_span_entries(uri, d.code_spans, s), u);
    }
    assert forall|dd: (u16, u8, u8)| #[trigger] list_of(v2.dates, dd) == drop_uri(list_of(v0.dates, dd), u) by {
        lemma_added_entries(uri, d, Seq::empty(), dd);
        lemma_list_of_drop_all(v1.dates, u, dd);
        lemma_drop_readd(list_of(v0.dates, dd), date_entries(uri, dd), u);
    }
    if doc_pos(v0.docs, u) == -1 {
        lemma_doc_pos(v0.docs, u);
        lemma_drop_absent(v0.headings, v0.interned, v0.docs, |x: DocumentView| slugs_of(x), u);
        lemma_drop_absent(v0.blocks, v0.interned, v0.docs, |x: DocumentView| block_ids_of(x), u);
        lemma_drop_absent(v0.tags, v0.interned, v0.docs, |x: DocumentView| tag_names_of(x), u);
        lemma_drop_absent(v0.code_spans, v0.interned, v0.docs, |x: DocumentView| span_texts_of(x), u);
        lemma_dates_drop(v0.dates, v0.docs, u);
        assert forall|s: Seq<char>| #[trigger] lookup(v2.headings, v2.interned, s) == lookup(v0.headings, v0.interned, s) by {
            lemma_lookup_drop(v0.headings, v0.interned, u, s);
        }
        assert forall|s: Seq<char>| #[trigger] lookup(v2.blocks, v2.interned, s) == lookup(v0.blocks, v0.interned, s) by {
            lemma_lookup_drop(v0.blocks, v0.interned, u, s);
        }
        assert forall|s: Seq<char>| #[trigger] lookup(v2.tags, v2.interned, s) == lookup(v0.tags, v0.interned, s) by {
            lemma_lookup_drop(v0.tags, v0.interned, u, s);
        }
        assert forall|s: Seq<char>| #[trigger] lookup(v2.code_spans, v2.interned, s) == lookup(v0.code_spans, v0.interned, s) by {
            lemma_lookup_drop(v0.code_spans, v0.interned, u, s);
        }
        assert forall|dd: (u16, u8, u8)| #[trigger] list_of(v2.dates, dd) == list_of(v0.dates, dd) by {
            lemma_list_of_drop_all(v0.dates, u, dd);
        }
    }
}

/// Adding a document again under the same URI is adding its last version
/// once: the earlier version leaves no trace.
pub proof fn law_add_again_replaces(
    v0: RealmView,
    v1: RealmView,
    v2: RealmView,
    uri: String,
    d1: DocumentView,
    d2: DocumentView,
)
    requires
        add_effect(v0, uri, d1, v1),
        add_effect(v1, uri, d2, v2),
    ensures
        add_effect(v0, uri, d2, v2),
{
    let u = uri@;
    lemma_without_pushed(v0.docs, uri, d1);
    assert forall|s: Seq<char>| #[trigger] lookup(v2.headings, v2.interned, s) == drop_uri(lookup(v0.headings, v0.interned, s), u)
        + heading_entries(uri, d2.headings, s) by {
        lemma_added_entries(uri, d1, s, (0, 0, 0));
        lemma_drop_readd(lookup(v0.headings, v0.interned, s), heading_entries(uri, d1.headings, s), u);
    }
    assert forall|s: Seq<char>| #[trigger] lookup(v2.blocks, v2.interned, s) == drop_uri(lookup(v0.blocks, v0.interned, s), u)
        + block_entries(uri, d2.blocks, s) by {
        lemma_added_entries(uri, d1, s, (0, 0, 0));
        lemma_drop_readd(lookup(v0.blocks, v0.interned, s), block_entries(uri, d1.blocks, s), u);
    }
    assert forall|s: Seq<char>| #[trigger] lookup(v2.tags, v2.interned, s) == drop_uri(lookup(v0.tags, v0.interned, s), u)
        + tag_entries(uri, d2.tags, s) by {
        lemma_added_entries(uri, d1, s, (0, 0, 0));
        lemma_drop_readd(lookup(v0.tags, v0.interned, s), tag_entries(uri, d1.tags, s), u);
    }
    assert forall|s: Seq<char>| #[trigger] lookup(v2.code_spans, v2.interned, s) == drop_uri(lookup(v0.code_spans, v0.interned, s), u)
        + code_span_entries(uri, d2.code_spans, s) by {
        lemma_added_entries(uri, d1, s, (0, 0, 0));
        lemma_drop_readd(lookup(v0.code_spans, v0.interned, s), code_span_entries(uri, d1.code_spans, s), u);
    }
    assert forall|dd: (u16, u8, u8)| #[trigger] list_of(v2.dates, dd) == drop_uri(list_of(v0.dates, dd), u) + date_entries(uri, dd) by {
        lemma_added_entries(uri, d1, Seq::empty(), dd);
        lemma_drop_readd(list_of(v0.dates, dd), date_entries(uri, dd), u);
    }
    assert forall|s: Seq<char>| #[trigger] lookup(v2.stems, v2.interned, s) == drop_uri(lookup(v0.stems, v0.interned, s), u)
        + stem_entries(uri, s) by {
        assert(drop_uri(stem_entries(uri, s), u) == Seq::<String>::empty()) by {
            assert(drop_uri(Seq::<String>::empty(), u) == Seq::<String>::empty());
            if uri_stem(u) == Some(s) {
                assert(stem_entries(uri, s) == seq![uri]);
                assert(seq![uri].last().entry_uri() == u);
                assert(seq![uri].drop_last() =~= Seq::<String>::empty());
            }
        }
        lemma_drop_readd(lookup(v0.stems, v0.interned, s), stem_entries(uri, s), u);
    }
}

/// Adding a document leaves the other documents' entries as they were: with
/// the added document's own entries set aside, every list is unchanged.
pub proof fn law_add_keeps_other_entries(v0: RealmView, v1: RealmView, uri: String, d: DocumentView)
    requires
        add_effect(v0, uri, d, v1),
    ensures
        forall|s: Seq<char>| #[trigger] drop_uri(lookup(v1.headings, v1.interned, s), uri@) == drop_uri(lookup(v0.headings, v0.interned, s), uri@),
        forall|s: Seq<char>| #[trigger] drop_uri(lookup(v1.blocks, v1.interned, s), uri@) == drop_uri(lookup(v0.blocks, v0.interned, s), uri@),
        forall|s: Seq<char>| #[trigger] drop_uri(lookup(v1.tags, v1.interned, s), uri@) == drop_uri(lookup(v0.tags, v0.interned, s), uri@),
        forall|s: Seq<char>| #[trigger] drop_uri(lookup(v1.code_spans, v1.interned, s), uri@) == drop_uri(lookup(v0.code_spans, v0.interned, s), uri@),
        forall|dd: (u16, u8, u8)| #[trigger] drop_uri(list_of(v1.dates, dd), uri@) == drop_uri(list_of(v0.dates, dd), uri@),
{
    let u = uri@;
    assert forall|s: Seq<char>| #[trigger] drop_uri(lookup(v1.headings, v1.interned, s), u) == drop_uri(lookup(v0.headings, v0.interned, s), u) by {
        lemma_added_entries(uri, d, s, (0, 0, 0));
        lemma_drop_readd(lookup(v0.headings, v0.interned, s), heading_entries(uri, d.headings, s), u);
    }
    assert forall|s: Seq<char>| #[trigger] drop_uri(lookup(v1.blocks, v1.interned, s), u) == drop_uri(lookup(v0.blocks, v0.interned, s), u) by {
        lemma_added_entries(uri, d, s, (0, 0, 0));
        lemma_drop_readd(lookup(v0.blocks, v0.interned, s), block_entries(uri, d.blocks, s), u);
    }
    assert forall|s: Seq<char>| #[trigger] drop_uri(lookup(v1.tags, v1.interned, s), u) == drop_uri(lookup(v0.tags, v0.interned, s), u) by {
        lemma_added_entries(uri, d, s, (0, 0, 0));
        lemma_drop_readd(lookup(v0.tags, v0.interned, s), tag_entries(uri, d.tags, s), u);
    }
    assert forall|s: Seq<char>| #[trigger] drop_uri(lookup(v1.code_spans, v1.interned, s), u) == drop_uri(lookup(v0.code_spans, v0.interned, s), u) by {
        lemma_added_entries(uri, d, s, (0, 0, 0));
        lemma_drop_readd(lookup(v0.code_spans, v0.interned, s), code_span_entries(uri, d.code_spans, s), u);
    }
    assert forall|dd: (u16, u8, u8)| #[trigger] drop_uri(list_of(v1.dates, dd), u) == drop_uri(list_of(v0.dates, dd), u) by {
        lemma_added_entries(uri, d, Seq::empty(), dd);
        lemma_drop_readd(list_of(v0.dates, dd), date_entries(uri, dd), u);
    }
}

/// With a document's own entries set aside, a patched list is the old one.
proof fn lemma_patched_others<V: UriEntry>(l: Seq<V>, u: Seq<char>, was_in: bool, is_in: bool, e: Seq<V>)
    requires
        drop_uri(e, u) == Seq::<V>::empty(),
    ensures
        drop_uri(patched(l, u, was_in, is_in, e), u) == drop_uri(l, u),
{
    lemma_drop_uri(l, u);
    if !was_in {
        lemma_drop_uri_concat(l, e, u);
        assert(drop_uri(l, u) + Seq::<V>::empty() =~= drop_uri(l, u));
    }
}

/// Updating a document leaves the other documents' entries as they were: with
/// the updated document's own entries set aside, every list is unchanged.
pub proof fn law_update_keeps_other_entries(v0: RealmView, v1: RealmView, uri: String, d: DocumentView)
    requires
        update_effect(v0, uri, d, v1),
    ensures
        forall|s: Seq<char>| #[trigger] drop_uri(lookup(v1.headings, v1.interned, s), uri@) == drop_uri(lookup(v0.headings, v0.interned, s), uri@),
        forall|s: Seq<char>| #[trigger] drop_uri(lookup(v1.blocks, v1.interned, s), uri@) == drop_uri(lookup(v0.blocks, v0.interned, s), uri@),
        forall|s: Seq<char>| #[trigger] drop_uri(lookup(v1.tags, v1.interned, s), uri@) == drop_uri(lookup(v0.tags, v0.interned, s), uri@),
        forall|s: Seq<char>| #[trigger] drop_uri(lookup(v1.code_spans, v1.interned, s), uri@) == drop_uri(lookup(v0.code_spans, v0.interned, s), uri@),
        forall|dd: (u16, u8, u8)| #[trigger] drop_uri(list_of(v1.dates, dd), uri@) == drop_uri(list_of(v0.dates, dd), uri@),
{
    let u = uri@;
    assert forall|s: Seq<char>| #[trigger] drop_uri(lookup(v1.headings, v1.interned, s), u) == drop_uri(lookup(v0.headings, v0.interned, s), u) by {
        lemma_added_entries(uri, d, s, (0, 0, 0));
        lemma_patched_others(
            lookup(v0.headings, v0.interned, s),
            u,
            prior_names(v0.docs, u, |x: DocumentView| slugs_of(x)).contains(s),
            slugs_of(d).contains(s),
            heading_entries(uri, d.headings, s),
        );
    }
    assert forall|s: Seq<char>| #[trigger] drop_uri(lookup(v1.blocks, v1.interned, s), u) == drop_uri(lookup(v0.blocks, v0.interned, s), u) by {
        lemma_added_entries(uri, d, s, (0, 0, 0));
        lemma_patched_others(
            lookup(v0.blocks, v0.interned, s),
            u,
            prior_names(v0.docs, u, |x: DocumentView| block_ids_of(x)).contains(s),
            block_ids_of(d).contains(s),
            block_entries(uri, d.blocks, s),
        );
    }
    assert forall|s: Seq<char>| #[trigger] drop_uri(lookup(v1.tags, v1.interned, s), u) == drop_uri(lookup(v0.tags, v0.interned, s), u) by {
        lemma_added_entries(uri, d, s, (0, 0, 0));
        lemma_patched_others(
            lookup(v0.tags, v0.interned, s),
            u,
            prior_names(v0.docs, u, |x: DocumentView| tag_names_of(x)).contains(s),
            tag_names_of(d).contains(s),
            tag_entries(uri, d.tags, s),
        );
    }
    assert forall|s: Seq<char>| #[trigger] drop_uri(lookup(v1.code_spans, v1.interned, s), u) == drop_uri(lookup(v0.code_spans, v0.interned, s), u) by {
        lemma_added_entries(uri, d, s, (0, 0, 0));
        lemma_patched_others(
            lookup(v0.code_spans, v0.interned, s),
            u,
            prior_names(v0.docs, u, |x: DocumentView| span_texts_of(x)).contains(s),
            span_texts_of(d).contains(s),
            code_span_entries(uri, d.code_spans, s),
        );
    }
    assert forall|dd: (u16, u8, u8)| #[trigger] drop_uri(list_of(v1.dates, dd), u) == drop_uri(list_of(v0.dates, dd), u) by {
        lemma_added_entries(uri, d, Seq::empty(), dd);
        let e = if doc_pos(v0.docs, u) >= 0 { Seq::<String>::empty() } else { date_entries(uri, dd) };
        assert(drop_uri(e, u) == Seq::<String>::empty());
        lemma_drop_uri_concat(list_of(v0.dates, dd), e, u);
        assert(drop_uri(list_of(v0.dates, dd), u) + Seq::<String>::empty() =~= drop_uri(list_of(v0.dates, dd), u));
    }
}

/// Removing a document leaves the other documents' entries as they were.
pub proof fn law_remove_keeps_other_entries(v0: RealmView, v1: RealmView, u: Seq<char>)
    requires
        remove_effect(v0, u, v1),
    ensures
        forall|s: Seq<char>| #[trigger] drop_uri(lookup(v1.headings, v1.interned, s), u) == drop_uri(lookup(v0.headings, v0.interned, s), u),
        forall|s: Seq<char>| #[trigger] drop_uri(lookup(v1.blocks, v1.interned, s), u) == drop_uri(lookup(v0.blocks, v0.interned, s), u),
        forall|s: Seq<char>| #[trigger] drop_uri(lookup(v1.tags, v1.interned, s), u) == drop_uri(lookup(v0.tags, v0.interned, s), u),
        forall|s: Seq<char>| #[trigger] drop_uri(lookup(v1.code_spans, v1.interned, s), u) == drop_uri(lookup(v0.code_spans, v0.interned, s), u),
        forall|dd: (u16, u8, u8)| #[trigger] drop_uri(list_of(v1.dates, dd), u) == drop_uri(list_of(v0.dates, dd), u),
{
    assert forall|s: Seq<char>| #[trigger] drop_uri(lookup(v1.headings, v1.interned, s), u) == drop_uri(lookup(v0.headings, v0.interned, s), u) by {
        lemma_drop_uri(lookup(v0.headings, v0.interned, s), u);
    }
    assert forall|s: Seq<char>| #[trigger] drop_uri(lookup(v1.blocks, v1.interned, s), u) == drop_uri(lookup(v0.blocks, v0.interned, s), u) by {
        lemma_drop_uri(lookup(v0.blocks, v0.interned, s), u);
    }
    assert forall|s: Seq<char>| #[trigger] drop_uri(lookup(v1.tags, v1.interned, s), u) == drop_uri(lookup(v0.tags, v0.interned, s), u) by {
        lemma_drop_uri(lookup(v0.tags, v0.interned, s), u);
    }
    assert forall|s: Seq<char>| #[trigger] drop_uri(lookup(v1.code_spans, v1.interned, s), u) == drop_uri(lookup(v0.code_spans, v0.interned, s), u) by {
        lemma_drop_uri(lookup(v0.code_spans, v0.interned, s), u);
    }
    assert forall|dd: (u16, u8, u8)| #[trigger] drop_uri(list_of(v1.dates, dd), u) == drop_uri(list_of(v0.dates, dd), u) by {
        lemma_list_of_drop_all(v0.dates, u, dd);
        lemma_drop_uri(list_of(v0.dates, dd), u);
    }
}

/// Once a document is removed it is gone: no document has its URI, and no
/// list of any table holds an entry of it.
pub proof fn law_removed_document_leaves_no_entry(v0: RealmView, v1: RealmView, u: Seq<char>)
    requires
        realm_wf(v0),
        remove_effect(v0, u, v1),
    ensures
        doc_pos(v1.docs, u) == -1,
        forall|s: Seq<char>, j: int|
            0 <= j < lookup(v1.headings, v1.interned, s).len() ==> (#[trigger] lookup(v1.headings, v1.interned, s)[j]).0@ != u,
        forall|s: Seq<char>, j: int|
            0 <= j < lookup(v1.blocks, v1.interned, s).len() ==> (#[trigger] lookup(v1.blocks, v1.interned, s)[j]).0@ != u,
        forall|s: Seq<char>, j: int|
            0 <= j < lookup(v1.tags, v1.interned, s).len() ==> (#[trigger] lookup(v1.tags, v1.interned, s)[j])@ != u,
        forall|s: Seq<char>, j: int|
            0 <= j < lookup(v1.code_spans, v1.interned, s).len() ==> (#[trigger] lookup(v1.code_spans, v1.interned, s)[j]).0@ != u,
        forall|dd: (u16, u8, u8), j: int| 0 <= j < list_of(v1.dates, dd).len() ==> (#[trigger] list_of(v1.dates, dd)[j])@ != u,
{
    lemma_doc_pos(v0.docs, u);
    let p = doc_pos(v0.docs, u);
    assert forall|i: int| 0 <= i < v1.docs.len() implies (#[trigger] v1.docs[i]).0@ != u by {
        if p >= 0 {
            if i < p {
                assert(v1.docs[i] == v0.docs[i]);
                assert(v0.docs[i].0@ != v0.docs[p].0@);
            } else {
                assert(v1.docs[i] == v0.docs[i + 1]);
                assert(v0.docs[p].0@ != v0.docs[i + 1].0@);
            }
        } else {
            assert(v1.docs[i] == v0.docs[i]);
        }
    }
    lemma_doc_pos(v1.docs, u);
    assert forall|s: Seq<char>, j: int| 0 <= j < lookup(v1.headings, v1.interned, s).len() implies (#[trigger] lookup(v1.headings, v1.interned, s)[j]).0@ != u by {
        lemma_drop_uri(lookup(v0.headings, v0.interned, s), u);
        assert(lookup(v1.headings, v1.interned, s)[j].entry_uri() != u);
    }
    assert forall|s: Seq<char>, j: int| 0 <= j < lookup(v1.blocks, v1.interned, s).len() implies (#[trigger] lookup(v1.blocks, v1.interned, s)[j]).0@ != u by {
        lemma_drop_uri(lookup(v0.blocks, v0.interned, s), u);
        assert(lookup(v1.blocks, v1.interned, s)[j].entry_uri() != u);
    }
    assert forall|s: Seq<char>, j: int| 0 <= j < lookup(v1.tags, v1.interned, s).len() implies (#[trigger] lookup(v1.tags, v1.interned, s)[j])@ != u by {
        lemma_drop_uri(lookup(v0.tags, v0.interned, s), u);
        assert(lookup(v1.tags, v1.interned, s)[j].entry_uri() != u);
    }
    assert forall|s: Seq<char>, j: int| 0 <= j < lookup(v1.code_spans, v1.interned, s).len() implies (#[trigger] lookup(v1.code_spans, v1.interned, s)[j]).0@ != u by {
        lemma_drop_uri(lookup(v0.code_spans, v0.interned, s), u);
        assert(lookup(v1.code_spans, v1.interned, s)[j].entry_uri() != u);
    }
    assert forall|dd: (u16, u8, u8), j: int| 0 <= j < list_of(v1.dates, dd).len() implies (#[trigger] list_of(v1.dates, dd)[j])@ != u by {
        lemma_list_of_drop_all(v0.dates, u, dd);
        lemma_drop_uri(list_of(v0.dates, dd), u);
        assert(list_of(v1.dates, dd)[j].entry_uri() != u);
    }
}

/// Updating a document that is not in the realm adds it.
pub proof fn law_update_of_new_document_adds(v0: RealmView, v1: RealmView, uri: String, d: DocumentView)
    requires
        realm_wf(v0),
        doc_pos(v0.docs, uri@) == -1,
        update_effect(v0, uri, d, v1),
    ensures
        add_effect(v0, uri, d, v1),
{
    let u = uri@;
    lemma_doc_pos(v0.docs, u);
    lemma_drop_absent(v0.headings, v0.interned, v0.docs, |x: DocumentView| slugs_of(x), u);
    lemma_drop_absent(v0.blocks, v0.interned, v0.docs, |x: DocumentView| block_ids_of(x), u);
    lemma_drop_absent(v0.tags, v0.interned, v0.docs, |x: DocumentView| tag_names_of(x), u);
    lemma_drop_absent(v0.code_spans, v0.interned, v0.docs, |x: DocumentView| span_texts_of(x), u);
    lemma_dates_drop(v0.dates, v0.docs, u);
    assert forall|s: Seq<char>| #[trigger] lookup(v1.headings, v1.interned, s) == drop_uri(lookup(v0.headings, v0.interned, s), u)
        + heading_entries(uri, d.headings, s) by {
        lemma_lookup_drop(v0.headings, v0.interned, u, s);
    }
    assert forall|s: Seq<char>| #[trigger] lookup(v1.blocks, v1.interned, s) == drop_uri(lookup(v0.blocks, v0.interned, s), u)
        + block_entries(uri, d.blocks, s) by {
        lemma_lookup_drop(v0.blocks, v0.interned, u, s);
    }
    assert forall|s: Seq<char>| #[trigger] lookup(v1.tags, v1.interned, s) == drop_uri(lookup(v0.tags, v0.interned, s), u)
        + tag_entries(uri, d.tags, s) by {
        lemma_lookup_drop(v0.tags, v0.interned, u, s);
    }
    assert forall|s: Seq<char>| #[trigger] lookup(v1.code_spans, v1.interned, s) == drop_uri(lookup(v0.code_spans, v0.interned, s), u)
        + code_span_entries(uri, d.code_spans, s) by {
        lemma_lookup_drop(v0.code_spans, v0.interned, u, s);
    }
    assert forall|dd: (u16, u8, u8)| #[trigger] list_of(v1.dates, dd) == drop_uri(list_of(v0.dates, dd), u) + date_entries(uri, dd) by {
        lemma_list_of_drop_all(v0.dates, u, dd);
    }
    lemma_stems_drop(v0.stems, v0.interned, v0.docs, u);
    assert forall|s: Seq<char>| #[trigger] lookup(v1.stems, v1.interned, s) == drop_uri(lookup(v0.stems, v0.interned, s), u)
        + stem_entries(uri, s) by {
        lemma_lookup_drop(v0.stems, v0.interned, u, s);
    }
}

/// An update that keeps a document's heading slugs, block ids, tags and code
/// span texts changes no list of any table.
pub proof fn law_update_with_same_names_changes_no_list(v0: RealmView, v1: RealmView, uri: String, d: DocumentView)
    requires
        update_effect(v0, uri, d, v1),
        doc_pos(v0.docs, uri@) >= 0,
        forall|s: Seq<char>| #[trigger] slugs_of(d).contains(s) == slugs_of(v0.docs[doc_pos(v0.docs, uri@)].1).contains(s),
        forall|s: Seq<char>| #[trigger] block_ids_of(d).contains(s) == block_ids_of(v0.docs[doc_pos(v0.docs, uri@)].1).contains(s),
        forall|s: Seq<char>| #[trigger] tag_names_of(d).contains(s) == tag_names_of(v0.docs[doc_pos(v0.docs, uri@)].1).contains(s),
        forall|s: Seq<char>| #[trigger] span_texts_of(d).contains(s) == span_texts_of(v0.docs[doc_pos(v0.docs, uri@)].1).contains(s),
    ensures
        forall|s: Seq<char>| #[trigger] lookup(v1.headings, v1.interned, s) == lookup(v0.headings, v0.interned, s),
        forall|s: Seq<char>| #[trigger] lookup(v1.blocks, v1.interned, s) == lookup(v0.blocks, v0.interned, s),
        forall|s: Seq<char>| #[trigger] lookup(v1.tags, v1.interned, s) == lookup(v0.tags, v0.interned, s),
        forall|s: Seq<char>| #[trigger] lookup(v1.code_spans, v1.interned, s) == lookup(v0.code_spans, v0.interned, s),
        forall|dd: (u16, u8, u8)| #[trigger] list_of(v1.dates, dd) == list_of(v0.dates, dd),
{
    assert forall|s: Seq<char>| #[trigger] lookup(v1.headings, v1.interned, s) == lookup(v0.headings, v0.interned, s) by {
        lemma_added_entries(uri, d, s, (0, 0, 0));
        if !slugs_of(d).contains(s) {
            assert(lookup(v0.headings, v0.interned, s) + Seq::<(String, super::types::ResolvedHeading)>::empty()
                =~= lookup(v0.headings, v0.interned, s));
        }
    }
    assert forall|s: Seq<char>| #[trigger] lookup(v1.blocks, v1.interned, s) == lookup(v0.blocks, v0.interned, s) by {
        lemma_added_entries(uri, d, s, (0, 0, 0));
        if !block_ids_of(d).contains(s) {
            assert(lookup(v0.blocks, v0.interned, s) + Seq::<(String, super::types::ResolvedBlock)>::empty()
                =~= lookup(v0.blocks, v0.interned, s));
        }
    }
    assert forall|s: Seq<char>| #[trigger] lookup(v1.tags, v1.interned, s) == lookup(v0.tags, v0.interned, s) by {
        lemma_added_entries(uri, d, s, (0, 0, 0));
        if !tag_names_of(d).contains(s) {
            assert(lookup(v0.tags, v0.interned, s) + Seq::<String>::empty() =~= lookup(v0.tags, v0.interned, s));
        }
    }
    assert forall|s: Seq<char>| #[trigger] lookup(v1.code_spans, v1.interned, s) == lookup(v0.code_spans, v0.interned, s) by {
        lemma_added_entries(uri, d, s, (0, 0, 0));
        if !span_texts_of(d).contains(s) {
            assert(lookup(v0.code_spans, v0.interned, s) + Seq::<(String, super::types::ResolvedCodeSpan)>::empty()
                =~= lookup(v0.code_spans, v0.interned, s));
        }
    }
    assert forall|dd: (u16, u8, u8)| #[trigger] list_of(v1.dates, dd) == list_of(v0.dates, dd) by {
        assert(list_of(v0.dates, dd) + Seq::<String>::empty() =~= list_of(v0.dates, dd));
    }
}

/// Every entry of the first `n` days of a month names a journal document of
/// the realm dated that day.
proof fn lemma_month_entries(v: RealmView, year: u16, month: u8, n: nat)
    requires
        realm_wf(v),
        n <= 31,
    ensures
        forall|j: int| 0 <= j < month_entries(v.dates, year, month, n).len() ==> {
            let e = #[trigger] month_entries(v.dates, year, month, n)[j];
            &&& 1 <= e.1 <= n
            &&& journal_date_of(encode_utf8(e.0@)) == Some((year, month, e.1))
            &&& exists|i: int| 0 <= i < v.docs.len() && v.docs[i].0@ == e.0@
        },
    decreases n,
{
    if n > 0 {
        let m = (n - 1) as nat;
        lemma_month_entries(v, year, month, m);
        let a = month_entries(v.dates, year, month, m);
        let key = (year, month, n as u8);
        let b = list_of(v.dates, key).map_values(|x: String| (x, n as u8));
        assert forall|j: int| 0 <= j < month_entries(v.dates, year, month, n).len() implies {
            let e = #[trigger] month_entries(v.dates, year, month, n)[j];
            &&& 1 <= e.1 <= n
            &&& journal_date_of(encode_utf8(e.0@)) == Some((year, month, e.1))
            &&& exists|i: int| 0 <= i < v.docs.len() && v.docs[i].0@ == e.0@
        } by {
            if j < a.len() {
                assert(month_entries(v.dates, year, month, n)[j] == a[j]);
            } else {
                let q = j - a.len();
                assert(month_entries(v.dates, year, month, n)[j] == b[q]);
                assert(v.dates.contains_key(key));
                assert(v.dates[key][q] == list_of(v.dates, key)[q]);
                assert(journal_date_of(encode_utf8(v.dates[key][q]@)) == Some(key));
            }
        }
    }
}

/// Every journal document a month lists is in the realm, and its URI names
/// that day of that month.
pub proof fn law_journal_month_lists_its_days(v: RealmView, year: u16, month: u8)
    requires
        realm_wf(v),
    ensures
        forall|j: int| 0 <= j < month_entries(v.dates, year, month, 31).len() ==> {
            let e = #[trigger] month_entries(v.dates, year, month, 31)[j];
            &&& 1 <= e.1 <= 31
            &&& journal_date_of(encode_utf8(e.0@)) == Some((year, month, e.1))
            &&& exists|i: int| 0 <= i < v.docs.len() && v.docs[i].0@ == e.0@
        },
{
    lemma_month_entries(v, year, month, 31);
}

/// The entries of the first `n` days of a month are ordered by day, each
/// day being one of those `n` days.
proof fn lemma_month_entries_by_day(dates: Map<(u16, u8, u8), Seq<String>>, year: u16, month: u8, n: nat)
    requires
        n <= 31,
    ensures
        forall|j: int| 0 <= j < month_entries(dates, year, month, n).len()
            ==> 1 <= (#[trigger] month_entries(dates, year, month, n)[j]).1 <= n,
        forall|i: int, j: int| 0 <= i < j < month_entries(dates, year, month, n).len()
            ==> (#[trigger] month_entries(dates, year, month, n)[i]).1 <= (#[trigger] month_entries(dates, year, month, n)[j]).1,
    decreases n,
{
    if n > 0 {
        let m = (n - 1) as nat;
        lemma_month_entries_by_day(dates, year, month, m);
        let a = month_entries(dates, year, month, m);
        let b = list_of(dates, (year, month, n as u8)).map_values(|x: String| (x, n as u8));
        let e = month_entries(dates, year, month, n);
        assert(e == a + b);
        assert forall|j: int| 0 <= j < e.len() implies 1 <= (#[trigger] e[j]).1 <= n by {
            if j < a.len() {
                assert(e[j] == a[j]);
            } else {
                assert(e[j] == b[j - a.len()]);
            }
        }
        assert forall|i: int, j: int| 0 <= i < j < e.len() implies (#[trigger] e[i]).1 <= (#[trigger] e[j]).1 by {
            if j < a.len() {
                assert(e[i] == a[i] && e[j] == a[j]);
            } else if i < a.len() {
                assert(e[i] == a[i] && e[j] == b[j - a.len()]);
            } else {
                assert(e[i] == b[i - a.len()] && e[j] == b[j - a.len()]);
            }
        }
    }
}

/// The journal pages of a month come sorted by day, ascending, each with a
/// day of the month; a page dated a day is listed under that day exactly
/// when the date table lists it for that date.
pub proof fn law_journal_month_sorted_by_day(dates: Map<(u16, u8, u8), Seq<String>>, year: u16, month: u8)
    ensures
        forall|i: int, j: int| 0 <= i < j < month_entries(dates, year, month, 31).len()
            ==> (#[trigger] month_entries(dates, year, month, 31)[i]).1 <= (#[trigger] month_entries(dates, year, month, 31)[j]).1,
        forall|j: int| 0 <= j < month_entries(dates, year, month, 31).len()
            ==> 1 <= (#[trigger] month_entries(dates, year, month, 31)[j]).1 <= 31,
        forall|u: String, d: u8| 1 <= d <= 31 ==> (#[trigger] month_entries(dates, year, month, 31).contains((u, d))
            <==> list_of(dates, (year, month, d)).contains(u)),
{
    lemma_month_entries_by_day(dates, year, month, 31);
    assert forall|u: String, d: u8| 1 <= d <= 31 implies (#[trigger] month_entries(dates, year, month, 31).contains((u, d))
        <==> list_of(dates, (year, month, d)).contains(u)) by {
        lemma_month_entries_contain(dates, year, month, 31, u, d);
    }
}

/// A page is among the entries of the first `n` days under day `d <= n`
/// exactly when the date table lists it for that date.
proof fn lemma_month_entries_contain(
    dates: Map<(u16, u8, u8), Seq<String>>,
    year: u16,
    month: u8,
    n: nat,
    u: String,
    d: u8,
)
    requires
        n <= 31,
        1 <= d,
    ensures
        month_entries(dates, year, month, n).contains((u, d)) <==> (d <= n && list_of(dates, (year, month, d)).contains(u)),
    decreases n,
{
    if n > 0 {
        let m = (n - 1) as nat;
        lemma_month_entries_contain(dates, year, month, m, u, d);
        let a = month_entries(dates, year, month, m);
        let l = list_of(dates, (year, month, n as u8));
        let b = l.map_values(|x: String| (x, n as u8));
        let e = month_entries(dates, year, month, n);
        assert(e == a + b);
        if e.contains((u, d)) {
            let j = choose|j: int| 0 <= j < e.len() && e[j] == (u, d);
            if j >= a.len() {
                assert(b[j - a.len()] == (u, d));
                assert(l[j - a.len()] == u);
                assert(l.contains(u));
            } else {
                assert(a[j] == e[j]);
                assert(a.contains((u, d)));
            }
        }
        if d <= n && list_of(dates, (year, month, d)).contains(u) {
            if d == n {
                let q = choose|q: int| 0 <= q < l.len() && l[q] == u;
                assert(e[a.len() + q] == b[q]);
                assert(e.contains((u, d)));
            } else {
                assert(a.contains((u, d)));
                let q = choose|q: int| 0 <= q < a.len() && a[q] == (u, d);
                assert(e[q] == a[q]);
            }
        }
    }
}

/// The realms seen while adding documents with distinct, new URIs hold the
/// first documents of the list after the realm's own.
proof fn lemma_steps_append(v0: RealmView, ds: Seq<(String, DocumentView)>, vs: Seq<RealmView>, k: int)
    requires
        add_steps(vs, ds),
        vs[0] == v0,
        0 <= k <= ds.len(),
        forall|i: int, j: int| 0 <= i < j < ds.len() ==> (#[trigger] ds[i]).0@ != (#[trigger] ds[j]).0@,
        forall|i: int, m: int| 0 <= i < ds.len() && 0 <= m < v0.docs.len() ==> (#[trigger] ds[i]).0@ != (#[trigger] v0.docs[m]).0@,
    ensures
        vs[k].docs == v0.docs + ds.subrange(0, k),
    decreases k,
{
    if k == 0 {
        assert(v0.docs + ds.subrange(0, 0) =~= v0.docs);
    } else {
        let p = k - 1;
        lemma_steps_append(v0, ds, vs, p);
        let before = vs[p].docs;
        let u = ds[p].0@;
        assert(add_effect(vs[p], ds[p].0, ds[p].1, vs[p + 1]));
        assert forall|i: int| 0 <= i < before.len() implies (#[trigger] before[i]).0@ != u by {
            if i < v0.docs.len() {
                assert(before[i] == v0.docs[i]);
            } else {
                assert(before[i] == ds[i - v0.docs.len()]);
            }
        }
        lemma_doc_pos(before, u);
        assert(without_doc(before, u) == before);
        assert(vs[k].docs =~= v0.docs + ds.subrange(0, k));
    }
}

/// Adding documents whose URIs are distinct and new to the realm appends
/// them to its documents, in the order given.
pub proof fn law_add_documents_appends_new_ones(v0: RealmView, ds: Seq<(String, DocumentView)>, v1: RealmView)
    requires
        adds_effect(v0, ds, v1),
        forall|i: int, j: int| 0 <= i < j < ds.len() ==> (#[trigger] ds[i]).0@ != (#[trigger] ds[j]).0@,
        forall|i: int, k: int| 0 <= i < ds.len() && 0 <= k < v0.docs.len() ==> (#[trigger] ds[i]).0@ != (#[trigger] v0.docs[k]).0@,
    ensures
        v1.docs == v0.docs + ds,
{
    let vs = choose|vs: Seq<RealmView>| #[trigger] add_steps(vs, ds) && vs[0] == v0 && vs.last() == v1;
    lemma_steps_append(v0, ds, vs, ds.len() as int);
    assert(ds.subrange(0, ds.len() as int) =~= ds);
}

/// After a document is added, the list of its URI's stem holds it exactly
/// once, at the end: adding a document again under the same URI leaves no
/// second entry, so its page name still finds it.
pub proof fn law_added_document_listed_once_by_stem(v0: RealmView, v1: RealmView, uri: String, d: DocumentView)
    requires
        add_effect(v0, uri, d, v1),
        uri_stem(uri@) is Some,
    ensures
        ({
            let l = lookup(v1.stems, v1.interned, uri_stem(uri@)->0);
            &&& l.len() > 0
            &&& l.last() == uri
            &&& forall|j: int| 0 <= j < l.len() - 1 ==> (#[trigger] l[j])@ != uri@
        }),
{
    let st = uri_stem(uri@)->0;
    let before = drop_uri(lookup(v0.stems, v0.interned, st), uri@);
    lemma_drop_uri(lookup(v0.stems, v0.interned, st), uri@);
    assert(stem_entries(uri, st) == seq![uri]);
    let l = lookup(v1.stems, v1.interned, st);
    assert(l == before + seq![uri]);
    assert forall|j: int| 0 <= j < l.len() - 1 implies (#[trigger] l[j])@ != uri@ by {
        assert(l[j] == before[j]);
        assert(before[j].entry_uri() != uri@);
    }
}

/// Whether `e` is the tag count of a key below `n` with a list.
pub open spec fn counted_under(tags: Map<usize, Seq<String>>, strings: Seq<Seq<char>>, n: nat, e: (Seq<char>, nat)) -> bool {
    exists|k: usize| k < n && #[trigger] tags.contains_key(k) && e == (strings[k as int], tags[k].len())
}

/// The tag counts of keys below `n` come from distinct keys: each is a
/// string below `n` with a list, its count the list's length.
proof fn lemma_tag_counts_of(tags: Map<usize, Seq<String>>, strings: Seq<Seq<char>>, n: nat)
    requires
        strings.no_duplicates(),
        n <= strings.len(),
        strings.len() < 4294967295,
    ensures
        forall|j: int| 0 <= j < tag_counts_of(tags, strings, n).len() ==> counted_under(tags, strings, n, #[trigger] tag_counts_of(tags, strings, n)[j]),
        forall|i: int, j: int| 0 <= i < j < tag_counts_of(tags, strings, n).len() ==>
            (#[trigger] tag_counts_of(tags, strings, n)[i]).0 != (#[trigger] tag_counts_of(tags, strings, n)[j]).0,
    decreases n,
{
    if n > 0 {
        let m = (n - 1) as nat;
        lemma_tag_counts_of(tags, strings, m);
        let p = tag_counts_of(tags, strings, m);
        let c = tag_counts_of(tags, strings, n);
        assert forall|j: int| 0 <= j < p.len() implies counted_under(tags, strings, n, #[trigger] p[j]) by {
            assert(counted_under(tags, strings, m, p[j]));
            let k = choose|k: usize| k < m && #[trigger] tags.contains_key(k) && p[j] == (strings[k as int], tags[k].len());
            assert(k < n);
        }
        if tags.contains_key(m as usize) {
            assert(c == p.push((strings[m as int], tags[m as usize].len())));
            assert forall|j: int| 0 <= j < c.len() implies counted_under(tags, strings, n, #[trigger] c[j]) by {
                if j < p.len() {
                    assert(c[j] == p[j]);
                } else {
                    let k = m as usize;
                    assert(tags.contains_key(k));
                    assert(c[j] == (strings[k as int], tags[k].len()));
                }
            }
            assert forall|i: int, j: int| 0 <= i < j < c.len() implies (#[trigger] c[i]).0 != (#[trigger] c[j]).0 by {
                if j < p.len() {
                    assert(c[i] == p[i] && c[j] == p[j]);
                } else {
                    assert(c[i] == p[i]);
                    assert(counted_under(tags, strings, m, p[i]));
                    let k = choose|k: usize| k < m && #[trigger] tags.contains_key(k) && p[i] == (strings[k as int], tags[k].len());
                    assert(strings[k as int] != strings[m as int]);
                }
            }
        } else {
            assert(c == p);
        }
    }
}

/// Tag counts name each tag once, and every count is at least one: a tag is
/// listed only while some document of the realm has it.
pub proof fn law_tag_counts_distinct_and_positive(v: RealmView)
    requires
        realm_wf(v),
    ensures
        forall|i: int, j: int| 0 <= i < j < tag_counts_of(v.tags, v.interned, v.interned.len()).len() ==>
            (#[trigger] tag_counts_of(v.tags, v.interned, v.interned.len())[i]).0
                != (#[trigger] tag_counts_of(v.tags, v.interned, v.interned.len())[j]).0,
        forall|j: int| 0 <= j < tag_counts_of(v.tags, v.interned, v.interned.len()).len() ==>
            (#[trigger] tag_counts_of(v.tags, v.interned, v.interned.len())[j]).1 >= 1,
{
    let n = v.interned.len();
    lemma_tag_counts_of(v.tags, v.interned, n);
    assert forall|j: int| 0 <= j < tag_counts_of(v.tags, v.interned, n).len() implies
        (#[trigger] tag_counts_of(v.tags, v.interned, n)[j]).1 >= 1 by {
        assert(counted_under(v.tags, v.interned, n, tag_counts_of(v.tags, v.interned, n)[j]));
        let k = choose|k: usize| k < n && #[trigger] v.tags.contains_key(k) && tag_counts_of(v.tags, v.interned, n)[j]
            == (v.interned[k as int], v.tags[k].len());
        assert(v.tags.contains_key(k));
    }
}

} // verus!
