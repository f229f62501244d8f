//! The tag table of a realm lists exactly the documents that carry each tag,
//! each once; so a tag's count is the number of documents with the tag.

use vstd::prelude::*;

use crate::document::index::DocumentView;

use super::index::{
    add_effect, doc_pos, has_tag, lemma_doc_pos, lemma_index_of, lookup, patched, prior_names,
    realm_wf, remove_effect, tag_counts_of, tag_entries, tag_names_of, unique_uris, update_effect,
    without_doc, RealmView,
};
use super::tables::{drop_uri, lemma_drop_uri, UriEntry};

verus! {

broadcast use vstd::seq_lib::group_seq_properties;

/// Whether a document of `docs` with URI `u` has tag `t`.
pub open spec fn tagged(docs: Seq<(String, DocumentView)>, t: Seq<char>, u: Seq<char>) -> bool {
    exists|i: int| 0 <= i < docs.len() && docs[i].0@ == u && #[trigger] tag_names_of(docs[i].1).contains(t)
}

/// The URIs of a list of document URIs, as text.
pub open spec fn uris_of(l: Seq<String>) -> Seq<Seq<char>> {
    l.map_values(|s: String| s@)
}

/// The list of tag `t` names each document that has the tag, once, and no other.
pub open spec fn tag_list_exact(v: RealmView, t: Seq<char>) -> bool {
    let l = uris_of(lookup(v.tags, v.interned, t));
    &&& l.no_duplicates()
    &&& forall|u: Seq<char>| l.contains(u) <==> tagged(v.docs, t, u)
}

/// Every tag's list is exact.
pub open spec fn tag_table_exact(v: RealmView) -> bool {
    forall|t: Seq<char>| #[trigger] tag_list_exact(v, t)
}

/// The documents of `docs` that have tag `t`, in order.
pub open spec fn docs_with_tag(docs: Seq<(String, DocumentView)>, t: Seq<char>) -> Seq<(String, DocumentView)> {
    docs.filter(|e: (String, DocumentView)| tag_names_of(e.1).contains(t))
}

/// Dropping `u` from a list keeps the other URIs, once each.
proof fn lemma_uris_drop(l: Seq<String>, u: Seq<char>)
    ensures
        forall|x: Seq<char>| uris_of(drop_uri(l, u)).contains(x) <==> (uris_of(l).contains(x) && x != u),
        uris_of(l).no_duplicates() ==> uris_of(drop_uri(l, u)).no_duplicates(),
    decreases l.len(),
{
    if l.len() > 0 {
        let p = l.drop_last();
        lemma_uris_drop(p, u);
        assert(uris_of(p) =~= uris_of(l).drop_last());
        assert(uris_of(l) =~= uris_of(p).push(l.last()@));
        if l.last()@ == u {
            assert(drop_uri(l, u) == drop_uri(p, u));
        } else {
            assert(drop_uri(l, u) == drop_uri(p, u).push(l.last()));
            assert(uris_of(drop_uri(l, u)) =~= uris_of(drop_uri(p, u)).push(l.last()@));
            if uris_of(l).no_duplicates() {
                assert(!uris_of(p).contains(l.last()@)) by {
                    if uris_of(p).contains(l.last()@) {
                        let j = choose|j: int| 0 <= j < uris_of(p).len() && uris_of(p)[j] == l.last()@;
                        assert(uris_of(l)[j] == uris_of(l)[l.len() - 1]);
                    }
                }
                assert(uris_of(p).no_duplicates()) by {
                    assert forall|a: int, b: int| 0 <= a < b < uris_of(p).len() implies uris_of(p)[a] != uris_of(p)[b] by {
                        assert(uris_of(p)[a] == uris_of(l)[a] && uris_of(p)[b] == uris_of(l)[b]);
                    }
                }
            }
        }
    }
}

/// A tag's entries for one document name that document once when it has the tag.
proof fn lemma_tag_entries(uri: String, d: DocumentView, t: Seq<char>)
    ensures
        has_tag(d.tags, t) <==> tag_names_of(d).contains(t),
        uris_of(tag_entries(uri, d.tags, t)) == (if tag_names_of(d).contains(t) {
            seq![uri@]
        } else {
            Seq::<Seq<char>>::empty()
        }),
{
    if has_tag(d.tags, t) {
        let i = choose|i: int| 0 <= i < d.tags.len() && (#[trigger] d.tags[i]).name@ == t;
        assert(tag_names_of(d)[i] == t);
    }
    if tag_names_of(d).contains(t) {
        let i = choose|i: int| 0 <= i < tag_names_of(d).len() && tag_names_of(d)[i] == t;
        assert(d.tags[i].name@ == t);
    }
    assert(uris_of(seq![uri]) =~= seq![uri@]);
    assert(uris_of(Seq::<String>::empty()) =~= Seq::<Seq<char>>::empty());
}

/// Which documents have a tag, after a document is taken out.
proof fn lemma_tagged_without(docs: Seq<(String, DocumentView)>, u: Seq<char>, t: Seq<char>, x: Seq<char>)
    requires
        unique_uris(docs),
    ensures
        tagged(without_doc(docs, u), t, x) <==> (tagged(docs, t, x) && x != u),
        unique_uris(without_doc(docs, u)),
{
    lemma_doc_pos(docs, u);
    let p = doc_pos(docs, u);
    let w = without_doc(docs, u);
    if p >= 0 {
        assert(w == docs.remove(p));
        assert forall|i: int| 0 <= i < w.len() implies #[trigger] w[i] == (if i < p { docs[i] } else { docs[i + 1] }) by {}
        if tagged(w, t, x) {
            let i = choose|i: int| 0 <= i < w.len() && w[i].0@ == x && #[trigger] tag_names_of(w[i].1).contains(t);
            let j = if i < p { i } else { i + 1 };
            assert(docs[j] == w[i]);
            assert(x != u) by {
                if x == u {
                    assert(docs[j].0@ == docs[p].0@);
                }
            }
        }
        if tagged(docs, t, x) && x != u {
            let j = choose|j: int| 0 <= j < docs.len() && docs[j].0@ == x && #[trigger] tag_names_of(docs[j].1).contains(t);
            assert(j != p);
            let i = if j < p { j } else { j - 1 };
            assert(w[i] == docs[j]);
        }
        assert forall|a: int, b: int| 0 <= a < b < w.len() implies (#[trigger] w[a]).0@ != (#[trigger] w[b]).0@ by {
            let ja = if a < p { a } else { a + 1 };
            let jb = if b < p { b } else { b + 1 };
            assert(w[a] == docs[ja] && w[b] == docs[jb]);
        }
    } else {
        if tagged(docs, t, x) && x == u {
            let j = choose|j: int| 0 <= j < docs.len() && docs[j].0@ == x && #[trigger] tag_names_of(docs[j].1).contains(t);
            assert(docs[j].0@ != u);
        }
    }
}

/// Which documents have a tag, after a document is appended.
proof fn lemma_tagged_push(docs: Seq<(String, DocumentView)>, e: (String, DocumentView), t: Seq<char>, x: Seq<char>)
    ensures
        tagged(docs.push(e), t, x) <==> (tagged(docs, t, x) || (e.0@ == x && tag_names_of(e.1).contains(t))),
{
    let s = docs.push(e);
    if tagged(s, t, x) {
        let i = choose|i: int| 0 <= i < s.len() && s[i].0@ == x && #[trigger] tag_names_of(s[i].1).contains(t);
        if i < docs.len() {
            assert(docs[i] == s[i]);
        }
    }
    if tagged(docs, t, x) {
        let i = choose|i: int| 0 <= i < docs.len() && docs[i].0@ == x && #[trigger] tag_names_of(docs[i].1).contains(t);
        assert(s[i] == docs[i]);
    }
    if e.0@ == x && tag_names_of(e.1).contains(t) {
        assert(s[docs.len() as int] == e);
    }
}

/// Which documents have a tag, after the document at `p` is replaced by one with its URI.
proof fn lemma_tagged_update(docs: Seq<(String, DocumentView)>, p: int, e: (String, DocumentView), t: Seq<char>, x: Seq<char>)
    requires
        unique_uris(docs),
        0 <= p < docs.len(),
        docs[p].0@ == e.0@,
    ensures
        x != e.0@ ==> (tagged(docs.update(p, e), t, x) <==> tagged(docs, t, x)),
        tagged(docs.update(p, e), t, e.0@) <==> tag_names_of(e.1).contains(t),
        tagged(docs, t, e.0@) <==> tag_names_of(docs[p].1).contains(t),
        unique_uris(docs.update(p, e)),
{
    let s = docs.update(p, e);
    if tagged(s, t, x) {
        let i = choose|i: int| 0 <= i < s.len() && s[i].0@ == x && #[trigger] tag_names_of(s[i].1).contains(t);
        if i != p {
            assert(docs[i] == s[i]);
            if x == e.0@ {
                assert(docs[i].0@ == docs[p].0@);
            }
        }
    }
    if tagged(docs, t, x) {
        let i = choose|i: int| 0 <= i < docs.len() && docs[i].0@ == x && #[trigger] tag_names_of(docs[i].1).contains(t);
        if i != p {
            assert(s[i] == docs[i]);
        }
    }
    if tag_names_of(e.1).contains(t) {
        assert(s[p] == e);
    }
    if tag_names_of(docs[p].1).contains(t) {
        assert(docs[p].0@ == e.0@);
    }
    assert forall|a: int, b: int| 0 <= a < b < s.len() implies (#[trigger] s[a]).0@ != (#[trigger] s[b]).0@ by {
        assert(s[a].0@ == docs[a].0@ && s[b].0@ == docs[b].0@);
    }
}

/// An empty realm's tag table is exact.
pub proof fn law_empty_realm_tags_exact(v: RealmView)
    requires
        v.docs.len() == 0,
        v.tags.is_empty(),
    ensures
        tag_table_exact(v),
{
    assert forall|t: Seq<char>| #[trigger] tag_list_exact(v, t) by {
        assert(lookup(v.tags, v.interned, t).len() == 0) by {
            if v.interned.contains(t) {
                assert(!v.tags.contains_key(v.interned.index_of(t) as usize));
            }
        }
        assert(uris_of(lookup(v.tags, v.interned, t)) =~= Seq::<Seq<char>>::empty());
    }
}

/// Adding a document keeps the tag table exact (the realm's documents have
/// distinct URIs, as every realm's do).
pub proof fn law_add_keeps_tags_exact(v0: RealmView, v1: RealmView, uri: String, d: DocumentView)
    requires
        unique_uris(v0.docs),
        tag_table_exact(v0),
        add_effect(v0, uri, d, v1),
    ensures
        tag_table_exact(v1),
{
    assert forall|t: Seq<char>| #[trigger] tag_list_exact(v1, t) by {
        assert(tag_list_exact(v0, t));
        let l0 = lookup(v0.tags, v0.interned, t);
        let l1 = lookup(v1.tags, v1.interned, t);
        assert(l1 == drop_uri(l0, uri@) + tag_entries(uri, d.tags, t));
        lemma_uris_drop(l0, uri@);
        lemma_tag_entries(uri, d, t);
        let a = uris_of(drop_uri(l0, uri@));
        let b = uris_of(tag_entries(uri, d.tags, t));
        assert(uris_of(l1) =~= a + b);
        let w = without_doc(v0.docs, uri@);
        assert(v1.docs == w.push((uri, d)));
        assert forall|x: Seq<char>| uris_of(l1).contains(x) <==> tagged(v1.docs, t, x) by {
            lemma_tagged_without(v0.docs, uri@, t, x);
            lemma_tagged_push(w, (uri, d), t, x);
            assert(uris_of(l0).contains(x) <==> tagged(v0.docs, t, x));
            assert(a.contains(x) <==> (uris_of(l0).contains(x) && x != uri@));
            if uris_of(l1).contains(x) {
                let j = choose|j: int| 0 <= j < (a + b).len() && (a + b)[j] == x;
                if j >= a.len() {
                    assert(b[j - a.len()] == x);
                } else {
                    assert(a.contains(a[j]));
                }
            }
            if tagged(v1.docs, t, x) {
                if x == uri@ {
                    assert(b[0] == x);
                    assert((a + b)[a.len() as int] == x);
                } else {
                    assert(a.contains(x));
                    let j = choose|j: int| 0 <= j < a.len() && a[j] == x;
                    assert((a + b)[j] == x);
                }
            }
        }
        assert(!a.contains(uri@)) by {
            lemma_drop_uri(l0, uri@);
            if a.contains(uri@) {
                let j = choose|j: int| 0 <= j < a.len() && a[j] == uri@;
                assert(a[j] == drop_uri(l0, uri@)[j]@);
                assert(drop_uri(l0, uri@)[j].entry_uri() != uri@);
            }
        }
        assert(a.no_duplicates());
        assert((a + b).no_duplicates()) by {
            assert forall|i: int, j: int| 0 <= i < j < (a + b).len() implies (a + b)[i] != (a + b)[j] by {
                if j >= a.len() && i < a.len() {
                    assert(a.contains(a[i]));
                    assert((a + b)[j] == uri@);
                } else if j < a.len() {
                    assert((a + b)[i] == a[i] && (a + b)[j] == a[j]);
                }
            }
        }
    }
}

/// Removing a document keeps the tag table exact.
pub proof fn law_remove_keeps_tags_exact(v0: RealmView, v1: RealmView, u: Seq<char>)
    requires
        unique_uris(v0.docs),
        tag_table_exact(v0),
        remove_effect(v0, u, v1),
    ensures
        tag_table_exact(v1),
{
    assert forall|t: Seq<char>| #[trigger] tag_list_exact(v1, t) by {
        assert(tag_list_exact(v0, t));
        let l0 = lookup(v0.tags, v0.interned, t);
        assert(lookup(v1.tags, v1.interned, t) == drop_uri(l0, u));
        lemma_uris_drop(l0, u);
        assert(v1.docs == without_doc(v0.docs, u));
        assert forall|x: Seq<char>| uris_of(drop_uri(l0, u)).contains(x) <==> tagged(v1.docs, t, x) by {
            lemma_tagged_without(v0.docs, u, t, x);
            assert(uris_of(l0).contains(x) <==> tagged(v0.docs, t, x));
            assert(uris_of(drop_uri(l0, u)).contains(x) <==> (uris_of(l0).contains(x) && x != u));
        }
    }
}

/// Updating a document keeps the tag table exact.
pub proof fn law_update_keeps_tags_exact(v0: RealmView, v1: RealmView, uri: String, d: DocumentView)
    requires
        unique_uris(v0.docs),
        tag_table_exact(v0),
        update_effect(v0, uri, d, v1),
    ensures
        tag_table_exact(v1),
{
    lemma_doc_pos(v0.docs, uri@);
    let p = doc_pos(v0.docs, uri@);
    assert forall|t: Seq<char>| #[trigger] tag_list_exact(v1, t) by {
        assert(tag_list_exact(v0, t));
        let l0 = lookup(v0.tags, v0.interned, t);
        let was = prior_names(v0.docs, uri@, |x: DocumentView| tag_names_of(x)).contains(t);
        let now_in = tag_names_of(d).contains(t);
        let l1 = lookup(v1.tags, v1.interned, t);
        assert(l1 == patched(l0, uri@, was, now_in, tag_entries(uri, d.tags, t)));
        lemma_uris_drop(l0, uri@);
        lemma_tag_entries(uri, d, t);
        // whether the realm had the document under this tag
        assert(tagged(v0.docs, t, uri@) <==> was) by {
            if p >= 0 {
                lemma_tagged_update(v0.docs, p, (uri, d), t, uri@);
            } else if tagged(v0.docs, t, uri@) {
                let i = choose|i: int| 0 <= i < v0.docs.len() && v0.docs[i].0@ == uri@ && #[trigger] tag_names_of(v0.docs[i].1).contains(t);
                assert(v0.docs[i].0@ != uri@);
            }
        }
        assert forall|x: Seq<char>| tagged(v1.docs, t, x) <==> (if x == uri@ { now_in } else { tagged(v0.docs, t, x) }) by {
            if p >= 0 {
                lemma_tagged_update(v0.docs, p, (uri, d), t, x);
            } else {
                lemma_tagged_push(v0.docs, (uri, d), t, x);
                if x == uri@ && tagged(v0.docs, t, x) {
                    let i = choose|i: int| 0 <= i < v0.docs.len() && v0.docs[i].0@ == x && #[trigger] tag_names_of(v0.docs[i].1).contains(t);
                    assert(v0.docs[i].0@ != uri@);
                }
            }
        }
        let a = uris_of(l0);
        if was && !now_in {
            assert(l1 == drop_uri(l0, uri@));
            assert forall|x: Seq<char>| uris_of(l1).contains(x) <==> tagged(v1.docs, t, x) by {
                assert(uris_of(l0).contains(x) <==> tagged(v0.docs, t, x));
                assert(uris_of(l1).contains(x) <==> (uris_of(l0).contains(x) && x != uri@));
            }
        } else if !was {
            let b = uris_of(tag_entries(uri, d.tags, t));
            assert(uris_of(l1) =~= a + b);
            assert(!a.contains(uri@)) by {
                assert(a.contains(uri@) <==> tagged(v0.docs, t, uri@));
            }
            assert(a.no_duplicates());
            assert forall|x: Seq<char>| uris_of(l1).contains(x) <==> tagged(v1.docs, t, x) by {
                assert(a.contains(x) <==> tagged(v0.docs, t, x));
                if uris_of(l1).contains(x) {
                    let j = choose|j: int| 0 <= j < (a + b).len() && (a + b)[j] == x;
                    if j >= a.len() {
                        assert(b[j - a.len()] == x);
                    } else {
                        assert(a.contains(a[j]));
                    }
                }
                if tagged(v1.docs, t, x) {
                    if x == uri@ {
                        assert((a + b)[a.len() as int] == x);
                    } else {
                        let j = choose|j: int| 0 <= j < a.len() && a[j] == x;
                        assert((a + b)[j] == x);
                    }
                }
            }
            assert((a + b).no_duplicates()) by {
                assert forall|i: int, j: int| 0 <= i < j < (a + b).len() implies (a + b)[i] != (a + b)[j] by {
                    if j >= a.len() && i < a.len() {
                        assert(a.contains(a[i]));
                        assert((a + b)[j] == uri@);
                    } else if j < a.len() {
                        assert((a + b)[i] == a[i] && (a + b)[j] == a[j]);
                    }
                }
            }
        } else {
            assert(l1 == l0);
            assert forall|x: Seq<char>| uris_of(l1).contains(x) <==> tagged(v1.docs, t, x) by {
                assert(uris_of(l0).contains(x) <==> tagged(v0.docs, t, x));
            }
        }
    }
}

/// Each tag's count is the number of documents in the realm that have the tag.
pub proof fn law_tag_count_is_document_count(v: RealmView)
    requires
        realm_wf(v),
        tag_table_exact(v),
    ensures
        forall|j: int| 0 <= j < tag_counts_of(v.tags, v.interned, v.interned.len()).len() ==>
            (#[trigger] tag_counts_of(v.tags, v.interned, v.interned.len())[j]).1
                == docs_with_tag(v.docs, tag_counts_of(v.tags, v.interned, v.interned.len())[j].0).len(),
{
    let n = v.interned.len();
    lemma_counts_from_keys(v, n);
}

/// The counts of keys below `n` are those of the tag lists.
proof fn lemma_counts_from_keys(v: RealmView, n: nat)
    requires
        realm_wf(v),
        tag_table_exact(v),
        n <= v.interned.len(),
    ensures
        forall|j: int| 0 <= j < tag_counts_of(v.tags, v.interned, n).len() ==>
            (#[trigger] tag_counts_of(v.tags, v.interned, n)[j]).1
                == docs_with_tag(v.docs, tag_counts_of(v.tags, v.interned, n)[j].0).len(),
    decreases n,
{
    if n > 0 {
        let m = (n - 1) as nat;
        lemma_counts_from_keys(v, m);
        let prev = tag_counts_of(v.tags, v.interned, m);
        if v.tags.contains_key(m as usize) {
            let t = v.interned[m as int];
            lemma_index_of(v.interned, m as int);
            assert(lookup(v.tags, v.interned, t) == v.tags[m as usize]);
            lemma_count_of_tag(v, t);
            let c = tag_counts_of(v.tags, v.interned, n);
            assert(c == prev.push((t, v.tags[m as usize].len())));
            assert forall|j: int| 0 <= j < c.len() implies (#[trigger] c[j]).1 == docs_with_tag(v.docs, c[j].0).len() by {
                if j < prev.len() {
                    assert(c[j] == prev[j]);
                }
            }
        }
    }
}

/// A tag's list is as long as the list of documents with the tag.
proof fn lemma_count_of_tag(v: RealmView, t: Seq<char>)
    requires
        realm_wf(v),
        tag_table_exact(v),
    ensures
        lookup(v.tags, v.interned, t).len() == docs_with_tag(v.docs, t).len(),
{
    assert(tag_list_exact(v, t));
    let l = uris_of(lookup(v.tags, v.interned, t));
    let f = docs_with_tag(v.docs, t);
    let fu = f.map_values(|e: (String, DocumentView)| e.0@);
    assert forall|i: int| 0 <= i < f.len() implies tag_names_of((#[trigger] f[i]).1).contains(t) && v.docs.contains(f[i]) by {
        v.docs.lemma_filter_pred(|e: (String, DocumentView)| tag_names_of(e.1).contains(t), i);
        assert(f.contains(f[i]));
        v.docs.lemma_filter_contains_rev(|e: (String, DocumentView)| tag_names_of(e.1).contains(t), f[i]);
    }
    assert(fu.no_duplicates()) by {
        assert forall|a: int, b: int| 0 <= a < b < fu.len() implies fu[a] != fu[b] by {
            if fu[a] == fu[b] {
                let ia = choose|ia: int| 0 <= ia < v.docs.len() && v.docs[ia] == f[a];
                let ib = choose|ib: int| 0 <= ib < v.docs.len() && v.docs[ib] == f[b];
                assert(v.docs.contains(f[a]) && v.docs.contains(f[b]));
                if ia == ib {
                    assert(f[a] == f[b]);
                    // two positions of the filter holding one element of a list with unique URIs
                    lemma_filter_unique(v.docs, t, a, b);
                } else if ia < ib {
                    assert(v.docs[ia].0@ != v.docs[ib].0@);
                } else {
                    assert(v.docs[ib].0@ != v.docs[ia].0@);
                }
            }
        }
    }
    assert forall|x: Seq<char>| fu.contains(x) <==> l.contains(x) by {
        if fu.contains(x) {
            let j = choose|j: int| 0 <= j < fu.len() && fu[j] == x;
            assert(v.docs.contains(f[j]));
            let i = choose|i: int| 0 <= i < v.docs.len() && v.docs[i] == f[j];
            assert(tag_names_of(v.docs[i].1).contains(t));
            assert(tagged(v.docs, t, x));
        }
        if l.contains(x) {
            assert(tagged(v.docs, t, x));
            let i = choose|i: int| 0 <= i < v.docs.len() && v.docs[i].0@ == x && #[trigger] tag_names_of(v.docs[i].1).contains(t);
            v.docs.lemma_filter_contains_rev(|e: (String, DocumentView)| tag_names_of(e.1).contains(t), v.docs[i]);
            assert(f.contains(v.docs[i]));
            let j = choose|j: int| 0 <= j < f.len() && f[j] == v.docs[i];
            assert(fu[j] == x);
        }
    }
    fu.unique_seq_to_set();
    l.unique_seq_to_set();
    assert(fu.to_set() =~= l.to_set());
}

/// In a list with unique URIs, filtering keeps one position per document.
proof fn lemma_filter_unique(docs: Seq<(String, DocumentView)>, t: Seq<char>, a: int, b: int)
    requires
        unique_uris(docs),
        0 <= a < b < docs_with_tag(docs, t).len(),
    ensures
        docs_with_tag(docs, t)[a].0@ != docs_with_tag(docs, t)[b].0@,
    decreases docs.len(),
{
    let p = |e: (String, DocumentView)| tag_names_of(e.1).contains(t);
    let f = docs_with_tag(docs, t);
    let q = docs.drop_last();
    assert(docs =~= q.push(docs.last()));
    q.lemma_filter_push(docs.last(), p);
    assert(unique_uris(q)) by {
        assert forall|i: int, j: int| 0 <= i < j < q.len() implies (#[trigger] q[i]).0@ != (#[trigger] q[j]).0@ by {
            assert(q[i] == docs[i] && q[j] == docs[j]);
        }
    }
    let fq = docs_with_tag(q, t);
    if p(docs.last()) {
        assert(f == fq.push(docs.last()));
        if b < fq.len() {
            lemma_filter_unique(q, t, a, b);
            assert(f[a] == fq[a] && f[b] == fq[b]);
        } else {
            assert(f[b] == docs.last());
            assert(f[a] == fq[a]);
            assert(fq.contains(fq[a]));
            q.lemma_filter_contains_rev(p, fq[a]);
            let i = choose|i: int| 0 <= i < q.len() && q[i] == fq[a];
            assert(docs[i] == q[i]);
            assert(docs[i].0@ != docs[docs.len() - 1].0@);
        }
    } else {
        assert(f == fq);
        lemma_filter_unique(q, t, a, b);
    }
}

/// Which documents a list holds, after the document with URI `u` is replaced by `e`.
proof fn lemma_docs_replaced(docs: Seq<(String, DocumentView)>, e: (String, DocumentView), x: (String, DocumentView))
    requires
        unique_uris(docs),
    ensures
        without_doc(docs, e.0@).push(e).contains(x) <==> (x == e || (docs.contains(x) && x.0@ != e.0@)),
        (if doc_pos(docs, e.0@) >= 0 {
            docs.update(doc_pos(docs, e.0@), e)
        } else {
            docs.push(e)
        }).contains(x) <==> (x == e || (docs.contains(x) && x.0@ != e.0@)),
        without_doc(docs, e.0@).push(e).len() == (if doc_pos(docs, e.0@) >= 0 {
            docs.update(doc_pos(docs, e.0@), e)
        } else {
            docs.push(e)
        }).len(),
{
    lemma_doc_pos(docs, e.0@);
    let p = doc_pos(docs, e.0@);
    let w = without_doc(docs, e.0@);
    let s = w.push(e);
    if p >= 0 {
        assert(w == docs.remove(p));
        let r = docs.update(p, e);
        if s.contains(x) && x != e {
            let i = choose|i: int| 0 <= i < s.len() && s[i] == x;
            let j = if i < p { i } else { i + 1 };
            assert(docs[j] == x);
            assert(x.0@ != e.0@) by {
                if j != p {
                    assert(docs[j].0@ != docs[p].0@);
                }
            }
        }
        if docs.contains(x) && x.0@ != e.0@ {
            let j = choose|j: int| 0 <= j < docs.len() && docs[j] == x;
            assert(j != p);
            let i = if j < p { j } else { j - 1 };
            assert(s[i] == x);
            assert(r[j] == x);
        }
        if x == e {
            assert(s[s.len() - 1] == x);
            assert(r[p] == x);
        }
        if r.contains(x) && x != e {
            let i = choose|i: int| 0 <= i < r.len() && r[i] == x;
            assert(i != p);
            assert(docs[i] == x);
            assert(docs[i].0@ != docs[p].0@);
        }
    } else {
        assert(w == docs);
        if docs.contains(x) {
            let j = choose|j: int| 0 <= j < docs.len() && docs[j] == x;
            assert(docs[j].0@ != e.0@);
        }
    }
}

/// Updating a document in place and removing it then adding the new version
/// leave the same documents, and every tag lists the same documents.
pub proof fn law_update_agrees_with_remove_then_add(
    v0: RealmView,
    v1: RealmView,
    v2: RealmView,
    v3: RealmView,
    uri: String,
    d: DocumentView,
)
    requires
        unique_uris(v0.docs),
        tag_table_exact(v0),
        update_effect(v0, uri, d, v1),
        remove_effect(v0, uri@, v2),
        add_effect(v2, uri, d, v3),
    ensures
        v1.docs.len() == v3.docs.len(),
        forall|x: (String, DocumentView)| v1.docs.contains(x) <==> v3.docs.contains(x),
        forall|t: Seq<char>, u: Seq<char>|
            #[trigger] uris_of(lookup(v1.tags, v1.interned, t)).contains(u) <==> uris_of(
                lookup(v3.tags, v3.interned, t),
            ).contains(u),
        forall|t: Seq<char>| (#[trigger] lookup(v1.tags, v1.interned, t)).len() == lookup(v3.tags, v3.interned, t).len(),
{
    let e = (uri, d);
    lemma_doc_pos(v0.docs, uri@);
    // the documents left after the removal still have distinct URIs
    lemma_tagged_without(v0.docs, uri@, uri@, uri@);
    assert(v2.docs == without_doc(v0.docs, uri@));
    assert(v3.docs == without_doc(v2.docs, uri@).push(e));
    lemma_doc_pos(v2.docs, uri@);
    assert(without_doc(v2.docs, uri@) == v2.docs) by {
        if doc_pos(v2.docs, uri@) >= 0 {
            let q = doc_pos(v2.docs, uri@);
            lemma_docs_gone(v0.docs, uri@, q);
        }
    }
    assert forall|x: (String, DocumentView)| v1.docs.contains(x) <==> v3.docs.contains(x) by {
        lemma_docs_replaced(v0.docs, e, x);
    }
    lemma_docs_replaced(v0.docs, e, e);
    law_update_keeps_tags_exact(v0, v1, uri, d);
    law_remove_keeps_tags_exact(v0, v2, uri@);
    law_add_keeps_tags_exact(v2, v3, uri, d);
    assert forall|t: Seq<char>, u: Seq<char>|
        #[trigger] uris_of(lookup(v1.tags, v1.interned, t)).contains(u) <==> uris_of(lookup(v3.tags, v3.interned, t)).contains(u) by {
        assert(tag_list_exact(v1, t));
        assert(tag_list_exact(v3, t));
        lemma_tagged_same_docs(v1.docs, v3.docs, t, u);
    }
    assert forall|t: Seq<char>| (#[trigger] lookup(v1.tags, v1.interned, t)).len() == lookup(v3.tags, v3.interned, t).len() by {
        assert(tag_list_exact(v1, t));
        assert(tag_list_exact(v3, t));
        let a = uris_of(lookup(v1.tags, v1.interned, t));
        let b = uris_of(lookup(v3.tags, v3.interned, t));
        assert forall|u: Seq<char>| a.contains(u) <==> b.contains(u) by {
            lemma_tagged_same_docs(v1.docs, v3.docs, t, u);
        }
        a.unique_seq_to_set();
        b.unique_seq_to_set();
        assert(a.to_set() =~= b.to_set());
    }
}

/// After a document is taken out, no document has its URI.
proof fn lemma_docs_gone(docs: Seq<(String, DocumentView)>, u: Seq<char>, q: int)
    requires
        unique_uris(docs),
        0 <= q < without_doc(docs, u).len(),
    ensures
        without_doc(docs, u)[q].0@ != u,
{
    lemma_doc_pos(docs, u);
    let p = doc_pos(docs, u);
    if p >= 0 {
        let w = docs.remove(p);
        let j = if q < p { q } else { q + 1 };
        assert(w[q] == docs[j]);
        assert(docs[j].0@ != docs[p].0@);
    } else {
        assert(docs[q].0@ != u);
    }
}

/// Lists holding the same documents agree on which have a tag.
proof fn lemma_tagged_same_docs(a: Seq<(String, DocumentView)>, b: Seq<(String, DocumentView)>, t: Seq<char>, u: Seq<char>)
    requires
        forall|x: (String, DocumentView)| a.contains(x) <==> b.contains(x),
    ensures
        tagged(a, t, u) <==> tagged(b, t, u),
{
    if tagged(a, t, u) {
        let i = choose|i: int| 0 <= i < a.len() && a[i].0@ == u && #[trigger] tag_names_of(a[i].1).contains(t);
        assert(a.contains(a[i]));
        let j = choose|j: int| 0 <= j < b.len() && b[j] == a[i];
        assert(tag_names_of(b[j].1).contains(t));
    }
    if tagged(b, t, u) {
        let i = choose|i: int| 0 <= i < b.len() && b[i].0@ == u && #[trigger] tag_names_of(b[i].1).contains(t);
        assert(b.contains(b[i]));
        let j = choose|j: int| 0 <= j < a.len() && a[j] == b[i];
        assert(tag_names_of(a[j].1).contains(t));
    }
}

} // verus!
