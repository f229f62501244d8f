//! Cross-document tables: lists of entries keyed by interned string or date,
//! each entry naming the document (URI) it came from.

use std::collections::{BTreeMap, HashMap};
use vstd::prelude::*;

use crate::text::str_eq;

use super::types::{ResolvedBlock, ResolvedCodeSpan, ResolvedHeading};

verus! {

broadcast use {
    vstd::std_specs::hash::group_hash_axioms,
    vstd::std_specs::btree::group_btree_axioms,
};

/// An entry of a cross-document table: it names the document it came from.
pub trait UriEntry: Sized {
    /// The URI of the entry's document.
    spec fn entry_uri(&self) -> Seq<char>;

    /// Whether the entry came from document `uri`.
    fn has_uri(&self, uri: &str) -> (r: bool)
        ensures
            r == (self.entry_uri() == uri@),
    ;

    /// A copy of the entry.
    fn copy(&self) -> (r: Self)
        ensures
            r == *self,
    ;
}

impl UriEntry for String {
    open spec fn entry_uri(&self) -> Seq<char> {
        self@
    }

    fn has_uri(&self, uri: &str) -> (r: bool) {
        str_eq(self.as_str(), uri)
    }

    fn copy(&self) -> (r: Self) {
        self.clone()
    }
}

impl UriEntry for (String, ResolvedHeading) {
    open spec fn entry_uri(&self) -> Seq<char> {
        self.0@
    }

    fn has_uri(&self, uri: &str) -> (r: bool) {
        str_eq(self.0.as_str(), uri)
    }

    fn copy(&self) -> (r: Self) {
        (self.0.clone(), self.1.clone())
    }
}

impl UriEntry for (String, ResolvedBlock) {
    open spec fn entry_uri(&self) -> Seq<char> {
        self.0@
    }

    fn has_uri(&self, uri: &str) -> (r: bool) {
        str_eq(self.0.as_str(), uri)
    }

    fn copy(&self) -> (r: Self) {
        (self.0.clone(), self.1.clone())
    }
}

impl UriEntry for (String, ResolvedCodeSpan) {
    open spec fn entry_uri(&self) -> Seq<char> {
        self.0@
    }

    fn has_uri(&self, uri: &str) -> (r: bool) {
        str_eq(self.0.as_str(), uri)
    }

    fn copy(&self) -> (r: Self) {
        (self.0.clone(), self.1.clone())
    }
}

/// `s` without the entries of document `u`, in order.
pub open spec fn drop_uri<V: UriEntry>(s: Seq<V>, u: Seq<char>) -> Seq<V>
    decreases s.len(),
{
    if s.len() == 0 {
        s
    } else if s.last().entry_uri() == u {
        drop_uri(s.drop_last(), u)
    } else {
        drop_uri(s.drop_last(), u).push(s.last())
    }
}

/// The lists of a table, as sequences.
pub open spec fn lists<K, V>(m: Map<K, Vec<V>>) -> Map<K, Seq<V>> {
    m.map_values(|v: Vec<V>| v@)
}

/// The list of `k` (empty when `k` has none).
pub open spec fn list_of<K, V>(m: Map<K, Seq<V>>, k: K) -> Seq<V> {
    if m.contains_key(k) {
        m[k]
    } else {
        Seq::empty()
    }
}

/// The table after dropping the entries of document `u` from the list of `k`,
/// and the key too when its list becomes empty.
pub open spec fn retained<K, V: UriEntry>(m: Map<K, Seq<V>>, k: K, u: Seq<char>) -> Map<K, Seq<V>> {
    if !m.contains_key(k) {
        m
    } else if drop_uri(m[k], u).len() == 0 {
        m.remove(k)
    } else {
        m.insert(k, drop_uri(m[k], u))
    }
}

/// The entries of a list that did not come from document `uri`.
fn without_uri<V: UriEntry>(v: Vec<V>, uri: &str) -> (r: Vec<V>)
    ensures
        r@ == drop_uri(v@, uri@),
{
    let ghost all = v@;
    // Reverse the list, then pop it back into order.
    let mut rest = v;
    let mut items: Vec<V> = Vec::new();
    while rest.len() > 0
        invariant
            rest@ + items@.reverse() == all,
        decreases rest@.len(),
    {
        let x = rest.pop().unwrap();
        proof {
            assert(items@.push(x).reverse() =~= seq![x] + items@.reverse());
            assert(rest@ + items@.push(x).reverse() =~= all);
        }
        items.push(x);
    }
    assert(items@.reverse() =~= all);
    let mut out: Vec<V> = Vec::new();
    while items.len() > 0
        invariant
            items@.len() <= all.len(),
            out@ == drop_uri(all.subrange(0, all.len() - items@.len()), uri@),
            items@.reverse() == all.subrange(all.len() - items@.len(), all.len() as int),
        decreases items@.len(),
    {
        let ghost k = all.len() - items@.len();
        let ghost before = items@;
        let x = items.pop().unwrap();
        proof {
            assert(before == items@.push(x));
            assert(before.reverse()[0] == x);
            assert(all.subrange(k, all.len() as int)[0] == all[k]);
            assert(all.subrange(0, k + 1).drop_last() =~= all.subrange(0, k));
            assert(all.subrange(0, k + 1).last() == x);
            assert(items@.push(x).reverse() =~= seq![x] + items@.reverse());
            assert((seq![x] + items@.reverse()).drop_first() =~= items@.reverse());
            assert(all.subrange(k, all.len() as int).drop_first() =~= all.subrange(
                k + 1,
                all.len() as int,
            ));
            assert(items@.reverse() =~= all.subrange(k + 1, all.len() as int));
        }
        if !x.has_uri(uri) {
            out.push(x);
        }
    }
    assert(all.subrange(0, all.len() as int) =~= all);
    out
}

/// Drop the entries of document `uri` from the list of `key`, and the key
/// when its list becomes empty.
pub(crate) fn retain_or_remove_hash<V: UriEntry>(map: &mut HashMap<usize, Vec<V>>, key: usize, uri: &str)
    ensures
        lists(final(map)@) == retained(lists(old(map)@), key, uri@),
{
    match map.remove(&key) {
        Some(entries) => {
            let kept = without_uri(entries, uri);
            if kept.len() > 0 {
                map.insert(key, kept);
            }
            assert(lists(final(map)@) =~= retained(lists(old(map)@), key, uri@));
        },
        None => {
            assert(lists(final(map)@) =~= lists(old(map)@));
        },
    }
}

/// Drop the entries of document `uri` from the list of date `key`, and the key
/// when its list becomes empty.
pub(crate) fn retain_or_remove_btree<V: UriEntry>(
    map: &mut BTreeMap<(u16, u8, u8), Vec<V>>,
    key: (u16, u8, u8),
    uri: &str,
)
    ensures
        lists(final(map)@) == retained(lists(old(map)@), key, uri@),
{
    match map.remove(&key) {
        Some(entries) => {
            let kept = without_uri(entries, uri);
            if kept.len() > 0 {
                map.insert(key, kept);
            }
            assert(lists(final(map)@) =~= retained(lists(old(map)@), key, uri@));
        },
        None => {
            assert(lists(final(map)@) =~= lists(old(map)@));
        },
    }
}

/// Append `v` to the list of `key`.
pub(crate) fn push_entry<V>(map: &mut HashMap<usize, Vec<V>>, key: usize, v: V)
    ensures
        lists(final(map)@) == lists(old(map)@).insert(key, list_of(lists(old(map)@), key).push(v)),
{
    let ghost old_map = lists(map@);
    match map.remove(&key) {
        Some(mut entries) => {
            entries.push(v);
            map.insert(key, entries);
        },
        None => {
            let mut entries: Vec<V> = Vec::new();
            entries.push(v);
            map.insert(key, entries);
        },
    }
    assert(lists(map@) =~= old_map.insert(key, list_of(old_map, key).push(v)));
}

/// Append `v` to the list of date `key`.
pub(crate) fn push_date_entry<V>(map: &mut BTreeMap<(u16, u8, u8), Vec<V>>, key: (u16, u8, u8), v: V)
    ensures
        lists(final(map)@) == lists(old(map)@).insert(key, list_of(lists(old(map)@), key).push(v)),
{
    let ghost old_map = lists(map@);
    match map.remove(&key) {
        Some(mut entries) => {
            entries.push(v);
            map.insert(key, entries);
        },
        None => {
            let mut entries: Vec<V> = Vec::new();
            entries.push(v);
            map.insert(key, entries);
        },
    }
    assert(lists(map@) =~= old_map.insert(key, list_of(old_map, key).push(v)));
}

/// A copy of a list.
pub(crate) fn copy_list<V: UriEntry>(v: &Vec<V>) -> (r: Vec<V>)
    ensures
        r@ == v@,
{
    let mut out: Vec<V> = Vec::new();
    let mut i: usize = 0;
    while i < v.len()
        invariant
            i <= v@.len(),
            out@ == v@.subrange(0, i as int),
        decreases v@.len() - i,
    {
        out.push(v[i].copy());
        assert(v@.subrange(0, i + 1) =~= v@.subrange(0, i as int).push(v@[i as int]));
        i = i + 1;
    }
    assert(v@.subrange(0, v@.len() as int) =~= v@);
    out
}

/// The table without the entries of document `u`, dropping emptied keys.
pub open spec fn drop_all<K, V: UriEntry>(t: Map<K, Seq<V>>, u: Seq<char>) -> Map<K, Seq<V>> {
    Map::new(|k: K| t.contains_key(k) && drop_uri(t[k], u).len() > 0, |k: K| drop_uri(t[k], u))
}

/// The table without the entries of document `u` under keys `ks`, dropping
/// emptied keys among them.
pub open spec fn drop_keys<K, V: UriEntry>(t: Map<K, Seq<V>>, u: Seq<char>, ks: Set<K>) -> Map<K, Seq<V>> {
    Map::new(
        |k: K| t.contains_key(k) && (!ks.contains(k) || drop_uri(t[k], u).len() > 0),
        |k: K|
            if ks.contains(k) {
                drop_uri(t[k], u)
            } else {
                t[k]
            },
    )
}

/// Dropping the entries of `u` keeps the other entries, in order, and only them.
pub proof fn lemma_drop_uri<V: UriEntry>(s: Seq<V>, u: Seq<char>)
    ensures
        drop_uri(s, u).len() <= s.len(),
        forall|j: int| 0 <= j < drop_uri(s, u).len() ==> (#[trigger] drop_uri(s, u)[j]).entry_uri() != u && s.contains(drop_uri(s, u)[j]),
        (forall|j: int| 0 <= j < s.len() ==> (#[trigger] s[j]).entry_uri() != u) ==> drop_uri(s, u) == s,
        drop_uri(drop_uri(s, u), u) == drop_uri(s, u),
    decreases s.len(),
{
    if s.len() > 0 {
        let p = s.drop_last();
        lemma_drop_uri(p, u);
        assert forall|j: int| 0 <= j < p.len() implies s.contains(#[trigger] p[j]) by {
            assert(s[j] == p[j]);
        }
        if s.last().entry_uri() != u {
            let d = drop_uri(p, u);
            assert(drop_uri(s, u) == d.push(s.last()));
            assert(drop_uri(d.push(s.last()), u) == drop_uri(d, u).push(s.last())) by {
                assert(d.push(s.last()).drop_last() =~= d);
            }
            assert forall|j: int| 0 <= j < drop_uri(s, u).len() implies (#[trigger] drop_uri(s, u)[j]).entry_uri() != u && s.contains(drop_uri(s, u)[j]) by {
                if j < d.len() {
                    assert(drop_uri(s, u)[j] == d[j]);
                } else {
                    assert(s[s.len() - 1] == s.last());
                }
            }
            if forall|j: int| 0 <= j < s.len() ==> (#[trigger] s[j]).entry_uri() != u {
                assert forall|j: int| 0 <= j < p.len() implies (#[trigger] p[j]).entry_uri() != u by {
                    assert(p[j] == s[j]);
                }
                assert(s == p.push(s.last()));
            }
        } else {
            assert(s[s.len() - 1].entry_uri() == u);
        }
    }
}

/// The entries pushed under string `s` when `entries[i]` goes under `names[i]`, in order.
pub open spec fn pushed<V>(names: Seq<Seq<char>>, entries: Seq<V>, s: Seq<char>) -> Seq<V>
    decreases names.len(),
{
    if names.len() == 0 || entries.len() == 0 {
        Seq::empty()
    } else if names.last() == s {
        pushed(names.drop_last(), entries.drop_last(), s).push(entries.last())
    } else {
        pushed(names.drop_last(), entries.drop_last(), s)
    }
}

} // verus!
