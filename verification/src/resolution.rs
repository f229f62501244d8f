//! Reference resolution: markdown link anchors and block references resolved
//! to their targets within a realm.

use vstd::prelude::*;

use crate::document::index::{find_slug, law_heading_by_slug_is_last};
use crate::realm::index::{doc_pos, first_by_stem, lemma_doc_pos, lookup, RealmIndex, RealmView};
use crate::realm::paths::{linked_document_uri, linked_uri};
use crate::realm::stem::ascii_lower;

verus! {

/// A resolved reference target.
#[derive(Debug)]
pub enum ResolvedTarget {
    /// Resolved to a whole document.
    Document(String),
    /// Resolved to a heading within a document.
    Heading {
        /// The document containing the heading.
        uri: String,
        /// The heading slug.
        slug: String,
        /// The heading display text.
        text: String,
    },
    /// Resolved to a block within a document.
    Block {
        /// The document containing the block.
        uri: String,
        /// The block identifier.
        id: String,
    },
}

/// The slug and text of the heading `slug` names in document `uri` of the
/// realm (the later one where two headings share the slug), if any.
pub open spec fn heading_of(v: RealmView, uri: Seq<char>, slug: Seq<char>) -> Option<(Seq<char>, Seq<char>)> {
    let p = doc_pos(v.docs, uri);
    if p >= 0 && find_slug(v.docs[p].1.headings, slug) >= 0 {
        let h = v.docs[p].1.headings[find_slug(v.docs[p].1.headings, slug)];
        Some((h.slug@, h.text@))
    } else {
        None
    }
}

/// Whether `t` is the heading target with document `uri` and the given slug and text.
pub open spec fn is_heading_target(t: ResolvedTarget, uri: Seq<char>, st: (Seq<char>, Seq<char>)) -> bool {
    t matches ResolvedTarget::Heading { uri: u, slug: s, text: x } && u@ == uri && s@ == st.0 && x@ == st.1
}

/// The heading `slug` in document `uri` of the realm, as a target.
fn heading_in(realm: &RealmIndex, uri: &str, slug: &str) -> (r: Option<ResolvedTarget>)
    ensures
        match heading_of(realm@, uri@, slug@) {
            None => r is None,
            Some(st) => r matches Some(t) && is_heading_target(t, uri@, st),
        },
{
    let ghost v = realm@;
    let ghost p = doc_pos(v.docs, uri@);
    proof {
        lemma_doc_pos(v.docs, uri@);
    }
    match realm.get_document(uri) {
        None => None,
        Some(doc) => {
            assert(p >= 0);
            assert(doc@ == v.docs[p].1);
            proof {
                law_heading_by_slug_is_last(v.docs[p].1.headings, slug@);
            }
            match doc.heading_by_slug(slug) {
                None => None,
                Some(h) => {
                    let t = ResolvedTarget::Heading { uri: uri.to_owned(), slug: h.slug.clone(), text: h.text.clone() };
                    assert(h.slug@ == heading_of(v, uri@, slug@).unwrap().0);
                    assert(h.text@ == heading_of(v, uri@, slug@).unwrap().1);
                    Some(t)
                },
            }
        },
    }
}

/// The document a wiki link's page name `target` names in the realm: the
/// first one added whose file stem is the name, in ASCII lowercase.
pub open spec fn page_of(v: RealmView, target: Seq<char>) -> Option<String> {
    first_by_stem(v, ascii_lower(target))
}

/// Resolve a wiki link.
///
/// - `[[#heading]]` (empty target) is a heading of the linking document;
/// - `[[page]]` is the document the page name names (see `page_of`);
/// - `[[page#heading]]` is a heading of that document;
/// - an empty target without heading, or a page name that names no document,
///   resolves to nothing.
pub fn resolve_wiki_link(realm: &RealmIndex, from_uri: &str, target: &str, heading: Option<&str>) -> (r: Option<
    ResolvedTarget,
>)
    requires
        realm.wf(),
    ensures
        target@.len() == 0 && heading is Some ==> match heading_of(realm@, from_uri@, heading.unwrap()@) {
            None => r is None,
            Some(st) => r matches Some(t) && is_heading_target(t, from_uri@, st),
        },
        target@.len() == 0 && heading is None ==> r is None,
        target@.len() > 0 && page_of(realm@, target@) is None ==> r is None,
        target@.len() > 0 && heading is None && page_of(realm@, target@) is Some ==> (r matches Some(
            ResolvedTarget::Document(u),
        ) && u == page_of(realm@, target@)->0),
        target@.len() > 0 && heading is Some && page_of(realm@, target@) is Some ==> match heading_of(
            realm@,
            (page_of(realm@, target@)->0)@,
            heading.unwrap()@,
        ) {
            None => r is None,
            Some(st) => r matches Some(t) && is_heading_target(t, (page_of(realm@, target@)->0)@, st),
        },
{
    let empty = target.unicode_len() == 0;
    if empty {
        return match heading {
            Some(slug) => heading_in(realm, from_uri, slug),
            None => None,
        };
    }
    match realm.find_uri_by_stem(target) {
        None => None,
        Some(page) => match heading {
            Some(slug) => heading_in(realm, page.as_str(), slug),
            None => Some(ResolvedTarget::Document(page)),
        },
    }
}

/// Resolve a markdown link anchor to its heading:
/// - `[text](#slug)` names a heading of the linking document;
/// - `[text](other.md#slug)` names a heading of the document that the
///   relative URL points to, resolved against the linking document's
///   directory (`.` and `..` segments applied; see `linked_uri`).
///
/// A link without an anchor, or from a document whose URI is not a
/// `file://` URI, resolves to nothing.
pub fn resolve_markdown_link(realm: &RealmIndex, from_uri: &str, url: &str, anchor: Option<&str>) -> (r: Option<
    ResolvedTarget,
>)
    ensures
        anchor is None ==> r is None,
        url@.len() == 0 && anchor is Some ==> match heading_of(realm@, from_uri@, anchor.unwrap()@) {
            None => r is None,
            Some(st) => r matches Some(t) && is_heading_target(t, from_uri@, st),
        },
        url@.len() > 0 && anchor is Some ==> match linked_uri(from_uri@, url@) {
            None => r is None,
            Some(u) => match heading_of(realm@, u, anchor.unwrap()@) {
                None => r is None,
                Some(st) => r matches Some(t) && is_heading_target(t, u, st),
            },
        },
{
    match anchor {
        Some(slug) => {
            if url.unicode_len() == 0 {
                heading_in(realm, from_uri, slug)
            } else {
                match linked_document_uri(from_uri, url) {
                    Some(target) => heading_in(realm, target.as_str(), slug),
                    None => None,
                }
            }
        },
        None => None,
    }
}

/// Resolve a block reference `((id))`: the block of that id in the first
/// document of the realm that has it.
pub fn resolve_block_ref(realm: &RealmIndex, id: &str) -> (r: Option<ResolvedTarget>)
    requires
        realm.wf(),
    ensures
        lookup(realm@.blocks, realm@.interned, id@).len() == 0 ==> r is None,
        lookup(realm@.blocks, realm@.interned, id@).len() > 0 ==> ({
            let first = lookup(realm@.blocks, realm@.interned, id@)[0];
            r matches Some(ResolvedTarget::Block { uri: u, id: b }) && u == first.0 && b == first.1.id
        }),
{
    match realm.lookup_block(id) {
        Some((uri, block)) => Some(ResolvedTarget::Block { uri, id: block.id }),
        None => None,
    }
}

} // verus!
