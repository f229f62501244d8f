use markymark_index::{ConnectionGraph, RefKind, SymbolData};

#[test]
fn new_graph_is_empty() {
    let g = ConnectionGraph::new();
    assert_eq!(g.node_count(), 0);
    assert_eq!(g.edge_count(), 0);
    assert!(g.unresolved_references().is_empty());
    assert!(!g.has_cycle());
    assert_eq!(g.topological_sort(), Some(vec![]));
    let d = ConnectionGraph::default();
    assert_eq!(d.node_count(), 0);
}

#[test]
fn reference_is_recorded_once() {
    let mut g = ConnectionGraph::new();
    let a = g.add_document("file:///a.md".to_string());
    let b = g.add_document("file:///b.md".to_string());
    g.add_reference(a, b, RefKind::WikiLink);
    g.add_reference(a, b, RefKind::WikiLink);
    assert_eq!(g.edge_count(), 1);
    // Another kind between the same symbols is another reference.
    g.add_reference(a, b, RefKind::Embed);
    assert_eq!(g.edge_count(), 2);
    assert_eq!(g.references(a), vec![(b, RefKind::Embed), (b, RefKind::WikiLink)]);
    assert_eq!(g.backrefs(b), vec![(a, RefKind::Embed), (a, RefKind::WikiLink)]);
    assert!(g.references(b).is_empty());
    assert!(g.backrefs(a).is_empty());
}

#[test]
fn references_come_most_recent_first() {
    let mut g = ConnectionGraph::new();
    let a = g.add_document("file:///a.md".to_string());
    let b = g.add_document("file:///b.md".to_string());
    let c = g.add_heading("file:///c.md".to_string(), "intro", "Intro");
    g.add_reference(a, b, RefKind::MarkdownLink);
    g.add_reference(a, c, RefKind::BlockRef);
    g.add_reference(c, b, RefKind::TagRef);
    assert_eq!(g.references(a), vec![(c, RefKind::BlockRef), (b, RefKind::MarkdownLink)]);
    assert_eq!(g.backrefs(b), vec![(c, RefKind::TagRef), (a, RefKind::MarkdownLink)]);
}

#[test]
fn removing_a_document_removes_its_symbols_and_references() {
    let mut g = ConnectionGraph::new();
    let a = g.add_document("file:///a.md".to_string());
    let ah = g.add_heading("file:///a.md".to_string(), "top", "Top");
    let b = g.add_document("file:///b.md".to_string());
    g.add_reference(b, a, RefKind::WikiLink);
    g.add_reference(b, ah, RefKind::WikiLink);
    g.add_reference(ah, b, RefKind::WikiLink);
    g.add_unresolved(a, "missing", RefKind::WikiLink);
    g.add_unresolved(b, "gone", RefKind::Embed);
    assert_eq!(g.node_count(), 3);
    assert_eq!(g.edge_count(), 3);

    g.remove_document("file:///a.md");
    assert_eq!(g.node_count(), 1);
    assert_eq!(g.edge_count(), 0);
    assert!(g.references(b).is_empty());
    assert!(g.references(a).is_empty());
    let un = g.unresolved_references();
    assert_eq!(un.len(), 1);
    assert_eq!(un[0].from, b);
    assert_eq!(un[0].target, "gone");
    assert_eq!(un[0].kind, RefKind::Embed);

    // A reference to a removed symbol is not recorded.
    g.add_reference(b, a, RefKind::WikiLink);
    assert_eq!(g.edge_count(), 0);
    // Removing an unknown document changes nothing.
    g.remove_document("file:///nowhere.md");
    assert_eq!(g.node_count(), 1);
}

#[test]
fn cycles_and_topological_order() {
    let mut g = ConnectionGraph::new();
    let a = g.add_document("file:///a.md".to_string());
    let b = g.add_document("file:///b.md".to_string());
    let c = g.add_document("file:///c.md".to_string());
    g.add_reference(a, b, RefKind::WikiLink);
    g.add_reference(b, c, RefKind::WikiLink);
    assert!(!g.has_cycle());
    let order = g.topological_sort().expect("acyclic");
    let pos = |s| order.iter().position(|x| *x == s).unwrap();
    assert_eq!(order.len(), 3);
    assert!(pos(a) < pos(b) && pos(b) < pos(c));

    g.add_reference(c, a, RefKind::WikiLink);
    assert!(g.has_cycle());
    assert_eq!(g.topological_sort(), None);
}

#[test]
fn a_self_reference_is_a_cycle() {
    let mut g = ConnectionGraph::new();
    let a = g.add_document("file:///a.md".to_string());
    g.add_reference(a, a, RefKind::BlockRef);
    assert!(g.has_cycle());
    assert!(g.topological_sort().is_none());
}

#[test]
fn reachable_excludes_the_start() {
    let mut g = ConnectionGraph::new();
    let a = g.add_document("file:///a.md".to_string());
    let b = g.add_document("file:///b.md".to_string());
    let c = g.add_document("file:///c.md".to_string());
    let d = g.add_document("file:///d.md".to_string());
    g.add_reference(a, b, RefKind::WikiLink);
    g.add_reference(b, c, RefKind::WikiLink);
    g.add_reference(c, a, RefKind::WikiLink);
    let mut r = g.reachable_from(a);
    r.sort_by_key(|s| format!("{s:?}"));
    assert_eq!(r.len(), 2);
    assert!(r.contains(&b) && r.contains(&c));
    assert!(!r.contains(&a) && !r.contains(&d));
    assert!(g.reachable_from(d).is_empty());
}

#[test]
fn no_reference_kind_blocks() {
    let mut g = ConnectionGraph::new();
    let a = g.add_document("file:///a.md".to_string());
    let b = g.add_document("file:///b.md".to_string());
    g.add_reference(a, b, RefKind::Embed);
    assert!(g.blocking_predecessors(b).is_empty());
    for k in [RefKind::WikiLink, RefKind::MarkdownLink, RefKind::BlockRef, RefKind::Embed, RefKind::TagRef] {
        assert!(!k.is_blocking());
    }
}

#[test]
fn symbols_are_filed_by_document() {
    let d = SymbolData::Document { uri: "file:///x.md".to_string() };
    let h = SymbolData::Heading { uri: "file:///x.md".to_string(), slug: "s".to_string(), text: "S".to_string() };
    assert_eq!(d.key(), "file:///x.md");
    assert_eq!(h.key(), "file:///x.md");
    let mut g = ConnectionGraph::new();
    let first = g.add_node(d);
    let second = g.add_node(h);
    assert_ne!(first, second);
    g.remove_by_key(&"file:///x.md".to_string());
    assert_eq!(g.node_count(), 0);
}
