//! Properties of the connection graph that span its operations.

use vstd::prelude::*;

use super::connection::{
    graph_wf, keyed, lemma_edge_lists, nodes_without_key, with_reference, GraphView, UnresolvedRef,
};
use super::store::{in_list, out_list, RefKind};

verus! {

broadcast use vstd::seq_lib::group_seq_properties;

/// A symbol's references and its targets' back-references agree: `b` is
/// among the references of `a` with kind `k` exactly when `a` is among the
/// back-references of `b` with kind `k`.
pub proof fn law_references_mirror_backrefs(edges: Seq<(usize, usize, RefKind)>, a: usize, b: usize, k: RefKind)
    ensures
        out_list(edges, a).contains((b, k)) <==> in_list(edges, b).contains((a, k)),
{
    lemma_edge_lists(edges, a, b, k);
}

/// Recording a reference a second time changes nothing: the first time
/// leaves it among the edges when both symbols are in the graph, and the
/// second finds it there.
pub proof fn law_reference_recorded_once(v0: GraphView, v1: GraphView, a: usize, b: usize, k: RefKind)
    requires
        v1.nodes == v0.nodes,
        v1.edges == with_reference(v0, a, b, k),
    ensures
        with_reference(v1, a, b, k) == v1.edges,
        v1.edges.contains((a, b, k)) <==> (v0.nodes.contains_key(a) && v0.nodes.contains_key(b)) || v0.edges.contains((a, b, k)),
{
    if v0.nodes.contains_key(a) && v0.nodes.contains_key(b) && !v0.edges.contains((a, b, k)) {
        assert(v1.edges[v0.edges.len() as int] == (a, b, k));
    }
    if v1.edges.contains((a, b, k)) && v1.edges != v0.edges {
        assert(v0.nodes.contains_key(a) && v0.nodes.contains_key(b));
    }
}

/// Adding a reference twice has the effect of adding it once: from a graph
/// `v0`, adding the reference from `a` to `b` of kind `k` gives `v1`, and
/// adding it again to `v1` gives `v1` back.
pub proof fn law_add_reference_twice_is_once(v0: GraphView, v1: GraphView, v2: GraphView, a: usize, b: usize, k: RefKind)
    requires
        v1.nodes == v0.nodes,
        v1.unresolved == v0.unresolved,
        v1.edges == with_reference(v0, a, b, k),
        v2.nodes == v1.nodes,
        v2.unresolved == v1.unresolved,
        v2.edges == with_reference(v1, a, b, k),
    ensures
        v2 == v1,
{
    law_reference_recorded_once(v0, v1, a, b, k);
}

/// Once the symbols of a document are removed, none is left, no reference
/// leads to or from one of them, and no unresolved reference comes from one.
pub proof fn law_removed_document_leaves_no_symbol(v0: GraphView, v1: GraphView, key: Seq<char>)
    requires
        graph_wf(v0),
        v1.nodes == nodes_without_key(v0.nodes, key),
        v1.edges == v0.edges.filter(|e: (usize, usize, RefKind)| !keyed(v0.nodes, key, e.0) && !keyed(v0.nodes, key, e.1)),
        v1.unresolved == v0.unresolved.filter(|u: UnresolvedRef| !keyed(v0.nodes, key, u.from.index())),
    ensures
        forall|n: usize| #[trigger] v1.nodes.contains_key(n) ==> v1.nodes[n].key_view() != key,
        forall|a: usize, b: usize, k: RefKind|
            #[trigger] out_list(v1.edges, a).contains((b, k)) ==> !keyed(v0.nodes, key, a) && !keyed(v0.nodes, key, b),
        forall|i: int| 0 <= i < v1.unresolved.len() ==> !keyed(v0.nodes, key, (#[trigger] v1.unresolved[i]).from.index()),
{
    let pe = |e: (usize, usize, RefKind)| !keyed(v0.nodes, key, e.0) && !keyed(v0.nodes, key, e.1);
    let pu = |u: UnresolvedRef| !keyed(v0.nodes, key, u.from.index());
    assert forall|a: usize, b: usize, k: RefKind| #[trigger] out_list(v1.edges, a).contains((b, k)) implies !keyed(v0.nodes, key, a)
        && !keyed(v0.nodes, key, b) by {
        lemma_edge_lists(v1.edges, a, b, k);
        let i = choose|i: int| 0 <= i < v1.edges.len() && v1.edges[i] == (a, b, k);
        v0.edges.lemma_filter_pred(pe, i);
    }
    assert forall|i: int| 0 <= i < v1.unresolved.len() implies !keyed(v0.nodes, key, (#[trigger] v1.unresolved[i]).from.index()) by {
        v0.unresolved.lemma_filter_pred(pu, i);
    }
}

} // verus!
