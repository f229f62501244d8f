//! The connection graph: symbols (documents and headings) and the references
//! between them, with the references whose targets could not be resolved.

use petgraph::stable_graph::StableGraph;
use vstd::prelude::*;

use crate::text::str_eq;

use super::store::{
    edge_rel, graph_add_edge, graph_add_node, graph_contains, graph_dfs, graph_edge_count,
    graph_edge_total, graph_in_edges, graph_is_cyclic, graph_links, graph_new, graph_node_count,
    graph_nodes, graph_out_edges, graph_remove_node, graph_toposort, has_cycle, has_edge, in_list,
    incident_count, link_rel, linked, out_list, reachable, ref_blocks, topological, unlinked, untouched,
    away_from, RefKind,
    SymbolData,
};

verus! {

broadcast use vstd::seq_lib::group_seq_properties;

/// Opaque handle to a symbol in the connection graph.
#[derive(Debug, Clone, Copy, PartialEq, Eq, Hash, Structural)]
pub struct SymbolId(pub(crate) usize);

impl SymbolId {
    /// The index of the symbol's node.
    pub closed spec fn index(self) -> usize {
        self.0
    }
}

/// A reference whose target symbol is not in the graph.
#[derive(Debug)]
pub struct UnresolvedRef {
    /// The symbol that contains the reference.
    pub from: SymbolId,
    /// The target string that could not be resolved.
    pub target: String,
    /// The kind of reference.
    pub kind: RefKind,
}

/// Mathematical model of a connection graph.
pub ghost struct GraphView {
    /// The symbols, by index.
    pub nodes: Map<usize, SymbolData>,
    /// The references as (source, target, kind), in the order they were added.
    pub edges: Seq<(usize, usize, RefKind)>,
    /// The unresolved references, in the order they were recorded.
    pub unresolved: Seq<UnresolvedRef>,
}

/// A directed graph of symbols and their references. Symbols are filed by
/// key (their document's URI), so that all symbols of a document can be
/// removed together.
pub struct ConnectionGraph {
    graph: StableGraph<SymbolData, RefKind>,
    key_to_nodes: Vec<(String, Vec<usize>)>,
    unresolved: Vec<UnresolvedRef>,
    /// The live references in the order they were added.
    history: Ghost<Seq<(usize, usize, RefKind)>>,
}

impl View for ConnectionGraph {
    type V = GraphView;

    closed spec fn view(&self) -> GraphView {
        GraphView { nodes: graph_nodes(self.graph), edges: self.history@, unresolved: self.unresolved@ }
    }
}

/// The invariant of a graph view: finitely many nodes, each with an index
/// below `u32::MAX`, and edges between nodes only.
pub open spec fn graph_wf(v: GraphView) -> bool {
    &&& v.nodes.dom().finite()
    &&& forall|n: usize| #[trigger] v.nodes.contains_key(n) ==> n < 4294967295
    &&& forall|i: int|
        0 <= i < v.edges.len() ==> v.nodes.contains_key((#[trigger] v.edges[i]).0) && v.nodes.contains_key(v.edges[i].1)
}

/// The key index files every node under its key, once, and nothing else.
pub open spec fn keys_ok(keys: Seq<(String, Vec<usize>)>, nodes: Map<usize, SymbolData>) -> bool {
    &&& forall|a: int, b: int| 0 <= a < b < keys.len() ==> (#[trigger] keys[a]).0@ != (#[trigger] keys[b]).0@
    &&& forall|a: int| 0 <= a < keys.len() ==> (#[trigger] keys[a]).1@.no_duplicates()
    &&& forall|a: int, j: int|
        0 <= a < keys.len() && 0 <= j < keys[a].1@.len() ==> nodes.contains_key(#[trigger] keys[a].1@[j])
            && nodes[keys[a].1@[j]].key_view() == keys[a].0@
    &&& forall|n: usize|
        #[trigger] nodes.contains_key(n) ==> exists|a: int|
            0 <= a < keys.len() && (#[trigger] keys[a]).0@ == nodes[n].key_view() && keys[a].1@.contains(n)
}

/// The nodes of `nodes` whose key is not `k`.
pub open spec fn nodes_without_key(nodes: Map<usize, SymbolData>, k: Seq<char>) -> Map<usize, SymbolData> {
    Map::new(|n: usize| nodes.contains_key(n) && nodes[n].key_view() != k, |n: usize| nodes[n])
}

/// Whether node `n` is one of `nodes` filed under key `k`.
pub open spec fn keyed(nodes: Map<usize, SymbolData>, k: Seq<char>, n: usize) -> bool {
    nodes.contains_key(n) && nodes[n].key_view() == k
}

/// The edge lists the graph holds for each node agree with the references in
/// the order they were added: a node's outgoing and incoming lists, most
/// recent first.
pub open spec fn links_ok(
    nodes: Map<usize, SymbolData>,
    l: Map<usize, (Seq<(usize, RefKind)>, Seq<(usize, RefKind)>)>,
    h: Seq<(usize, usize, RefKind)>,
) -> bool {
    &&& forall|n: usize| #[trigger] l.contains_key(n) <==> nodes.contains_key(n)
    &&& forall|n: usize| #[trigger] nodes.contains_key(n) ==> l[n] == (out_list(h, n), in_list(h, n))
}

/// The lists after one more reference.
proof fn lemma_lists_push(h: Seq<(usize, usize, RefKind)>, e: (usize, usize, RefKind), n: usize)
    ensures
        out_list(h.push(e), n) == (if e.0 == n { seq![(e.1, e.2)] + out_list(h, n) } else { out_list(h, n) }),
        in_list(h.push(e), n) == (if e.1 == n { seq![(e.0, e.2)] + in_list(h, n) } else { in_list(h, n) }),
{
    assert(h.push(e).drop_last() =~= h);
}

/// A node no reference touches has empty lists.
proof fn lemma_lists_absent(h: Seq<(usize, usize, RefKind)>, n: usize)
    requires
        forall|i: int| 0 <= i < h.len() ==> (#[trigger] h[i]).0 != n && h[i].1 != n,
    ensures
        out_list(h, n) == Seq::<(usize, RefKind)>::empty(),
        in_list(h, n) == Seq::<(usize, RefKind)>::empty(),
    decreases h.len(),
{
    if h.len() > 0 {
        assert forall|i: int| 0 <= i < h.drop_last().len() implies (#[trigger] h.drop_last()[i]).0 != n && h.drop_last()[i].1 != n by {
            assert(h.drop_last()[i] == h[i]);
        }
        lemma_lists_absent(h.drop_last(), n);
        assert(h[h.len() - 1] == h.last());
    }
}

/// Dropping the references that touch `id` drops, from the lists of any
/// other node, the entries whose other end is `id`.
proof fn lemma_lists_filter(h: Seq<(usize, usize, RefKind)>, id: usize, n: usize)
    requires
        n != id,
    ensures
        out_list(h.filter(untouched(id)), n) == out_list(h, n).filter(away_from(id)),
        in_list(h.filter(untouched(id)), n) == in_list(h, n).filter(away_from(id)),
    decreases h.len(),
{
    let p = untouched(id);
    let q = away_from(id);
    if h.len() == 0 {
        reveal(Seq::filter);
        assert(h.filter(p) =~= Seq::<(usize, usize, RefKind)>::empty());
        assert(Seq::<(usize, RefKind)>::empty().filter(q) =~= Seq::<(usize, RefKind)>::empty());
    } else {
        let t = h.drop_last();
        let e = h.last();
        assert(t.push(e) =~= h);
        lemma_lists_filter(t, id, n);
        t.lemma_filter_push(e, p);
        lemma_lists_push(t, e, n);
        if p(e) {
            lemma_lists_push(t.filter(p), e, n);
        }
        let x = (e.1, e.2);
        let y = (e.0, e.2);
        Seq::filter_distributes_over_add(seq![x], out_list(t, n), q);
        Seq::filter_distributes_over_add(seq![y], in_list(t, n), q);
        reveal(Seq::filter);
        assert(seq![x].drop_last() =~= Seq::<(usize, RefKind)>::empty());
        assert(seq![y].drop_last() =~= Seq::<(usize, RefKind)>::empty());
        assert(Seq::<(usize, RefKind)>::empty().filter(q) =~= Seq::<(usize, RefKind)>::empty());
        if q(x) {
            assert(seq![x].filter(q) =~= seq![x]);
        } else {
            assert(seq![x].filter(q) =~= Seq::<(usize, RefKind)>::empty());
            assert(Seq::<(usize, RefKind)>::empty() + out_list(t, n).filter(q) =~= out_list(t, n).filter(q));
        }
        if q(y) {
            assert(seq![y].filter(q) =~= seq![y]);
        } else {
            assert(seq![y].filter(q) =~= Seq::<(usize, RefKind)>::empty());
            assert(Seq::<(usize, RefKind)>::empty() + in_list(t, n).filter(q) =~= in_list(t, n).filter(q));
        }
    }
}

/// Dropping the references that touch `id` drops as many as its lists
/// count: its outgoing ones and its incoming ones from other nodes.
proof fn lemma_filter_count(h: Seq<(usize, usize, RefKind)>, id: usize)
    ensures
        h.filter(untouched(id)).len() + out_list(h, id).len() + in_list(h, id).filter(away_from(id)).len() == h.len(),
    decreases h.len(),
{
    let p = untouched(id);
    let q = away_from(id);
    if h.len() == 0 {
        reveal(Seq::filter);
        assert(h.filter(p) =~= Seq::<(usize, usize, RefKind)>::empty());
        assert(Seq::<(usize, RefKind)>::empty().filter(q) =~= Seq::<(usize, RefKind)>::empty());
    } else {
        let t = h.drop_last();
        let e = h.last();
        assert(t.push(e) =~= h);
        lemma_filter_count(t, id);
        t.lemma_filter_len_push(p, e);
        lemma_lists_push(t, e, id);
        let y = (e.0, e.2);
        Seq::filter_distributes_over_add(seq![y], in_list(t, id), q);
        reveal(Seq::filter);
        assert(seq![y].drop_last() =~= Seq::<(usize, RefKind)>::empty());
        assert(Seq::<(usize, RefKind)>::empty().filter(q) =~= Seq::<(usize, RefKind)>::empty());
        if q(y) {
            assert(seq![y].filter(q) =~= seq![y]);
        } else {
            assert(seq![y].filter(q) =~= Seq::<(usize, RefKind)>::empty());
            assert(Seq::<(usize, RefKind)>::empty() + in_list(t, id).filter(q) =~= in_list(t, id).filter(q));
        }
    }
}

/// The edge relation of the graph's lists is that of the references.
proof fn lemma_rel_eq(
    nodes: Map<usize, SymbolData>,
    l: Map<usize, (Seq<(usize, RefKind)>, Seq<(usize, RefKind)>)>,
    h: Seq<(usize, usize, RefKind)>,
)
    requires
        links_ok(nodes, l, h),
        forall|i: int| 0 <= i < h.len() ==> nodes.contains_key((#[trigger] h[i]).0) && nodes.contains_key(h[i].1),
    ensures
        link_rel(l) == edge_rel(h),
{
    assert forall|a: usize, b: usize| #[trigger] link_rel(l)(a, b) == edge_rel(h)(a, b) by {
        if link_rel(l)(a, b) {
            let k = choose|k: RefKind| #[trigger] l[a].0.contains((b, k));
            lemma_edge_lists(h, a, b, k);
            let i = choose|i: int| 0 <= i < h.len() && h[i] == (a, b, k);
            assert(has_edge(h, a, b));
        }
        if has_edge(h, a, b) {
            let i = choose|i: int| 0 <= i < h.len() && (#[trigger] h[i]).0 == a && h[i].1 == b;
            let k = h[i].2;
            assert(h[i] == (a, b, k));
            lemma_edge_lists(h, a, b, k);
            assert(nodes.contains_key(a));
            assert(l[a].0.contains((b, k)));
        }
    }
    assert(link_rel(l) =~= edge_rel(h));
}

impl ConnectionGraph {
    /// The invariant of the graph, which every operation keeps.
    pub closed spec fn wf(&self) -> bool {
        &&& graph_wf(self@)
        &&& keys_ok(self.key_to_nodes@, graph_nodes(self.graph))
        &&& links_ok(graph_nodes(self.graph), graph_links(self.graph), self.history@)
        &&& graph_edge_total(self.graph) == self.history@.len()
    }

    /// Create an empty connection graph.
    pub fn new() -> (r: Self)
        ensures
            r.wf(),
            r@.nodes.dom() == Set::<usize>::empty(),
            r@.edges.len() == 0,
            r@.unresolved.len() == 0,
    {
        let r = ConnectionGraph {
            graph: graph_new(),
            key_to_nodes: Vec::new(),
            unresolved: Vec::new(),
            history: Ghost(Seq::empty()),
        };
        proof {
            assert forall|n: usize| #[trigger] graph_links(r.graph).contains_key(n) <==> graph_nodes(r.graph).contains_key(n) by {
                assert(!graph_links(r.graph).dom().contains(n));
                assert(!graph_nodes(r.graph).dom().contains(n));
            }
            assert(graph_nodes(r.graph).dom() =~= Set::<usize>::empty());
            assert forall|n: usize| #[trigger] graph_nodes(r.graph).contains_key(n) implies false by {
                assert(graph_nodes(r.graph).dom().contains(n));
            }
        }
        r
    }

    /// Whether a symbol's node is in the graph.
    fn has_node(&self, id: SymbolId) -> (r: bool)
        requires
            self.wf(),
        ensures
            r == self@.nodes.contains_key(id.0),
    {
        id.0 < 4294967295 && graph_contains(&self.graph, id.0)
    }

    /// Position of key `k` in the key index.
    fn key_position(&self, k: &str) -> (r: Option<usize>)
        ensures
            match r {
                Some(a) => a < self.key_to_nodes@.len() && self.key_to_nodes@[a as int].0@ == k@,
                None => forall|a: int| 0 <= a < self.key_to_nodes@.len() ==> (#[trigger] self.key_to_nodes@[a]).0@ != k@,
            },
    {
        let mut a: usize = 0;
        while a < self.key_to_nodes.len()
            invariant
                a <= self.key_to_nodes@.len(),
                forall|b: int| 0 <= b < a ==> (#[trigger] self.key_to_nodes@[b]).0@ != k@,
            decreases self.key_to_nodes@.len() - a,
        {
            if str_eq(self.key_to_nodes[a].0.as_str(), k) {
                return Some(a);
            }
            a = a + 1;
        }
        None
    }

    /// Add a node and return its handle.
    pub fn add_node(&mut self, data: SymbolData) -> (id: SymbolId)
        requires
            old(self).wf(),
            old(self)@.nodes.dom().len() < 4294967295,
        ensures
            final(self).wf(),
            !old(self)@.nodes.contains_key(id.index()),
            final(self)@.nodes == old(self)@.nodes.insert(id.index(), data),
            final(self)@.edges == old(self)@.edges,
            final(self)@.unresolved == old(self)@.unresolved,
    {
        let ghost nodes0 = graph_nodes(self.graph);
        let ghost edges0 = self.history@;
        let ghost links0 = graph_links(self.graph);
        let ghost keys0 = self.key_to_nodes@;
        let ghost kv = data.key_view();
        assert(graph_wf(old(self)@));
        assert(old(self)@.edges == edges0);
        assert(old(self)@.nodes == nodes0);
        let key = data.key();
        let idx = graph_add_node(&mut self.graph, data);
        let ghost nodes1 = graph_nodes(self.graph);
        proof {
            // The new index is no node's, so no list holds it.
            assert forall|a: int| 0 <= a < keys0.len() implies !(#[trigger] keys0[a]).1@.contains(idx) by {
                if keys0[a].1@.contains(idx) {
                    let j = choose|j: int| 0 <= j < keys0[a].1@.len() && keys0[a].1@[j] == idx;
                    assert(nodes0.contains_key(keys0[a].1@[j]));
                }
            }
        }
        match self.key_position(key.as_str()) {
            Some(a) => {
                let mut entry = self.key_to_nodes.remove(a);
                let ghost before = entry.1@;
                entry.1.push(idx);
                self.key_to_nodes.push(entry);
                proof {
                    let keys = self.key_to_nodes@;
                    let rest = keys0.remove(a as int);
                    assert(keys =~= rest.push(keys[keys.len() - 1]));
                    assert(keys[keys.len() - 1].1@ == before.push(idx));
                    assert(keys[keys.len() - 1].0@ == kv);
                    assert forall|b: int| 0 <= b < keys.len() - 1 implies #[trigger] keys[b] == keys0[if b < a { b } else { b + 1 }] by {}
                    assert(keys_ok(keys, nodes1)) by {
                        assert forall|b: int, c: int| 0 <= b < c < keys.len() implies (#[trigger] keys[b]).0@ != (#[trigger] keys[c]).0@ by {
                            let b0 = if b < a { b } else { b + 1 };
                            if c == keys.len() - 1 {
                                assert(keys0[b0].0@ != keys0[a as int].0@) by {
                                    if b0 < a { } else { }
                                }
                            } else {
                                let c0 = if c < a { c } else { c + 1 };
                                assert(keys0[b0].0@ != keys0[c0].0@);
                            }
                        }
                        assert forall|b: int| 0 <= b < keys.len() implies (#[trigger] keys[b]).1@.no_duplicates() by {
                            if b == keys.len() - 1 {
                                assert(keys0[a as int].1@.no_duplicates());
                                assert(!keys0[a as int].1@.contains(idx));
                            }
                        }
                        assert forall|b: int, j: int| 0 <= b < keys.len() && 0 <= j < keys[b].1@.len() implies nodes1.contains_key(#[trigger] keys[b].1@[j])
                            && nodes1[keys[b].1@[j]].key_view() == keys[b].0@ by {
                            if b == keys.len() - 1 {
                                if j < before.len() {
                                    assert(keys[b].1@[j] == keys0[a as int].1@[j]);
                                }
                            } else {
                                let b0 = if b < a { b } else { b + 1 };
                                assert(keys[b].1@[j] == keys0[b0].1@[j]);
                            }
                        }
                        assert forall|n: usize| #[trigger] nodes1.contains_key(n) implies exists|b: int|
                            0 <= b < keys.len() && (#[trigger] keys[b]).0@ == nodes1[n].key_view() && keys[b].1@.contains(n) by {
                            if n == idx {
                                assert(keys[keys.len() - 1].1@[before.len() as int] == idx);
                            } else {
                                assert(nodes0.contains_key(n));
                                let b0 = choose|b0: int| 0 <= b0 < keys0.len() && (#[trigger] keys0[b0]).0@ == nodes0[n].key_view() && keys0[b0].1@.contains(n);
                                if b0 == a {
                                    let j = choose|j: int| 0 <= j < before.len() && before[j] == n;
                                    assert(keys[keys.len() - 1].1@[j] == n);
                                } else {
                                    let b = if b0 < a { b0 } else { b0 - 1 };
                                    assert(keys[b] == keys0[b0]);
                                }
                            }
                        }
                    }
                }
            },
            None => {
                let mut ids: Vec<usize> = Vec::new();
                ids.push(idx);
                self.key_to_nodes.push((key, ids));
                proof {
                    let keys = self.key_to_nodes@;
                    assert(keys == keys0.push(keys[keys.len() - 1]));
                    assert(keys[keys.len() - 1].1@ == seq![idx]);
                    assert(keys_ok(keys, nodes1)) by {
                        assert forall|b: int, j: int| 0 <= b < keys.len() && 0 <= j < keys[b].1@.len() implies nodes1.contains_key(#[trigger] keys[b].1@[j])
                            && nodes1[keys[b].1@[j]].key_view() == keys[b].0@ by {
                            if b < keys.len() - 1 {
                                assert(keys[b] == keys0[b]);
                            }
                        }
                        assert forall|n: usize| #[trigger] nodes1.contains_key(n) implies exists|b: int|
                            0 <= b < keys.len() && (#[trigger] keys[b]).0@ == nodes1[n].key_view() && keys[b].1@.contains(n) by {
                            if n == idx {
                                assert(keys[keys.len() - 1].1@[0] == idx);
                            } else {
                                let b0 = choose|b0: int| 0 <= b0 < keys0.len() && (#[trigger] keys0[b0]).0@ == nodes0[n].key_view() && keys0[b0].1@.contains(n);
                                assert(keys[b0] == keys0[b0]);
                            }
                        }
                    }
                }
            },
        }
        proof {
            assert(graph_wf(self@)) by {
                assert(nodes1.dom() =~= nodes0.dom().insert(idx));
                assert forall|n: usize| #[trigger] nodes1.contains_key(n) implies n < 4294967295 by {
                    if n != idx {
                        assert(nodes0.contains_key(n));
                    }
                }
                let e = self.history@;
                assert forall|i: int| 0 <= i < e.len() implies nodes1.contains_key((#[trigger] e[i]).0) && nodes1.contains_key(e[i].1) by {
                    assert(e[i] == edges0[i]);
                    assert(nodes0.contains_key(edges0[i].0) && nodes0.contains_key(edges0[i].1));
                }
            }
            // The new node has no reference yet.
            assert forall|i: int| 0 <= i < edges0.len() implies (#[trigger] edges0[i]).0 != idx && edges0[i].1 != idx by {
                assert(nodes0.contains_key(edges0[i].0) && nodes0.contains_key(edges0[i].1));
            }
            lemma_lists_absent(edges0, idx);
            let l1 = graph_links(self.graph);
            assert forall|n: usize| #[trigger] l1.contains_key(n) <==> nodes1.contains_key(n) by {
                if n != idx {
                    assert(l1.contains_key(n) == links0.contains_key(n));
                }
            }
            assert forall|n: usize| #[trigger] nodes1.contains_key(n) implies l1[n] == (out_list(edges0, n), in_list(edges0, n)) by {
                if n != idx {
                    assert(nodes0.contains_key(n));
                }
            }
        }
        SymbolId(idx)
    }

    /// The edge relation of the stored graph is that of the references.
    proof fn lemma_rel(&self)
        requires
            self.wf(),
        ensures
            link_rel(graph_links(self.graph)) == edge_rel(self@.edges),
    {
        let h = self.history@;
        let nodes = graph_nodes(self.graph);
        assert(graph_wf(self@));
        assert(self@.edges == h && self@.nodes == nodes);
        assert forall|i: int| 0 <= i < h.len() implies nodes.contains_key((#[trigger] h[i]).0) && nodes.contains_key(h[i].1) by {
            assert(self@.edges[i] == h[i]);
        }
        lemma_rel_eq(nodes, graph_links(self.graph), h);
    }

    /// Total number of nodes in the graph.
    pub fn node_count(&self) -> (n: usize)
        ensures
            n == self@.nodes.dom().len(),
    {
        graph_node_count(&self.graph)
    }

    /// Total number of edges in the graph.
    pub fn edge_count(&self) -> (n: usize)
        requires
            self.wf(),
        ensures
            n == self@.edges.len(),
    {
        graph_edge_count(&self.graph)
    }
}

/// The edges after recording a reference from `a` to `b` of kind `k`: it
/// joins them when both nodes are in the graph and no edge of that kind goes
/// from `a` to `b` yet.
pub open spec fn with_reference(v: GraphView, a: usize, b: usize, k: RefKind) -> Seq<(usize, usize, RefKind)> {
    if v.nodes.contains_key(a) && v.nodes.contains_key(b) && !v.edges.contains((a, b, k)) {
        v.edges.push((a, b, k))
    } else {
        v.edges
    }
}

/// The indices of a sequence of symbols.
pub open spec fn indices(s: Seq<SymbolId>) -> Seq<usize> {
    s.map_values(|x: SymbolId| x.index())
}

/// The references of a sequence of (index, kind) pairs.
pub open spec fn index_pairs(s: Seq<(SymbolId, RefKind)>) -> Seq<(usize, RefKind)> {
    s.map_values(|x: (SymbolId, RefKind)| (x.0.index(), x.1))
}

/// The outgoing list of `a` holds (b, k) exactly when an edge of kind `k`
/// goes from `a` to `b`; the incoming list of `b` holds (a, k) in that case too.
pub proof fn lemma_edge_lists(edges: Seq<(usize, usize, RefKind)>, a: usize, b: usize, k: RefKind)
    ensures
        out_list(edges, a).contains((b, k)) <==> edges.contains((a, b, k)),
        in_list(edges, b).contains((a, k)) <==> edges.contains((a, b, k)),
    decreases edges.len(),
{
    if edges.len() > 0 {
        let p = edges.drop_last();
        lemma_edge_lists(p, a, b, k);
        assert(edges =~= p.push(edges.last()));
        if edges.contains((a, b, k)) && !p.contains((a, b, k)) {
            let i = choose|i: int| 0 <= i < edges.len() && edges[i] == (a, b, k);
            if i < edges.len() - 1 {
                assert(p[i] == (a, b, k));
            }
            assert(edges.last() == (a, b, k));
        }
        if p.contains((a, b, k)) {
            let i = choose|i: int| 0 <= i < p.len() && p[i] == (a, b, k);
            assert(edges[i] == (a, b, k));
        }
        let o = out_list(p, a);
        if edges.last().0 == a {
            let q = seq![(edges.last().1, edges.last().2)];
            assert(out_list(edges, a) == q + o);
            assert(q + o =~= o.insert(0, q[0]));
            if o.contains((b, k)) {
                let j = choose|j: int| 0 <= j < o.len() && o[j] == (b, k);
                assert((q + o)[j + 1] == (b, k));
            }
            if (q + o).contains((b, k)) {
                let j = choose|j: int| 0 <= j < (q + o).len() && (q + o)[j] == (b, k);
                if j > 0 {
                    assert(o[j - 1] == (b, k));
                }
            }
            if edges.last() == (a, b, k) {
                assert((q + o)[0] == (b, k));
            }
        }
        let n = in_list(p, b);
        if edges.last().1 == b {
            let q = seq![(edges.last().0, edges.last().2)];
            assert(in_list(edges, b) == q + n);
            if n.contains((a, k)) {
                let j = choose|j: int| 0 <= j < n.len() && n[j] == (a, k);
                assert((q + n)[j + 1] == (a, k));
            }
            if (q + n).contains((a, k)) {
                let j = choose|j: int| 0 <= j < (q + n).len() && (q + n)[j] == (a, k);
                if j > 0 {
                    assert(n[j - 1] == (a, k));
                }
            }
            if edges.last() == (a, b, k) {
                assert((q + n)[0] == (a, k));
            }
        }
    }
}

/// Filtering twice is filtering once by both predicates.
proof fn lemma_filter_twice<A>(s: Seq<A>, p: spec_fn(A) -> bool, q: spec_fn(A) -> bool, r: spec_fn(A) -> bool)
    requires
        forall|x: A| #[trigger] r(x) == (p(x) && q(x)),
    ensures
        s.filter(p).filter(q) == s.filter(r),
    decreases s.len(),
{
    reveal(Seq::filter);
    if s.len() > 0 {
        lemma_filter_twice(s.drop_last(), p, q, r);
        let x = s.last();
        assert(r(x) == (p(x) && q(x)));
        if p(x) {
            assert(s.filter(p) == s.drop_last().filter(p).push(x));
            assert(s.filter(p).drop_last() =~= s.drop_last().filter(p));
            assert(s.filter(p).last() == x);
        }
    }
}

/// What a filter keeps: the elements that pass, without duplicates when the
/// sequence has none.
proof fn lemma_filter_facts<A>(s: Seq<A>, p: spec_fn(A) -> bool)
    ensures
        s.no_duplicates() ==> s.filter(p).no_duplicates(),
        forall|x: A| #[trigger] s.filter(p).contains(x) <==> s.contains(x) && p(x),
    decreases s.len(),
{
    reveal(Seq::filter);
    if s.len() > 0 {
        let q = s.drop_last();
        lemma_filter_facts(q, p);
        let x = s.last();
        assert(s =~= q.push(x));
        assert forall|y: A| #[trigger] s.filter(p).contains(y) <==> s.contains(y) && p(y) by {
            if s.contains(y) && y != x {
                let j = choose|j: int| 0 <= j < s.len() && s[j] == y;
                assert(q[j] == y);
            }
            if q.contains(y) {
                let j = choose|j: int| 0 <= j < q.len() && q[j] == y;
                assert(s[j] == y);
            }
            if p(x) {
                assert(s.filter(p) == q.filter(p).push(x));
                if s.filter(p).contains(y) && y != x {
                    let j = choose|j: int| 0 <= j < s.filter(p).len() && s.filter(p)[j] == y;
                    assert(q.filter(p)[j] == y);
                }
                if q.filter(p).contains(y) {
                    let j = choose|j: int| 0 <= j < q.filter(p).len() && q.filter(p)[j] == y;
                    assert(s.filter(p)[j] == y);
                }
                if y == x {
                    assert(s.filter(p)[q.filter(p).len() as int] == x);
                }
            }
        }
        if s.no_duplicates() && p(x) {
            assert(!q.contains(x)) by {
                if q.contains(x) {
                    let j = choose|j: int| 0 <= j < q.len() && q[j] == x;
                    assert(s[j] == s[s.len() - 1]);
                }
            }
            assert(!q.filter(p).contains(x));
        }
    }
}

/// Filtering by equal predicates gives equal sequences.
proof fn lemma_filter_same<A>(s: Seq<A>, p: spec_fn(A) -> bool, q: spec_fn(A) -> bool)
    requires
        forall|x: A| #[trigger] p(x) == q(x),
    ensures
        s.filter(p) == s.filter(q),
{
    assert(p =~= q);
}

impl ConnectionGraph {
    /// Record a reference from one symbol to another. Nothing changes when
    /// either symbol is not in the graph, or when a reference of that kind
    /// already goes from the one to the other.
    pub fn add_reference(&mut self, from: SymbolId, to: SymbolId, kind: RefKind)
        requires
            old(self).wf(),
            with_reference(old(self)@, from.index(), to.index(), kind) != old(self)@.edges ==> old(self)@.edges.len()
                < 4294967295,
        ensures
            final(self).wf(),
            final(self)@.nodes == old(self)@.nodes,
            final(self)@.unresolved == old(self)@.unresolved,
            final(self)@.edges == with_reference(old(self)@, from.index(), to.index(), kind),
    {
        if !self.has_node(from) || !self.has_node(to) {
            return;
        }
        let ghost edges0 = self.history@;
        let ghost nodes0 = graph_nodes(self.graph);
        let ghost links0 = graph_links(self.graph);
        let outs = graph_out_edges(&self.graph, from.0);
        let mut dup = false;
        let mut i: usize = 0;
        while i < outs.len()
            invariant
                i <= outs@.len(),
                dup == outs@.subrange(0, i as int).contains((to.0, kind)),
            decreases outs@.len() - i,
        {
            assert(outs@.subrange(0, i + 1) =~= outs@.subrange(0, i as int).push(outs@[i as int]));
            if outs[i].0 == to.0 && outs[i].1 == kind {
                dup = true;
            }
            i = i + 1;
        }
        assert(outs@.subrange(0, outs@.len() as int) =~= outs@);
        proof {
            lemma_edge_lists(edges0, from.0, to.0, kind);
        }
        if !dup {
            graph_add_edge(&mut self.graph, from.0, to.0, kind);
            self.history = Ghost(edges0.push((from.0, to.0, kind)));
            proof {
                let e = self.history@;
                assert forall|j: int| 0 <= j < e.len() implies nodes0.contains_key((#[trigger] e[j]).0) && nodes0.contains_key(e[j].1) by {
                    if j < edges0.len() {
                        assert(e[j] == edges0[j]);
                    }
                }
                let l1 = graph_links(self.graph);
                assert(l1 == linked(links0, from.0, to.0, kind));
                assert forall|n: usize| #[trigger] l1.contains_key(n) <==> nodes0.contains_key(n) by {}
                assert forall|n: usize| #[trigger] nodes0.contains_key(n) implies l1[n] == (out_list(e, n), in_list(e, n)) by {
                    lemma_lists_push(edges0, (from.0, to.0, kind), n);
                }
            }
        }
    }

    /// All outgoing references of a symbol, the most recently added first.
    pub fn references(&self, symbol: SymbolId) -> (r: Vec<(SymbolId, RefKind)>)
        requires
            self.wf(),
        ensures
            index_pairs(r@) == (if self@.nodes.contains_key(symbol.index()) {
                out_list(self@.edges, symbol.index())
            } else {
                Seq::empty()
            }),
    {
        if !self.has_node(symbol) {
            let r: Vec<(SymbolId, RefKind)> = Vec::new();
            assert(index_pairs(r@) =~= Seq::<(usize, RefKind)>::empty());
            return r;
        }
        let edges = graph_out_edges(&self.graph, symbol.0);
        pairs_as_symbols(&edges)
    }

    /// All incoming references (back-references) of a symbol, the most
    /// recently added first.
    pub fn backrefs(&self, symbol: SymbolId) -> (r: Vec<(SymbolId, RefKind)>)
        requires
            self.wf(),
        ensures
            index_pairs(r@) == (if self@.nodes.contains_key(symbol.index()) {
                in_list(self@.edges, symbol.index())
            } else {
                Seq::empty()
            }),
    {
        if !self.has_node(symbol) {
            let r: Vec<(SymbolId, RefKind)> = Vec::new();
            assert(index_pairs(r@) =~= Seq::<(usize, RefKind)>::empty());
            return r;
        }
        let edges = graph_in_edges(&self.graph, symbol.0);
        pairs_as_symbols(&edges)
    }

    /// Record an unresolved reference.
    pub fn add_unresolved(&mut self, from: SymbolId, target: &str, kind: RefKind)
        requires
            old(self).wf(),
        ensures
            final(self).wf(),
            final(self)@.nodes == old(self)@.nodes,
            final(self)@.edges == old(self)@.edges,
            final(self)@.unresolved.len() == old(self)@.unresolved.len() + 1,
            final(self)@.unresolved.drop_last() == old(self)@.unresolved,
            final(self)@.unresolved.last().from == from,
            final(self)@.unresolved.last().target@ == target@,
            final(self)@.unresolved.last().kind == kind,
    {
        assert(graph_wf(old(self)@));
        self.unresolved.push(UnresolvedRef { from, target: target.to_owned(), kind });
        assert(self.unresolved@.drop_last() =~= old(self).unresolved@);
        assert(self@.nodes == old(self)@.nodes && self@.edges == old(self)@.edges);
    }

    /// The references whose targets could not be resolved.
    pub fn unresolved_references(&self) -> (r: &[UnresolvedRef])
        ensures
            r@ == self@.unresolved,
    {
        self.unresolved.as_slice()
    }

    /// Whether the graph has a cycle.
    pub fn has_cycle(&self) -> (r: bool)
        requires
            self.wf(),
        ensures
            r == has_cycle(edge_rel(self@.edges)),
    {
        proof {
            self.lemma_rel();
        }
        graph_is_cyclic(&self.graph)
    }

    /// A topological ordering of the symbols when the graph is acyclic,
    /// `None` otherwise.
    pub fn topological_sort(&self) -> (r: Option<Vec<SymbolId>>)
        requires
            self.wf(),
        ensures
            r is Some <==> !has_cycle(edge_rel(self@.edges)),
            r matches Some(order) ==> topological(self@.nodes, edge_rel(self@.edges), indices(order@)),
    {
        proof {
            self.lemma_rel();
        }
        match graph_toposort(&self.graph) {
            Some(order) => Some(as_symbols(&order)),
            None => None,
        }
    }

    /// All symbols reachable from `start` along outgoing references, `start`
    /// itself excluded, each once.
    pub fn reachable_from(&self, start: SymbolId) -> (r: Vec<SymbolId>)
        requires
            self.wf(),
        ensures
            indices(r@).no_duplicates(),
            forall|n: usize|
                #[trigger] indices(r@).contains(n) <==> (self@.nodes.contains_key(start.index()) && n != start.index()
                    && reachable(edge_rel(self@.edges), start.index(), n)),
    {
        proof {
            self.lemma_rel();
        }
        if !self.has_node(start) {
            let r: Vec<SymbolId> = Vec::new();
            assert(indices(r@) =~= Seq::<usize>::empty());
            return r;
        }
        let visited = graph_dfs(&self.graph, start.0);
        let mut out: Vec<SymbolId> = Vec::new();
        let mut i: usize = 0;
        while i < visited.len()
            invariant
                i <= visited@.len(),
                visited@.no_duplicates(),
                indices(out@) == visited@.subrange(0, i as int).filter(|n: usize| n != start.0),
            decreases visited@.len() - i,
        {
            let ghost before = out@;
            proof {
                reveal(Seq::filter);
            }
            assert(visited@.subrange(0, i + 1).drop_last() =~= visited@.subrange(0, i as int));
            assert(visited@.subrange(0, i + 1).last() == visited@[i as int]);
            if visited[i] != start.0 {
                out.push(SymbolId(visited[i]));
                assert(indices(out@) =~= indices(before).push(visited@[i as int]));
            } else {
                assert(indices(out@) =~= indices(before));
            }
            i = i + 1;
        }
        proof {
            assert(visited@.subrange(0, visited@.len() as int) =~= visited@);
            lemma_filter_facts(visited@, |n: usize| n != start.0);
        }
        out
    }

    /// The symbols with a blocking reference to `node`, in the order of its
    /// back-references; none for a symbol not in the graph. As no kind of
    /// reference between documents blocks, there are none at all.
    pub fn blocking_predecessors(&self, node: SymbolId) -> (r: Vec<SymbolId>)
        requires
            self.wf(),
        ensures
            indices(r@) == (if self@.nodes.contains_key(node.index()) {
                blocking_sources(in_list(self@.edges, node.index()))
            } else {
                Seq::empty()
            }),
            r@ == Seq::<SymbolId>::empty(),
    {
        let mut out: Vec<SymbolId> = Vec::new();
        if !self.has_node(node) {
            assert(indices(out@) =~= Seq::<usize>::empty());
            return out;
        }
        let edges = graph_in_edges(&self.graph, node.0);
        let mut i: usize = 0;
        assert(edges@.subrange(0, 0) =~= Seq::<(usize, RefKind)>::empty());
        while i < edges.len()
            invariant
                i <= edges@.len(),
                indices(out@) == blocking_sources(edges@.subrange(0, i as int)),
                out@ == Seq::<SymbolId>::empty(),
            decreases edges@.len() - i,
        {
            let ghost before = out@;
            assert(edges@.subrange(0, i + 1).drop_last() =~= edges@.subrange(0, i as int));
            assert(edges@.subrange(0, i + 1).last() == edges@[i as int]);
            if edges[i].1.is_blocking() {
                out.push(SymbolId(edges[i].0));
            }
            i = i + 1;
        }
        assert(edges@.subrange(0, edges@.len() as int) =~= edges@);
        out
    }
}

/// The sources of the blocking references among (source, kind) pairs, in order.
pub open spec fn blocking_sources(ins: Seq<(usize, RefKind)>) -> Seq<usize>
    decreases ins.len(),
{
    if ins.len() == 0 {
        Seq::empty()
    } else if ref_blocks(ins.last().1) {
        blocking_sources(ins.drop_last()).push(ins.last().0)
    } else {
        blocking_sources(ins.drop_last())
    }
}

/// Symbols of node indices.
fn as_symbols(v: &Vec<usize>) -> (r: Vec<SymbolId>)
    ensures
        indices(r@) == v@,
{
    let mut out: Vec<SymbolId> = Vec::new();
    let mut i: usize = 0;
    while i < v.len()
        invariant
            i <= v@.len(),
            indices(out@) == v@.subrange(0, i as int),
        decreases v@.len() - i,
    {
        let ghost before = out@;
        let x = SymbolId(v[i]);
        assert(x.index() == v@[i as int]);
        out.push(x);
        assert(out@ == before.push(x));
        assert(indices(out@) =~= indices(before).push(v@[i as int]));
        assert(v@.subrange(0, i + 1) =~= v@.subrange(0, i as int).push(v@[i as int]));
        i = i + 1;
    }
    assert(v@.subrange(0, v@.len() as int) =~= v@);
    out
}

/// (Symbol, kind) pairs of (index, kind) pairs.
fn pairs_as_symbols(v: &Vec<(usize, RefKind)>) -> (r: Vec<(SymbolId, RefKind)>)
    ensures
        index_pairs(r@) == v@,
{
    let mut out: Vec<(SymbolId, RefKind)> = Vec::new();
    let mut i: usize = 0;
    while i < v.len()
        invariant
            i <= v@.len(),
            index_pairs(out@) == v@.subrange(0, i as int),
        decreases v@.len() - i,
    {
        let ghost before = out@;
        let x = (SymbolId(v[i].0), v[i].1);
        assert(x.0.index() == v@[i as int].0);
        out.push(x);
        assert(out@ == before.push(x));
        assert(index_pairs(out@) =~= index_pairs(before).push(v@[i as int]));
        assert(v@.subrange(0, i + 1) =~= v@.subrange(0, i as int).push(v@[i as int]));
        i = i + 1;
    }
    assert(v@.subrange(0, v@.len() as int) =~= v@);
    out
}

/// Whether `x` is one of `v`.
fn holds_index(v: &Vec<usize>, x: usize) -> (r: bool)
    ensures
        r == v@.contains(x),
{
    let mut j: usize = 0;
    while j < v.len()
        invariant
            j <= v@.len(),
            !v@.subrange(0, j as int).contains(x),
        decreases v@.len() - j,
    {
        if v[j] == x {
            return true;
        }
        assert(v@.subrange(0, j + 1) =~= v@.subrange(0, j as int).push(v@[j as int]));
        j = j + 1;
    }
    assert(v@.subrange(0, v@.len() as int) =~= v@);
    false
}

/// A filter that every element passes keeps the sequence.
proof fn lemma_filter_keeps_all<A>(s: Seq<A>, p: spec_fn(A) -> bool)
    requires
        forall|i: int| 0 <= i < s.len() ==> #[trigger] p(s[i]),
    ensures
        s.filter(p) == s,
    decreases s.len(),
{
    reveal(Seq::filter);
    if s.len() > 0 {
        assert forall|i: int| 0 <= i < s.drop_last().len() implies #[trigger] p(s.drop_last()[i]) by {
            assert(s.drop_last()[i] == s[i]);
        }
        lemma_filter_keeps_all(s.drop_last(), p);
        assert(p(s[s.len() - 1]));
        assert(s.drop_last().push(s.last()) =~= s);
    }
}

impl ConnectionGraph {
    /// Keep the unresolved references that do not come from one of `ids`.
    fn retain_unresolved(&mut self, ids: &Vec<usize>)
        ensures
            final(self).unresolved@ == old(self).unresolved@.filter(|u: UnresolvedRef| !ids@.contains(u.from.0)),
            final(self).graph == old(self).graph,
            final(self).key_to_nodes == old(self).key_to_nodes,
            final(self).history == old(self).history,
    {
        let ghost all = self.unresolved@;
        let mut rest: Vec<UnresolvedRef> = Vec::new();
        std::mem::swap(&mut rest, &mut self.unresolved);
        let mut items: Vec<UnresolvedRef> = Vec::new();
        while rest.len() > 0
            invariant
                rest@ + items@.reverse() == all,
            decreases rest@.len(),
        {
            let x = rest.pop().unwrap();
            proof {
                assert(items@.push(x).reverse() =~= seq![x] + items@.reverse());
                assert(rest@ + items@.push(x).reverse() =~= all);
            }
            items.push(x);
        }
        assert(items@.reverse() =~= all);
        let mut out: Vec<UnresolvedRef> = Vec::new();
        while items.len() > 0
            invariant
                items@.len() <= all.len(),
                out@ == all.subrange(0, all.len() - items@.len()).filter(|u: UnresolvedRef| !ids@.contains(u.from.0)),
                items@.reverse() == all.subrange(all.len() - items@.len(), all.len() as int),
            decreases items@.len(),
        {
            let ghost k = all.len() - items@.len();
            let ghost before = items@;
            let x = items.pop().unwrap();
            proof {
                reveal(Seq::filter);
                assert(before == items@.push(x));
                assert(before.reverse()[0] == x);
                assert(all.subrange(k, all.len() as int)[0] == all[k]);
                assert(all.subrange(0, k + 1).drop_last() =~= all.subrange(0, k));
                assert(all.subrange(0, k + 1).last() == x);
                assert(items@.push(x).reverse() =~= seq![x] + items@.reverse());
                assert((seq![x] + items@.reverse()).drop_first() =~= items@.reverse());
                assert(all.subrange(k, all.len() as int).drop_first() =~= all.subrange(k + 1, all.len() as int));
                assert(items@.reverse() =~= all.subrange(k + 1, all.len() as int));
            }
            if !holds_index(ids, x.from.0) {
                out.push(x);
            }
        }
        assert(all.subrange(0, all.len() as int) =~= all);
        self.unresolved = out;
    }

    /// Remove all symbols filed under `key`, with their references and the
    /// unresolved references recorded from them. Nothing changes when no
    /// symbol has that key.
    pub fn remove_by_key(&mut self, key: &String)
        requires
            old(self).wf(),
        ensures
            final(self).wf(),
            final(self)@.nodes == nodes_without_key(old(self)@.nodes, key@),
            final(self)@.edges == old(self)@.edges.filter(
                |e: (usize, usize, RefKind)| !keyed(old(self)@.nodes, key@, e.0) && !keyed(old(self)@.nodes, key@, e.1),
            ),
            final(self)@.unresolved == old(self)@.unresolved.filter(
                |u: UnresolvedRef| !keyed(old(self)@.nodes, key@, u.from.index()),
            ),
    {
        let ghost nodes0 = graph_nodes(self.graph);
        let ghost edges0 = self.history@;
        let ghost keys0 = self.key_to_nodes@;
        let ghost un0 = self.unresolved@;
        let ghost k = key@;
        assert(graph_wf(old(self)@));
        assert(old(self)@.nodes == nodes0 && old(self)@.edges == edges0 && old(self)@.unresolved == un0);
        match self.key_position(key.as_str()) {
            None => {
                proof {
                    assert forall|n: usize| !keyed(nodes0, k, n) by {
                        if keyed(nodes0, k, n) {
                            let a = choose|a: int| 0 <= a < keys0.len() && (#[trigger] keys0[a]).0@ == nodes0[n].key_view() && keys0[a].1@.contains(n);
                            assert(keys0[a].0@ != k);
                        }
                    }
                    assert(nodes_without_key(nodes0, k) =~= nodes0);
                    lemma_filter_keeps_all(edges0, |e: (usize, usize, RefKind)| !keyed(nodes0, k, e.0) && !keyed(nodes0, k, e.1));
                    lemma_filter_keeps_all(un0, |u: UnresolvedRef| !keyed(nodes0, k, u.from.index()));
                }
            },
            Some(a) => {
                let entry = self.key_to_nodes.remove(a);
                let ids = entry.1;
                proof {
                    assert(ids@ == keys0[a as int].1@);
                    assert forall|n: usize| #[trigger] ids@.contains(n) <==> keyed(nodes0, k, n) by {
                        if ids@.contains(n) {
                            let j = choose|j: int| 0 <= j < ids@.len() && ids@[j] == n;
                            assert(nodes0.contains_key(keys0[a as int].1@[j]));
                        }
                        if keyed(nodes0, k, n) {
                            let b = choose|b: int| 0 <= b < keys0.len() && (#[trigger] keys0[b]).0@ == nodes0[n].key_view() && keys0[b].1@.contains(n);
                            if b != a {
                                if b < a {
                                    assert(keys0[b].0@ != keys0[a as int].0@);
                                } else {
                                    assert(keys0[a as int].0@ != keys0[b].0@);
                                }
                            }
                        }
                    }
                    assert(Map::new(|n: usize| nodes0.contains_key(n) && !ids@.subrange(0, 0).contains(n), |n: usize| nodes0[n]) =~= nodes0);
                    lemma_filter_keeps_all(edges0, |e: (usize, usize, RefKind)| !ids@.subrange(0, 0).contains(e.0) && !ids@.subrange(0, 0).contains(e.1));
                }
                let mut j: usize = 0;
                while j < ids.len()
                    invariant
                        j <= ids@.len(),
                        ids@.no_duplicates(),
                        forall|n: usize| #[trigger] ids@.contains(n) <==> keyed(nodes0, k, n),
                        forall|n: usize| #[trigger] nodes0.contains_key(n) ==> n < 4294967295,
                        graph_nodes(self.graph).dom().finite(),
                        graph_nodes(self.graph) == Map::new(
                            |n: usize| nodes0.contains_key(n) && !ids@.subrange(0, j as int).contains(n),
                            |n: usize| nodes0[n],
                        ),
                        self.history@ == edges0.filter(
                            |e: (usize, usize, RefKind)| !ids@.subrange(0, j as int).contains(e.0) && !ids@.subrange(0, j as int).contains(e.1),
                        ),
                        links_ok(graph_nodes(self.graph), graph_links(self.graph), self.history@),
                        graph_edge_total(self.graph) == self.history@.len(),
                        self.unresolved@ == un0,
                        self.key_to_nodes@ == keys0.remove(a as int),
                    decreases ids@.len() - j,
                {
                    let id = ids[j];
                    let ghost pre = ids@.subrange(0, j as int);
                    let ghost post = ids@.subrange(0, j + 1);
                    let ghost e_before = self.history@;
                    let ghost l_before = graph_links(self.graph);
                    let ghost n_before = graph_nodes(self.graph);
                    proof {
                        assert(post =~= pre.push(id));
                        assert(ids@.contains(id));
                        assert(!pre.contains(id)) by {
                            if pre.contains(id) {
                                let q = choose|q: int| 0 <= q < pre.len() && pre[q] == id;
                                assert(ids@[q] == ids@[j as int]);
                            }
                        }
                        assert(graph_nodes(self.graph).contains_key(id));
                    }
                    graph_remove_node(&mut self.graph, id);
                    self.history = Ghost(e_before.filter(untouched(id)));
                    proof {
                        // The lists and the count follow the references.
                        let l1 = graph_links(self.graph);
                        let n1 = graph_nodes(self.graph);
                        assert(l1 == unlinked(l_before, id));
                        assert forall|n: usize| #[trigger] l1.contains_key(n) <==> n1.contains_key(n) by {}
                        assert forall|n: usize| #[trigger] n1.contains_key(n) implies l1[n] == (
                            out_list(self.history@, n),
                            in_list(self.history@, n),
                        ) by {
                            lemma_lists_filter(e_before, id, n);
                        }
                        lemma_filter_count(e_before, id);
                        assert(incident_count(l_before, id) == out_list(e_before, id).len() + in_list(e_before, id).filter(away_from(id)).len());
                        assert forall|n: usize| #[trigger] post.contains(n) == (pre.contains(n) || n == id) by {
                            if post.contains(n) && n != id {
                                let q = choose|q: int| 0 <= q < post.len() && post[q] == n;
                                assert(pre[q] == n);
                            }
                            if pre.contains(n) {
                                let q = choose|q: int| 0 <= q < pre.len() && pre[q] == n;
                                assert(post[q] == n);
                            }
                            if n == id {
                                assert(post[j as int] == id);
                            }
                        }
                        assert(graph_nodes(self.graph) =~= Map::new(
                            |n: usize| nodes0.contains_key(n) && !post.contains(n),
                            |n: usize| nodes0[n],
                        ));
                        lemma_filter_twice(
                            edges0,
                            |e: (usize, usize, RefKind)| !pre.contains(e.0) && !pre.contains(e.1),
                            untouched(id),
                            |e: (usize, usize, RefKind)| !post.contains(e.0) && !post.contains(e.1),
                        );
                    }
                    j = j + 1;
                }
                self.retain_unresolved(&ids);
                proof {
                    let full = ids@.subrange(0, ids@.len() as int);
                    assert(full =~= ids@);
                    assert(graph_nodes(self.graph) =~= nodes_without_key(nodes0, k));
                    lemma_filter_same(
                        edges0,
                        |e: (usize, usize, RefKind)| !full.contains(e.0) && !full.contains(e.1),
                        |e: (usize, usize, RefKind)| !keyed(nodes0, k, e.0) && !keyed(nodes0, k, e.1),
                    );
                    lemma_filter_same(
                        un0,
                        |u: UnresolvedRef| !ids@.contains(u.from.0),
                        |u: UnresolvedRef| !keyed(nodes0, k, u.from.index()),
                    );
                    let nodes1 = graph_nodes(self.graph);
                    let edges1 = self.history@;
                    let keys1 = self.key_to_nodes@;
                    let pe = |e: (usize, usize, RefKind)| !keyed(nodes0, k, e.0) && !keyed(nodes0, k, e.1);
                    lemma_filter_facts(edges0, pe);
                    assert forall|i: int| 0 <= i < edges1.len() implies nodes1.contains_key((#[trigger] edges1[i]).0) && nodes1.contains_key(edges1[i].1) by {
                        assert(edges1.contains(edges1[i]));
                        let q = choose|q: int| 0 <= q < edges0.len() && edges0[q] == edges1[i];
                        assert(nodes0.contains_key(edges0[q].0) && nodes0.contains_key(edges0[q].1));
                    }
                    assert forall|b: int| 0 <= b < keys1.len() implies #[trigger] keys1[b] == keys0[if b < a { b } else { b + 1 }] by {}
                    assert(keys_ok(keys1, nodes1)) by {
                        assert forall|b: int, c: int| 0 <= b < c < keys1.len() implies (#[trigger] keys1[b]).0@ != (#[trigger] keys1[c]).0@ by {
                            let b0 = if b < a { b } else { b + 1 };
                            let c0 = if c < a { c } else { c + 1 };
                            assert(keys0[b0].0@ != keys0[c0].0@);
                        }
                        assert forall|b: int| 0 <= b < keys1.len() implies (#[trigger] keys1[b]).1@.no_duplicates() by {
                            let b0 = if b < a { b } else { b + 1 };
                            assert(keys0[b0].1@.no_duplicates());
                        }
                        assert forall|b: int, q: int| 0 <= b < keys1.len() && 0 <= q < keys1[b].1@.len() implies nodes1.contains_key(#[trigger] keys1[b].1@[q])
                            && nodes1[keys1[b].1@[q]].key_view() == keys1[b].0@ by {
                            let b0 = if b < a { b } else { b + 1 };
                            assert(keys1[b].1@[q] == keys0[b0].1@[q]);
                            if b0 < a {
                                assert(keys0[b0].0@ != keys0[a as int].0@);
                            } else {
                                assert(keys0[a as int].0@ != keys0[b0].0@);
                            }
                        }
                        assert forall|n: usize| #[trigger] nodes1.contains_key(n) implies exists|b: int|
                            0 <= b < keys1.len() && (#[trigger] keys1[b]).0@ == nodes1[n].key_view() && keys1[b].1@.contains(n) by {
                            let b0 = choose|b0: int| 0 <= b0 < keys0.len() && (#[trigger] keys0[b0]).0@ == nodes0[n].key_view() && keys0[b0].1@.contains(n);
                            assert(b0 != a);
                            let b = if b0 < a { b0 } else { b0 - 1 };
                            assert(keys1[b] == keys0[b0]);
                        }
                    }
                }
            },
        }
    }
}

impl ConnectionGraph {
    /// Add a document symbol and return its handle.
    pub fn add_document(&mut self, uri: String) -> (id: SymbolId)
        requires
            old(self).wf(),
            old(self)@.nodes.dom().len() < 4294967295,
        ensures
            final(self).wf(),
            !old(self)@.nodes.contains_key(id.index()),
            final(self)@.nodes == old(self)@.nodes.insert(id.index(), SymbolData::Document { uri }),
            final(self)@.edges == old(self)@.edges,
            final(self)@.unresolved == old(self)@.unresolved,
    {
        self.add_node(SymbolData::Document { uri })
    }

    /// Add a heading symbol belonging to a document.
    pub fn add_heading(&mut self, uri: String, slug: &str, text: &str) -> (id: SymbolId)
        requires
            old(self).wf(),
            old(self)@.nodes.dom().len() < 4294967295,
        ensures
            final(self).wf(),
            !old(self)@.nodes.contains_key(id.index()),
            final(self)@.nodes.dom() == old(self)@.nodes.dom().insert(id.index()),
            forall|n: usize| n != id.index() && #[trigger] old(self)@.nodes.contains_key(n) ==> final(self)@.nodes[n] == old(self)@.nodes[n],
            final(self)@.nodes[id.index()] matches SymbolData::Heading { uri: u, slug: s, text: t } && u == uri && s@ == slug@ && t@ == text@,
            final(self)@.edges == old(self)@.edges,
            final(self)@.unresolved == old(self)@.unresolved,
    {
        let data = SymbolData::Heading { uri, slug: slug.to_owned(), text: text.to_owned() };
        let ghost d = data;
        let id = self.add_node(data);
        assert(self@.nodes[id.index()] == d);
        id
    }

    /// Remove a document and all of its symbols and references.
    pub fn remove_document(&mut self, uri: &str)
        requires
            old(self).wf(),
        ensures
            final(self).wf(),
            final(self)@.nodes == nodes_without_key(old(self)@.nodes, uri@),
            final(self)@.edges == old(self)@.edges.filter(
                |e: (usize, usize, RefKind)| !keyed(old(self)@.nodes, uri@, e.0) && !keyed(old(self)@.nodes, uri@, e.1),
            ),
            final(self)@.unresolved == old(self)@.unresolved.filter(
                |u: UnresolvedRef| !keyed(old(self)@.nodes, uri@, u.from.index()),
            ),
    {
        let key = uri.to_owned();
        self.remove_by_key(&key);
    }
}

impl Default for ConnectionGraph {
    fn default() -> (r: Self)
        ensures
            r.wf(),
            r@.nodes.dom() == Set::<usize>::empty(),
            r@.edges.len() == 0,
            r@.unresolved.len() == 0,
    {
        ConnectionGraph::new()
    }
}

} // verus!
