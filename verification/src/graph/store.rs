//! The graph store: `petgraph`'s `StableGraph` over symbols and reference
//! kinds, with what the connection graph needs of it.

use petgraph::graph::NodeIndex;
use petgraph::stable_graph::StableGraph;
use petgraph::visit::{Dfs, EdgeRef, Walker};
use petgraph::{Directed, Direction};
use vstd::prelude::*;

verus! {

/// The kind of reference between two symbols.
#[derive(Debug, Clone, Copy, PartialEq, Eq, Hash, Structural)]
pub enum RefKind {
    /// `[[target]]` wiki-style link.
    WikiLink,
    /// `[text](url)` markdown link.
    MarkdownLink,
    /// `((block-ref))` Logseq block reference.
    BlockRef,
    /// `![[embed]]` transclusion.
    Embed,
    /// `#tag` reference.
    TagRef,
}

/// Whether a reference of kind `k` blocks its target: document links never do.
pub open spec fn ref_blocks(k: RefKind) -> bool {
    false
}

impl RefKind {
    /// Whether a reference of this kind blocks its target: document links never do.
    pub fn is_blocking(&self) -> (r: bool)
        ensures
            r == ref_blocks(*self),
    {
        false
    }
}

/// Data stored for each node: a document, or a heading within one.
#[derive(Debug)]
pub enum SymbolData {
    /// A document node.
    Document {
        /// The document URI.
        uri: String,
    },
    /// A heading within a document.
    Heading {
        /// The document URI this heading belongs to.
        uri: String,
        /// The heading slug (anchor).
        slug: String,
        /// The heading text.
        text: String,
    },
}

impl SymbolData {
    /// The key a symbol is filed under: its document's URI.
    pub open spec fn key_view(&self) -> Seq<char> {
        match self {
            SymbolData::Document { uri } => uri@,
            SymbolData::Heading { uri, .. } => uri@,
        }
    }

    /// The key a symbol is filed under: its document's URI.
    pub fn key(&self) -> (r: String)
        ensures
            r@ == self.key_view(),
    {
        match self {
            SymbolData::Document { uri } => uri.clone(),
            SymbolData::Heading { uri, .. } => uri.clone(),
        }
    }
}

/// `petgraph`'s stable graph.
#[verifier::external_type_specification]
#[verifier::external_body]
#[verifier::reject_recursive_types(N)]
#[verifier::reject_recursive_types(E)]
#[verifier::reject_recursive_types(Ty)]
#[verifier::reject_recursive_types(Ix)]
pub struct ExStableGraph<N, E, Ty, Ix>(StableGraph<N, E, Ty, Ix>);

/// `petgraph`'s marker of directed graphs.
#[verifier::external_type_specification]
#[verifier::external_body]
pub struct ExDirected(Directed);

/// The nodes of a graph, by index.
pub uninterp spec fn graph_nodes(g: StableGraph<SymbolData, RefKind>) -> Map<usize, SymbolData>;

/// The edges of each node of a graph, by node index: its outgoing edges as
/// (target, kind) and its incoming edges as (source, kind), each list the most
/// recently added first.
pub uninterp spec fn graph_links(g: StableGraph<SymbolData, RefKind>) -> Map<
    usize,
    (Seq<(usize, RefKind)>, Seq<(usize, RefKind)>),
>;

/// The number of edges a graph holds.
pub uninterp spec fn graph_edge_total(g: StableGraph<SymbolData, RefKind>) -> nat;

/// The edge lists after adding an edge from `a` to `b` of kind `k`: it goes
/// first among `a`'s outgoing edges and first among `b`'s incoming edges.
pub open spec fn linked(
    l: Map<usize, (Seq<(usize, RefKind)>, Seq<(usize, RefKind)>)>,
    a: usize,
    b: usize,
    k: RefKind,
) -> Map<usize, (Seq<(usize, RefKind)>, Seq<(usize, RefKind)>)> {
    let l1 = l.insert(a, (seq![(b, k)] + l[a].0, l[a].1));
    l1.insert(b, (l1[b].0, seq![(a, k)] + l1[b].1))
}

/// The references that do not touch node `id`.
pub open spec fn untouched(id: usize) -> spec_fn((usize, usize, RefKind)) -> bool {
    |e: (usize, usize, RefKind)| e.0 != id && e.1 != id
}

/// The list entries whose other end is not `id`.
pub open spec fn away_from(id: usize) -> spec_fn((usize, RefKind)) -> bool {
    |x: (usize, RefKind)| x.0 != id
}

/// The edge lists after removing node `id`: its own lists go, and every edge
/// from or to it leaves the other lists, which otherwise keep their order.
pub open spec fn unlinked(
    l: Map<usize, (Seq<(usize, RefKind)>, Seq<(usize, RefKind)>)>,
    id: usize,
) -> Map<usize, (Seq<(usize, RefKind)>, Seq<(usize, RefKind)>)> {
    Map::new(
        |n: usize| l.contains_key(n) && n != id,
        |n: usize| (l[n].0.filter(away_from(id)), l[n].1.filter(away_from(id))),
    )
}

/// The number of edges from or to node `id`: its outgoing edges (self loops
/// among them) and its incoming edges from other nodes.
pub open spec fn incident_count(l: Map<usize, (Seq<(usize, RefKind)>, Seq<(usize, RefKind)>)>, id: usize) -> nat {
    l[id].0.len() + l[id].1.filter(away_from(id)).len()
}

/// The outgoing edges of `a` as (target, kind), the most recently added first.
pub open spec fn out_list(edges: Seq<(usize, usize, RefKind)>, a: usize) -> Seq<(usize, RefKind)>
    decreases edges.len(),
{
    if edges.len() == 0 {
        Seq::empty()
    } else if edges.last().0 == a {
        seq![(edges.last().1, edges.last().2)] + out_list(edges.drop_last(), a)
    } else {
        out_list(edges.drop_last(), a)
    }
}

/// The incoming edges of `b` as (source, kind), the most recently added first.
pub open spec fn in_list(edges: Seq<(usize, usize, RefKind)>, b: usize) -> Seq<(usize, RefKind)>
    decreases edges.len(),
{
    if edges.len() == 0 {
        Seq::empty()
    } else if edges.last().1 == b {
        seq![(edges.last().0, edges.last().2)] + in_list(edges.drop_last(), b)
    } else {
        in_list(edges.drop_last(), b)
    }
}

/// Whether some edge goes from `a` to `b`.
pub open spec fn has_edge(edges: Seq<(usize, usize, RefKind)>, a: usize, b: usize) -> bool {
    exists|i: int| 0 <= i < edges.len() && (#[trigger] edges[i]).0 == a && edges[i].1 == b
}

/// The edge relation of a sequence of edges.
pub open spec fn edge_rel(edges: Seq<(usize, usize, RefKind)>) -> spec_fn(usize, usize) -> bool {
    |a: usize, b: usize| has_edge(edges, a, b)
}

/// The edge relation of per-node edge lists: an edge from `a` to `b` when
/// `b` is among the targets of `a`'s outgoing edges.
pub open spec fn link_rel(l: Map<usize, (Seq<(usize, RefKind)>, Seq<(usize, RefKind)>)>) -> spec_fn(usize, usize) -> bool {
    |a: usize, b: usize| l.contains_key(a) && exists|k: RefKind| #[trigger] l[a].0.contains((b, k))
}

/// Whether `p` is a walk: at least one node, each joined to the next by an edge.
pub open spec fn is_walk(rel: spec_fn(usize, usize) -> bool, p: Seq<usize>) -> bool {
    p.len() >= 1 && forall|i: int| 0 <= i < p.len() - 1 ==> #[trigger] rel(p[i], p[i + 1])
}

/// Whether `b` can be reached from `a` along edges (every node reaches itself).
pub open spec fn reachable(rel: spec_fn(usize, usize) -> bool, a: usize, b: usize) -> bool {
    exists|p: Seq<usize>| #[trigger] is_walk(rel, p) && p[0] == a && p.last() == b
}

/// Whether the edges close a cycle: a walk of at least one edge back to its start.
pub open spec fn has_cycle(rel: spec_fn(usize, usize) -> bool) -> bool {
    exists|p: Seq<usize>| #[trigger] is_walk(rel, p) && p.len() >= 2 && p[0] == p.last()
}

/// Whether `order` lists every node once, each before the targets of its edges.
pub open spec fn topological(nodes: Map<usize, SymbolData>, rel: spec_fn(usize, usize) -> bool, order: Seq<usize>) -> bool {
    &&& order.no_duplicates()
    &&& forall|n: usize| nodes.contains_key(n) <==> #[trigger] order.contains(n)
    &&& forall|i: int, j: int|
        0 <= i < order.len() && 0 <= j < order.len() && #[trigger] rel(order[i], order[j]) ==> i < j
}

/// An empty graph.
///
/// Trusted: `StableGraph::new` holds no node and no edge.
#[verifier::external_body]
pub(crate) fn graph_new() -> (r: StableGraph<SymbolData, RefKind>)
    ensures
        graph_nodes(r).dom() == Set::<usize>::empty(),
        graph_links(r).dom() == Set::<usize>::empty(),
        graph_edge_total(r) == 0,
{
    StableGraph::new()
}

/// Add a node; its index is returned.
///
/// Trusted: `StableGraph::add_node` stores the node under an index no node
/// has, below `u32::MAX` (the index type's end marker), with no edge yet, and
/// leaves the other nodes' edges as they were. It panics when `u32::MAX`
/// nodes are held, which `requires` rules out. Which vacant index is reused is
/// left unsaid.
#[verifier::external_body]
pub(crate) fn graph_add_node(g: &mut StableGraph<SymbolData, RefKind>, data: SymbolData) -> (id: usize)
    requires
        graph_nodes(*old(g)).dom().finite(),
        graph_nodes(*old(g)).dom().len() < 4294967295,
    ensures
        !graph_nodes(*old(g)).contains_key(id),
        id < 4294967295,
        graph_nodes(*final(g)) == graph_nodes(*old(g)).insert(id, data),
        graph_links(*final(g)) == graph_links(*old(g)).insert(id, (Seq::empty(), Seq::empty())),
        graph_edge_total(*final(g)) == graph_edge_total(*old(g)),
{
    g.add_node(data).index()
}

/// Whether node `id` is in the graph.
///
/// Trusted: `StableGraph::node_weight` finds the node of an index the graph
/// holds, and nothing for another; `NodeIndex::new` keeps indices below `u32::MAX`.
#[verifier::external_body]
pub(crate) fn graph_contains(g: &StableGraph<SymbolData, RefKind>, id: usize) -> (r: bool)
    requires
        id < 4294967295,
    ensures
        r == graph_nodes(*g).contains_key(id),
{
    g.node_weight(NodeIndex::new(id)).is_some()
}

/// The outgoing edges of node `id` as (target, kind).
///
/// Trusted: `StableGraph::edges` lists the outgoing edges of a directed
/// graph's node by walking its list of outgoing edges, where each new edge is
/// put first; none for an index the graph does not hold.
#[verifier::external_body]
pub(crate) fn graph_out_edges(g: &StableGraph<SymbolData, RefKind>, id: usize) -> (r: Vec<(usize, RefKind)>)
    requires
        id < 4294967295,
    ensures
        r@ == (if graph_links(*g).contains_key(id) {
            graph_links(*g)[id].0
        } else {
            Seq::empty()
        }),
{
    g.edges(NodeIndex::new(id)).map(|e| (e.target().index(), *e.weight())).collect()
}

/// The incoming edges of node `id` as (source, kind).
///
/// Trusted: `StableGraph::edges_directed` with `Incoming` lists the incoming
/// edges of a node by walking its list of incoming edges, where each new edge
/// is put first; none for an index the graph does not hold.
#[verifier::external_body]
pub(crate) fn graph_in_edges(g: &StableGraph<SymbolData, RefKind>, id: usize) -> (r: Vec<(usize, RefKind)>)
    requires
        id < 4294967295,
    ensures
        r@ == (if graph_links(*g).contains_key(id) {
            graph_links(*g)[id].1
        } else {
            Seq::empty()
        }),
{
    g.edges_directed(NodeIndex::new(id), Direction::Incoming).map(|e| (e.source().index(), *e.weight())).collect()
}

/// Add an edge from `a` to `b`.
///
/// Trusted: `StableGraph::add_edge` puts the new edge first in `a`'s list of
/// outgoing edges and first in `b`'s list of incoming edges (parallel edges
/// are allowed), leaves the other lists and the nodes as they were, and holds
/// one more edge. It reuses a vacant edge slot when there is one; with none, a
/// new slot's index is the number of edges held, so it panics only when
/// `u32::MAX` edges are held, which `requires` rules out, as it does a missing
/// node.
#[verifier::external_body]
pub(crate) fn graph_add_edge(g: &mut StableGraph<SymbolData, RefKind>, a: usize, b: usize, kind: RefKind)
    requires
        a < 4294967295,
        b < 4294967295,
        graph_nodes(*old(g)).contains_key(a),
        graph_nodes(*old(g)).contains_key(b),
        graph_edge_total(*old(g)) < 4294967295,
    ensures
        graph_nodes(*final(g)) == graph_nodes(*old(g)),
        graph_links(*final(g)) == linked(graph_links(*old(g)), a, b, kind),
        graph_edge_total(*final(g)) == graph_edge_total(*old(g)) + 1,
{
    g.add_edge(NodeIndex::new(a), NodeIndex::new(b), kind);
}

/// Remove node `id` with its edges.
///
/// Trusted: `StableGraph::remove_node` removes a node the graph holds and every
/// edge from or to it, unlinking each from the other lists, which keep their
/// order; for an index the graph does not hold it changes nothing.
#[verifier::external_body]
pub(crate) fn graph_remove_node(g: &mut StableGraph<SymbolData, RefKind>, id: usize)
    requires
        id < 4294967295,
    ensures
        graph_nodes(*old(g)).contains_key(id) ==> graph_nodes(*final(g)) == graph_nodes(*old(g)).remove(id)
            && graph_links(*final(g)) == unlinked(graph_links(*old(g)), id)
            && graph_edge_total(*final(g)) + incident_count(graph_links(*old(g)), id) == graph_edge_total(*old(g)),
        !graph_nodes(*old(g)).contains_key(id) ==> graph_nodes(*final(g)) == graph_nodes(*old(g))
            && graph_links(*final(g)) == graph_links(*old(g)) && graph_edge_total(*final(g)) == graph_edge_total(*old(g)),
{
    g.remove_node(NodeIndex::new(id));
}

/// The number of nodes.
///
/// Trusted: `StableGraph::node_count` counts the nodes held.
#[verifier::external_body]
pub(crate) fn graph_node_count(g: &StableGraph<SymbolData, RefKind>) -> (n: usize)
    ensures
        n == graph_nodes(*g).dom().len(),
{
    g.node_count()
}

/// The number of edges.
///
/// Trusted: `StableGraph::edge_count` counts the edges held.
#[verifier::external_body]
pub(crate) fn graph_edge_count(g: &StableGraph<SymbolData, RefKind>) -> (n: usize)
    ensures
        n == graph_edge_total(*g),
{
    g.edge_count()
}

/// Whether the graph has a cycle.
///
/// Trusted: `petgraph::algo::is_cyclic_directed` tells whether a directed
/// graph has a cycle, a self loop included. It recurses once per node along a
/// path, so on a long enough path it can exhaust the stack; that is left unsaid.
#[verifier::external_body]
pub(crate) fn graph_is_cyclic(g: &StableGraph<SymbolData, RefKind>) -> (r: bool)
    ensures
        r == has_cycle(link_rel(graph_links(*g))),
{
    petgraph::algo::is_cyclic_directed(g)
}

/// A topological order of the nodes, when the graph is acyclic.
///
/// Trusted: `petgraph::algo::toposort` gives every node once, each before its
/// successors, when the graph has no cycle, and an error otherwise (a self
/// loop is a cycle). Which of the orders it gives is left unsaid.
#[verifier::external_body]
pub(crate) fn graph_toposort(g: &StableGraph<SymbolData, RefKind>) -> (r: Option<Vec<usize>>)
    ensures
        r is Some <==> !has_cycle(link_rel(graph_links(*g))),
        r matches Some(order) ==> topological(graph_nodes(*g), link_rel(graph_links(*g)), order@),
{
    match petgraph::algo::toposort(g, None) {
        Ok(order) => Some(order.into_iter().map(|n| n.index()).collect()),
        Err(_) => None,
    }
}

/// The nodes a depth-first search from `start` visits, in visiting order.
///
/// Trusted: `petgraph::visit::Dfs` started at a node of the graph visits that
/// node first and then every node reachable from it along outgoing edges,
/// each once. The order among the others is left unsaid.
#[verifier::external_body]
pub(crate) fn graph_dfs(g: &StableGraph<SymbolData, RefKind>, start: usize) -> (r: Vec<usize>)
    requires
        start < 4294967295,
        graph_nodes(*g).contains_key(start),
    ensures
        r@.len() > 0,
        r@[0] == start,
        r@.no_duplicates(),
        forall|n: usize| #[trigger] r@.contains(n) <==> reachable(link_rel(graph_links(*g)), start, n),
{
    Dfs::new(g, NodeIndex::new(start)).iter(g).map(|n| n.index()).collect()
}

} // verus!
