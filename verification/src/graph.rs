//! The corridor graph, held in a `petgraph` undirected graph.
//!
//! Nodes carry their station index and edges carry the set of lines running
//! over the corridor. The graph's contents are named by [`graph_nodes`] and
//! [`graph_edges`]; every method the library calls has a wrapper below whose
//! contract says what it does to those contents.

use std::collections::BTreeSet;

use petgraph::graph::{EdgeIndex, Graph, NodeIndex};
use petgraph::Undirected;

use vstd::prelude::*;

verus! {

/// The lines crossing one corridor, as indices into the network's lines.
pub type LineSet = BTreeSet<usize>;

/// The station graph: nodes are stations, edges are corridors.
pub type CorridorGraph = Graph<usize, LineSet, Undirected, u32>;

#[verifier::external_type_specification]
#[verifier::external_body]
#[verifier::reject_recursive_types(N)]
#[verifier::reject_recursive_types(E)]
#[verifier::reject_recursive_types(Ty)]
#[verifier::reject_recursive_types(Ix)]
pub struct ExGraph<N, E, Ty, Ix>(Graph<N, E, Ty, Ix>);

#[verifier::external_type_specification]
#[verifier::external_body]
pub struct ExUndirected(Undirected);

/// The node weights of a corridor graph, in node-index order.
pub uninterp spec fn graph_nodes(g: CorridorGraph) -> Seq<usize>;

/// The edges of a corridor graph in edge-index order: source, target, and the
/// view of the edge's line set.
pub uninterp spec fn graph_edges(g: CorridorGraph) -> Seq<(usize, usize, Set<usize>)>;

/// Whether edge `e` joins `a` and `b`, in either direction.
pub open spec fn joins(e: (usize, usize, Set<usize>), a: usize, b: usize) -> bool {
    (e.0 == a && e.1 == b) || (e.0 == b && e.1 == a)
}

/// `Graph::default`: an empty graph.
#[verifier::external_body]
pub(crate) fn graph_new() -> (g: CorridorGraph)
    ensures
        graph_nodes(g) == Seq::<usize>::empty(),
        graph_edges(g) == Seq::<(usize, usize, Set<usize>)>::empty(),
{
    CorridorGraph::default()
}

/// `Graph::add_node`: appends a node holding `weight` and returns its index.
/// It panics when the node count reaches the `u32` index limit, which the
/// precondition rules out.
#[verifier::external_body]
pub(crate) fn graph_add_node(g: &mut CorridorGraph, weight: usize) -> (n: usize)
    requires
        graph_nodes(*old(g)).len() < u32::MAX,
    ensures
        n == graph_nodes(*old(g)).len(),
        graph_nodes(*final(g)) == graph_nodes(*old(g)).push(weight),
        graph_edges(*final(g)) == graph_edges(*old(g)),
{
    g.add_node(weight).index()
}

/// `Graph::add_edge`: appends an edge from `a` to `b` carrying `weight` and
/// returns its index. It panics on a node index out of bounds or at the `u32`
/// edge index limit, which the precondition rules out.
#[verifier::external_body]
pub(crate) fn graph_add_edge(g: &mut CorridorGraph, a: usize, b: usize, weight: LineSet) -> (e: usize)
    requires
        a < graph_nodes(*old(g)).len(),
        b < graph_nodes(*old(g)).len(),
        graph_edges(*old(g)).len() < u32::MAX,
    ensures
        e == graph_edges(*old(g)).len(),
        graph_nodes(*final(g)) == graph_nodes(*old(g)),
        graph_edges(*final(g)) == graph_edges(*old(g)).push((a, b, weight@)),
{
    g.add_edge(NodeIndex::new(a), NodeIndex::new(b), weight).index()
}

/// `Graph::update_edge`: replaces the weight of an edge joining `a` and `b`
/// in either direction, or appends a new edge when there is none, and returns
/// the index of the edge affected. Which edge is updated where several join
/// the pair is left unsaid here; it is always one that joins them.
#[verifier::external_body]
pub(crate) fn graph_update_edge(g: &mut CorridorGraph, a: usize, b: usize, weight: LineSet) -> (e: usize)
    requires
        a < graph_nodes(*old(g)).len(),
        b < graph_nodes(*old(g)).len(),
        graph_edges(*old(g)).len() < u32::MAX,
    ensures
        graph_nodes(*final(g)) == graph_nodes(*old(g)),
        (exists|x: int| 0 <= x < graph_edges(*old(g)).len() && joins(#[trigger] graph_edges(*old(g))[x], a, b))
            ==> {
            &&& e < graph_edges(*old(g)).len()
            &&& joins(graph_edges(*old(g))[e as int], a, b)
            &&& graph_edges(*final(g)) == graph_edges(*old(g)).update(
                e as int,
                (graph_edges(*old(g))[e as int].0, graph_edges(*old(g))[e as int].1, weight@),
            )
        },
        !(exists|x: int| 0 <= x < graph_edges(*old(g)).len() && joins(#[trigger] graph_edges(*old(g))[x], a, b))
            ==> {
            &&& e == graph_edges(*old(g)).len()
            &&& graph_edges(*final(g)) == graph_edges(*old(g)).push((a, b, weight@))
        },
{
    g.update_edge(NodeIndex::new(a), NodeIndex::new(b), weight).index()
}

/// `Graph::find_edge` on an undirected graph: an edge joining `a` and `b` in
/// either direction, or `None` when no edge joins them.
#[verifier::external_body]
pub(crate) fn graph_find_edge(g: &CorridorGraph, a: usize, b: usize) -> (r: Option<usize>)
    requires
        a < graph_nodes(*g).len(),
        b < graph_nodes(*g).len(),
        graph_nodes(*g).len() < u32::MAX,
    ensures
        r matches Some(e) ==> e < graph_edges(*g).len() && joins(graph_edges(*g)[e as int], a, b),
        r is None ==> forall|x: int|
            0 <= x < graph_edges(*g).len() ==> !joins(#[trigger] graph_edges(*g)[x], a, b),
{
    match g.find_edge(NodeIndex::new(a), NodeIndex::new(b)) {
        Some(edge) => Some(edge.index()),
        None => None,
    }
}

/// `Graph::edge_weight`: the line set of edge `e`. The index is narrowed to
/// the graph's `u32` index type, so only an index below the edge count is
/// asked for.
#[verifier::external_body]
pub(crate) fn graph_edge_weight(g: &CorridorGraph, e: usize) -> (r: Option<&LineSet>)
    requires
        e < graph_edges(*g).len(),
        graph_edges(*g).len() < u32::MAX,
    ensures
        r is Some && r.unwrap()@ == graph_edges(*g)[e as int].2,
{
    g.edge_weight(EdgeIndex::new(e))
}

/// `Graph::edge_endpoints`: the source and target of edge `e`. As with
/// [`graph_edge_weight`], only an index below the edge count is asked for.
#[verifier::external_body]
pub(crate) fn graph_edge_endpoints(g: &CorridorGraph, e: usize) -> (r: Option<(usize, usize)>)
    requires
        e < graph_edges(*g).len(),
        graph_edges(*g).len() < u32::MAX,
    ensures
        r == Some((graph_edges(*g)[e as int].0, graph_edges(*g)[e as int].1)),
{
    match g.edge_endpoints(EdgeIndex::new(e)) {
        Some((a, b)) => Some((a.index(), b.index())),
        None => None,
    }
}

/// `Graph::edge_count`.
#[verifier::external_body]
pub(crate) fn graph_edge_count(g: &CorridorGraph) -> (n: usize)
    ensures
        n == graph_edges(*g).len(),
{
    g.edge_count()
}

} // verus!
