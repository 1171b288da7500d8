//! The directed multigraph that stores the overlaps, and what is taken on
//! trust about it.
//!
//! The graph is `petgraph`'s adjacency-list `Graph`. Nothing in this module is
//! proved: each function states, over two sequences that stand for the graph's
//! contents, what the corresponding `petgraph` method does. Everything else in
//! the crate is verified against these statements.

use petgraph::graph::{EdgeIndex, Graph, NodeIndex};
use petgraph::{Directed, Direction};
use vstd::prelude::*;

verus! {

/// `petgraph::graph::Graph`, opaque to the verifier.
#[verifier::external_type_specification]
#[verifier::external_body]
#[verifier::reject_recursive_types(N)]
#[verifier::reject_recursive_types(E)]
#[verifier::reject_recursive_types(Ty)]
#[verifier::reject_recursive_types(Ix)]
pub struct ExGraph<N, E, Ty, Ix>(Graph<N, E, Ty, Ix>);

/// `petgraph::Directed`, the marker of a graph with directed edges.
#[verifier::external_type_specification]
#[verifier::external_body]
pub struct ExDirected(Directed);

/// The graph of oriented segments: a node carries a segment name and an
/// orientation symbol, an edge carries its overlap token.
pub type OverlapGraph = Graph<(String, char), String, Directed, u32>;

/// A node as specifications see it: segment name and orientation symbol.
pub type NodeId = (Seq<char>, char);

/// An edge as specifications see it: source handle, target handle, overlap
/// token.
pub type Link = (usize, usize, Seq<char>);

/// The node weights of `g`, in node-index order.
pub uninterp spec fn graph_nodes(g: OverlapGraph) -> Seq<NodeId>;

/// The edges of `g`, in edge-index order.
pub uninterp spec fn graph_edges(g: OverlapGraph) -> Seq<Link>;

/// What is left of `edges` once the edge at index `e` is taken out: the last
/// edge moves into the gap, every other edge keeps its index.
pub open spec fn swap_removed(edges: Seq<Link>, e: int) -> Seq<Link>
    recommends
        0 <= e < edges.len(),
{
    if e == edges.len() - 1 {
        edges.drop_last()
    } else {
        edges.update(e, edges.last()).drop_last()
    }
}

/// The test whether a link leaves `a`.
pub open spec fn leaves(a: usize) -> spec_fn(Link) -> bool {
    |l: Link| l.0 == a
}

/// The test whether a link enters `a`.
pub open spec fn enters(a: usize) -> spec_fn(Link) -> bool {
    |l: Link| l.1 == a
}

/// The function that gives a link's source.
pub open spec fn source_of() -> spec_fn(Link) -> usize {
    |l: Link| l.0
}

/// The function that gives a link's target.
pub open spec fn target_of() -> spec_fn(Link) -> usize {
    |l: Link| l.1
}

/// The targets of the edges that leave `a`, in edge-index order.
pub open spec fn targets_from(edges: Seq<Link>, a: usize) -> Seq<usize> {
    edges.filter(leaves(a)).map_values(target_of())
}

/// The sources of the edges that enter `a`, in edge-index order.
pub open spec fn sources_into(edges: Seq<Link>, a: usize) -> Seq<usize> {
    edges.filter(enters(a)).map_values(source_of())
}

/// `Graph::new`: a graph without nodes or edges.
#[verifier::external_body]
pub(crate) fn graph_new() -> (g: OverlapGraph)
    ensures
        graph_nodes(g) == Seq::<NodeId>::empty(),
        graph_edges(g) == Seq::<Link>::empty(),
{
    Graph::new()
}

/// `Graph::node_count`: the number of nodes.
#[verifier::external_body]
pub(crate) fn graph_node_count(g: &OverlapGraph) -> (n: usize)
    ensures
        n == graph_nodes(*g).len(),
{
    g.node_count()
}

/// `Graph::edge_count`: the number of edges.
#[verifier::external_body]
pub(crate) fn graph_edge_count(g: &OverlapGraph) -> (n: usize)
    ensures
        n == graph_edges(*g).len(),
{
    g.edge_count()
}

/// `Graph::add_node`: appends a node and returns its index, the former node
/// count. The edges stay as they are. `petgraph` panics once the index would
/// no longer fit its 32-bit index type, hence the bound.
#[verifier::external_body]
pub(crate) fn graph_add_node(g: &mut OverlapGraph, name: String, ori: char) -> (id: usize)
    requires
        graph_nodes(*old(g)).len() < u32::MAX,
    ensures
        id == graph_nodes(*old(g)).len(),
        graph_nodes(*final(g)) == graph_nodes(*old(g)).push((name@, ori)),
        graph_edges(*final(g)) == graph_edges(*old(g)),
{
    g.add_node((name, ori)).index()
}

/// `Graph::node_weight`: the weight of node `a`, or `None` past the last node.
#[verifier::external_body]
pub(crate) fn graph_node_weight<'a>(g: &'a OverlapGraph, a: usize) -> (w: Option<&'a (String, char)>)
    requires
        a <= u32::MAX,
    ensures
        match w {
            Some(p) => a < graph_nodes(*g).len() && (p.0@, p.1) == graph_nodes(*g)[a as int],
            None => a >= graph_nodes(*g).len(),
        },
{
    g.node_weight(NodeIndex::new(a))
}

/// `Graph::add_edge`: appends an edge from `a` to `b` and returns its index,
/// the former edge count. Parallel edges are allowed. The nodes stay as they
/// are. `petgraph` panics on a node that does not exist and once the edge
/// index would no longer fit its 32-bit index type, hence the bounds.
#[verifier::external_body]
pub(crate) fn graph_add_edge(g: &mut OverlapGraph, a: usize, b: usize, weight: String) -> (e: usize)
    requires
        graph_nodes(*old(g)).len() <= u32::MAX,
        a < graph_nodes(*old(g)).len(),
        b < graph_nodes(*old(g)).len(),
        graph_edges(*old(g)).len() < u32::MAX,
    ensures
        e == graph_edges(*old(g)).len(),
        graph_edges(*final(g)) == graph_edges(*old(g)).push((a, b, weight@)),
        graph_nodes(*final(g)) == graph_nodes(*old(g)),
{
    g.add_edge(NodeIndex::new(a), NodeIndex::new(b), weight).index()
}

/// `Graph::edge_weight`: the overlap token of edge `e`, or `None` past the
/// last edge.
#[verifier::external_body]
pub(crate) fn graph_edge_weight<'a>(g: &'a OverlapGraph, e: usize) -> (w: Option<&'a String>)
    requires
        e <= u32::MAX,
    ensures
        match w {
            Some(s) => e < graph_edges(*g).len() && s@ == graph_edges(*g)[e as int].2,
            None => e >= graph_edges(*g).len(),
        },
{
    g.edge_weight(EdgeIndex::new(e))
}

/// `Graph::edge_endpoints`: source and target of edge `e`, or `None` past the
/// last edge.
#[verifier::external_body]
pub(crate) fn graph_edge_endpoints(g: &OverlapGraph, e: usize) -> (p: Option<(usize, usize)>)
    requires
        e <= u32::MAX,
    ensures
        match p {
            Some((s, t)) => e < graph_edges(*g).len() && s == graph_edges(*g)[e as int].0 && t
                == graph_edges(*g)[e as int].1,
            None => e >= graph_edges(*g).len(),
        },
{
    g.edge_endpoints(EdgeIndex::new(e)).map(|(s, t)| (s.index(), t.index()))
}

/// `Graph::find_edge`: the index of an edge from `a` to `b`, or `None` when
/// there is none. With parallel edges it is left open which one is found.
#[verifier::external_body]
pub(crate) fn graph_find_edge(g: &OverlapGraph, a: usize, b: usize) -> (r: Option<usize>)
    requires
        a <= u32::MAX,
        b <= u32::MAX,
    ensures
        match r {
            Some(e) => e < graph_edges(*g).len() && graph_edges(*g)[e as int].0 == a
                && graph_edges(*g)[e as int].1 == b,
            None => forall|i: int|
                0 <= i < graph_edges(*g).len() ==> !(#[trigger] graph_edges(*g)[i].0 == a
                    && graph_edges(*g)[i].1 == b),
        },
{
    g.find_edge(NodeIndex::new(a), NodeIndex::new(b)).map(|e| e.index())
}

/// `Graph::remove_edge`: takes edge `e` out and returns its overlap token. The
/// last edge adopts the index `e`; all other edges and all nodes stay as they
/// are. Past the last edge nothing changes and `None` comes back.
#[verifier::external_body]
pub(crate) fn graph_remove_edge(g: &mut OverlapGraph, e: usize) -> (w: Option<String>)
    requires
        e <= u32::MAX,
    ensures
        graph_nodes(*final(g)) == graph_nodes(*old(g)),
        match w {
            Some(s) => e < graph_edges(*old(g)).len() && s@ == graph_edges(*old(g))[e as int].2
                && graph_edges(*final(g)) == swap_removed(graph_edges(*old(g)), e as int),
            None => e >= graph_edges(*old(g)).len() && graph_edges(*final(g)) == graph_edges(
                *old(g),
            ),
        },
{
    g.remove_edge(EdgeIndex::new(e))
}

/// `Graph::neighbors_directed` with `Outgoing`: the targets of the edges that
/// leave `a`, one entry per edge. The order in which they come is not stated.
#[verifier::external_body]
pub(crate) fn graph_successors(g: &OverlapGraph, a: usize) -> (r: Vec<usize>)
    requires
        a <= u32::MAX,
    ensures
        r@.to_multiset() == targets_from(graph_edges(*g), a).to_multiset(),
{
    g.neighbors_directed(NodeIndex::new(a), Direction::Outgoing).map(|n| n.index()).collect()
}

/// `Graph::neighbors_directed` with `Incoming`: the sources of the edges that
/// enter `a`, one entry per edge. The order in which they come is not stated.
#[verifier::external_body]
pub(crate) fn graph_predecessors(g: &OverlapGraph, a: usize) -> (r: Vec<usize>)
    requires
        a <= u32::MAX,
    ensures
        r@.to_multiset() == sources_into(graph_edges(*g), a).to_multiset(),
{
    g.neighbors_directed(NodeIndex::new(a), Direction::Incoming).map(|n| n.index()).collect()
}

} // verus!
