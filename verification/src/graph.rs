//! The directed multigraph in which a decision process is stored, and the
//! graph algorithms that are taken from `petgraph`.
//!
//! The contracts in this file are not proved: they state what the source of
//! `petgraph` shows of the functions that the bodies call.

use petgraph::algo::kosaraju_scc;
use petgraph::graph::{EdgeIndex, Graph, NodeIndex};
use petgraph::Directed;
use vstd::prelude::*;

verus! {

#[verifier::external_type_specification]
#[verifier::external_body]
#[verifier::reject_recursive_types(N)]
#[verifier::reject_recursive_types(E)]
#[verifier::reject_recursive_types(Ty)]
#[verifier::reject_recursive_types(Ix)]
pub struct ExGraph<N, E, Ty, Ix>(Graph<N, E, Ty, Ix>);

#[verifier::external_type_specification]
#[verifier::external_body]
pub struct ExDirected(Directed);

/// The node weights of a graph, by node index.
pub uninterp spec fn graph_nodes(g: Graph<u64, u64, Directed, usize>) -> Seq<u64>;

/// The edges of a graph, by edge index: source, target and weight.
pub uninterp spec fn graph_edges(g: Graph<u64, u64, Directed, usize>) -> Seq<(usize, usize, u64)>;

/// Some edge leads from `a` to `b`.
pub open spec fn has_edge(edges: Seq<(usize, usize, u64)>, a: int, b: int) -> bool {
    exists|e: int| 0 <= e < edges.len() && #[trigger] edges[e].0 == a && edges[e].1 == b
}

/// There is a walk from `a` to `b` along `path`: it starts at `a`, ends at
/// `b`, and each step follows an edge.
pub open spec fn is_walk(edges: Seq<(usize, usize, u64)>, path: Seq<int>, a: int, b: int) -> bool {
    &&& path.len() > 0
    &&& path[0] == a
    &&& path[path.len() - 1] == b
    &&& forall|i: int|
        0 <= i < path.len() - 1 ==> #[trigger] has_edge(edges, path[i], path[i + 1])
}

/// `b` can be reached from `a` in zero or more steps.
pub open spec fn reaches(edges: Seq<(usize, usize, u64)>, a: int, b: int) -> bool {
    exists|path: Seq<int>| is_walk(edges, path, a, b)
}

/// `a` and `b` lie on a common cycle, or are the same node.
pub open spec fn strongly_connected(edges: Seq<(usize, usize, u64)>, a: int, b: int) -> bool {
    reaches(edges, a, b) && reaches(edges, b, a)
}

/// Node `n` occurs in one of the components.
pub open spec fn listed(sccs: Seq<Vec<usize>>, n: int) -> bool {
    exists|c: int, i: int|
        0 <= c < sccs.len() && 0 <= i < sccs[c]@.len() && #[trigger] sccs[c]@[i] == n
}

/// `Graph::with_capacity` with no capacity reserved: the graph without nodes
/// and edges.
#[verifier::external_body]
pub(crate) fn graph_new() -> (g: Graph<u64, u64, Directed, usize>)
    ensures
        graph_nodes(g).len() == 0,
        graph_edges(g).len() == 0,
{
    Graph::with_capacity(0, 0)
}

/// `Graph::node_count`: the number of nodes.
#[verifier::external_body]
pub(crate) fn graph_node_count(g: &Graph<u64, u64, Directed, usize>) -> (n: usize)
    ensures
        n == graph_nodes(*g).len(),
{
    g.node_count()
}

/// `Graph::edge_count`: the number of edges.
#[verifier::external_body]
pub(crate) fn graph_edge_count(g: &Graph<u64, u64, Directed, usize>) -> (n: usize)
    ensures
        n == graph_edges(*g).len(),
{
    g.edge_count()
}

/// `Graph::add_node`: the node is appended and gets the next index; the
/// edges stay. With `usize` indices the graph has no capacity limit of its
/// own.
#[verifier::external_body]
pub(crate) fn graph_add_node(g: &mut Graph<u64, u64, Directed, usize>, weight: u64) -> (i: usize)
    ensures
        graph_nodes(*final(g)) == graph_nodes(*old(g)).push(weight),
        graph_edges(*final(g)) == graph_edges(*old(g)),
        i == graph_nodes(*old(g)).len(),
{
    g.add_node(weight).index()
}

/// `Graph::add_edge`: the edge is appended and gets the next index; the
/// nodes stay. The call panics on a node index that is out of bounds, which
/// the precondition excludes.
#[verifier::external_body]
pub(crate) fn graph_add_edge(
    g: &mut Graph<u64, u64, Directed, usize>,
    source: usize,
    target: usize,
    weight: u64,
) -> (e: usize)
    requires
        source < graph_nodes(*old(g)).len(),
        target < graph_nodes(*old(g)).len(),
    ensures
        graph_nodes(*final(g)) == graph_nodes(*old(g)),
        graph_edges(*final(g)) == graph_edges(*old(g)).push((source, target, weight)),
        e == graph_edges(*old(g)).len(),
{
    g.add_edge(NodeIndex::new(source), NodeIndex::new(target), weight).index()
}

/// `Graph::node_weight`: the weight of node `i`.
#[verifier::external_body]
pub(crate) fn graph_node_weight(g: &Graph<u64, u64, Directed, usize>, i: usize) -> (w: u64)
    requires
        i < graph_nodes(*g).len(),
    ensures
        w == graph_nodes(*g)[i as int],
{
    *g.node_weight(NodeIndex::new(i)).unwrap()
}

/// `Graph::edge_endpoints`: source and target of edge `e`.
#[verifier::external_body]
pub(crate) fn graph_edge_endpoints(g: &Graph<u64, u64, Directed, usize>, e: usize) -> (st: (
    usize,
    usize,
))
    requires
        e < graph_edges(*g).len(),
    ensures
        st.0 == graph_edges(*g)[e as int].0,
        st.1 == graph_edges(*g)[e as int].1,
{
    let (source, target) = g.edge_endpoints(EdgeIndex::new(e)).unwrap();
    (source.index(), target.index())
}

/// `Graph::edge_weight`: the weight of edge `e`.
#[verifier::external_body]
pub(crate) fn graph_edge_weight(g: &Graph<u64, u64, Directed, usize>, e: usize) -> (w: u64)
    requires
        e < graph_edges(*g).len(),
    ensures
        w == graph_edges(*g)[e as int].2,
{
    *g.edge_weight(EdgeIndex::new(e)).unwrap()
}

/// `petgraph::algo::kosaraju_scc`: the strongly connected components. Every
/// node is in exactly one component, no component is empty, and two nodes
/// share a component exactly if each can be reached from the other. The
/// order of the components and of the nodes in one is left open.
#[verifier::external_body]
pub(crate) fn graph_scc(g: &Graph<u64, u64, Directed, usize>) -> (sccs: Vec<Vec<usize>>)
    ensures
        forall|c: int| 0 <= c < sccs@.len() ==> (#[trigger] sccs@[c])@.len() > 0,
        forall|c: int, i: int|
            0 <= c < sccs@.len() && 0 <= i < sccs@[c]@.len() ==> (#[trigger] sccs@[c]@[i])
                < graph_nodes(*g).len(),
        forall|n: int| 0 <= n < graph_nodes(*g).len() ==> #[trigger] listed(sccs@, n),
        forall|c: int, i: int, d: int, j: int|
            0 <= c < sccs@.len() && 0 <= i < sccs@[c]@.len() && 0 <= d < sccs@.len() && 0 <= j
                < sccs@[d]@.len() && (c != d || i != j) ==> #[trigger] sccs@[c]@[i]
                != #[trigger] sccs@[d]@[j],
        forall|c: int, i: int, d: int, j: int|
            0 <= c < sccs@.len() && 0 <= i < sccs@[c]@.len() && 0 <= d < sccs@.len() && 0 <= j
                < sccs@[d]@.len() ==> ((c == d) <==> strongly_connected(
                graph_edges(*g),
                #[trigger] sccs@[c]@[i] as int,
                #[trigger] sccs@[d]@[j] as int,
            )),
{
    kosaraju_scc(g).into_iter().map(|c| c.into_iter().map(|n| n.index()).collect()).collect()
}

} // verus!
