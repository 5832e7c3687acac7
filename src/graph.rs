use vstd::prelude::*;
use petgraph::graph::{Graph, NodeIndex};
use crate::analyser::GNode;

verus! {

#[verifier::external_type_specification]
#[verifier::external_body]
#[verifier::reject_recursive_types(N)]
#[verifier::reject_recursive_types(E)]
#[verifier::reject_recursive_types(Ty)]
#[verifier::reject_recursive_types(Ix)]
pub struct ExGraph<N, E, Ty, Ix>(Graph<N, E, Ty, Ix>);

#[verifier::external_type_specification]
#[verifier::external_body]
pub struct ExDirected(petgraph::Directed);

/// The node weights of a graph, in the order in which they were added: the
/// node with index `i` holds the `i`-th weight.
pub uninterp spec fn graph_nodes(g: Graph<GNode, ()>) -> Seq<GNode>;

/// The edges of a graph as (source, target) pairs, in the order in which
/// they were added.
pub uninterp spec fn graph_edges(g: Graph<GNode, ()>) -> Seq<(int, int)>;

/// The targets of the edges leaving `a`, most recently added first.
pub open spec fn children_of(edges: Seq<(int, int)>, a: int) -> Seq<int>
    decreases edges.len(),
{
    if edges.len() == 0 {
        Seq::empty()
    } else {
        let rest = children_of(edges.drop_last(), a);
        if edges.last().0 == a {
            seq![edges.last().1] + rest
        } else {
            rest
        }
    }
}

/// Relies on petgraph's `Graph::new`: a directed graph with no nodes and no
/// edges.
#[verifier::external_body]
pub(crate) fn empty_graph() -> (g: Graph<GNode, ()>)
    ensures
        graph_nodes(g) == Seq::<GNode>::empty(),
        graph_edges(g) == Seq::<(int, int)>::empty(),
{
    Graph::new()
}

/// Relies on `Graph::add_node`: the weight is appended and its index is the
/// former node count; it panics only when that index would be `u32::MAX`.
#[verifier::external_body]
pub(crate) fn push_node(g: &mut Graph<GNode, ()>, w: GNode) -> (r: usize)
    requires
        graph_nodes(*old(g)).len() < u32::MAX,
    ensures
        graph_nodes(*final(g)) == graph_nodes(*old(g)).push(w),
        graph_edges(*final(g)) == graph_edges(*old(g)),
        r == graph_nodes(*old(g)).len(),
{
    g.add_node(w).index()
}

/// Relies on `Graph::add_edge`: the edge is appended; it panics only on an
/// index out of bounds or when the edge index would be `u32::MAX`.
#[verifier::external_body]
pub(crate) fn push_edge(g: &mut Graph<GNode, ()>, a: usize, b: usize)
    requires
        a < graph_nodes(*old(g)).len(),
        b < graph_nodes(*old(g)).len(),
        graph_edges(*old(g)).len() < u32::MAX,
    ensures
        graph_nodes(*final(g)) == graph_nodes(*old(g)),
        graph_edges(*final(g)) == graph_edges(*old(g)).push((a as int, b as int)),
{
    g.add_edge(NodeIndex::new(a), NodeIndex::new(b), ());
}

/// Relies on `Graph::neighbors`: on a directed graph, the targets of the
/// edges leaving `a`, in reverse order of their addition.
#[verifier::external_body]
pub(crate) fn neighbor_indices(g: &Graph<GNode, ()>, a: usize) -> (r: Vec<usize>)
    requires
        a < graph_nodes(*g).len(),
    ensures
        r@.map_values(|x: usize| x as int) == children_of(graph_edges(*g), a as int),
{
    g.neighbors(NodeIndex::new(a)).map(|n| n.index()).collect()
}

/// Relies on `Graph`'s `Index` impl: the weight of node `a`.
#[verifier::external_body]
pub(crate) fn node_at(g: &Graph<GNode, ()>, a: usize) -> (r: &GNode)
    requires
        a < graph_nodes(*g).len(),
    ensures
        *r == graph_nodes(*g)[a as int],
{
    &g[NodeIndex::new(a)]
}

/// Relies on `Graph`'s `IndexMut` impl: the weight of node `a` is replaced.
#[verifier::external_body]
pub(crate) fn set_node(g: &mut Graph<GNode, ()>, a: usize, w: GNode)
    requires
        a < graph_nodes(*old(g)).len(),
    ensures
        graph_nodes(*final(g)) == graph_nodes(*old(g)).update(a as int, w),
        graph_edges(*final(g)) == graph_edges(*old(g)),
{
    g[NodeIndex::new(a)] = w;
}

} // verus!
