use vstd::prelude::*;
use petgraph::graph::{EdgeIndex, NodeIndex};
use crate::pretty_print::PrettyTransition;

verus! {

#[verifier::external_type_specification]
#[verifier::external_body]
#[verifier::reject_recursive_types(N)]
#[verifier::reject_recursive_types(E)]
#[verifier::reject_recursive_types(Ty)]
#[verifier::reject_recursive_types(Ix)]
pub struct ExGraph<N, E, Ty, Ix>(petgraph::Graph<N, E, Ty, Ix>);

#[verifier::external_type_specification]
#[verifier::external_body]
pub struct ExDirected(petgraph::Directed);

/// The arena of nodes and the labelled edges between them: a directed
/// `petgraph::Graph` whose node weights are empty.
pub type EdgeStore = petgraph::Graph<(), PrettyTransition>;

/// The number of nodes that the store holds.
pub uninterp spec fn store_node_count(s: EdgeStore) -> nat;

/// The edges that the store holds, in insertion order, as
/// (source, destination, symbol).
pub uninterp spec fn store_edges(s: EdgeStore) -> Seq<(nat, nat, PrettyTransition)>;

/// Relies on petgraph::Graph::new: the graph starts with no nodes and no edges.
#[verifier::external_body]
pub(crate) fn store_new() -> (r: EdgeStore)
    ensures
        store_node_count(r) == 0,
        store_edges(r) == Seq::<(nat, nat, PrettyTransition)>::empty(),
{
    petgraph::Graph::new()
}

/// Relies on petgraph::Graph::add_node: the new node's index is the old node
/// count, and edges are untouched. It panics when the index would reach
/// `u32::MAX`, which `requires` leaves out.
#[verifier::external_body]
pub(crate) fn store_add_node(s: &mut EdgeStore) -> (r: usize)
    requires
        store_node_count(*old(s)) < u32::MAX,
    ensures
        r as nat == store_node_count(*old(s)),
        store_node_count(*final(s)) == store_node_count(*old(s)) + 1,
        store_edges(*final(s)) == store_edges(*old(s)),
{
    s.add_node(()).index()
}

/// Relies on petgraph::Graph::add_edge: the edge is appended to the edge list.
/// It panics on an endpoint out of bounds or when the edge index would reach
/// `u32::MAX`, which `requires` leaves out.
#[verifier::external_body]
pub(crate) fn store_add_edge(s: &mut EdgeStore, a: usize, b: usize, t: PrettyTransition)
    requires
        a < store_node_count(*old(s)),
        b < store_node_count(*old(s)),
        store_edges(*old(s)).len() < u32::MAX,
    ensures
        store_node_count(*final(s)) == store_node_count(*old(s)),
        store_edges(*final(s)) == store_edges(*old(s)).push((a as nat, b as nat, t)),
{
    s.add_edge(NodeIndex::new(a), NodeIndex::new(b), t);
}

/// Relies on petgraph::Graph::node_count.
#[verifier::external_body]
pub(crate) fn store_nodes(s: &EdgeStore) -> (r: usize)
    ensures
        r as nat == store_node_count(*s),
{
    s.node_count()
}

/// Relies on petgraph::Graph::edge_count.
#[verifier::external_body]
pub(crate) fn store_edge_count(s: &EdgeStore) -> (r: usize)
    ensures
        r as nat == store_edges(*s).len(),
{
    s.edge_count()
}

/// Relies on petgraph::Graph::edge_endpoints: the source and destination of
/// the edge at index `i`.
#[verifier::external_body]
pub(crate) fn store_endpoints(s: &EdgeStore, i: usize) -> (r: (usize, usize))
    requires
        i < store_edges(*s).len(),
    ensures
        r.0 as nat == store_edges(*s)[i as int].0,
        r.1 as nat == store_edges(*s)[i as int].1,
{
    let (a, b) = s.edge_endpoints(EdgeIndex::new(i)).unwrap();
    (a.index(), b.index())
}

/// Relies on petgraph::Graph::edge_weight: the symbol of the edge at index `i`.
#[verifier::external_body]
pub(crate) fn store_symbol(s: &EdgeStore, i: usize) -> (r: PrettyTransition)
    requires
        i < store_edges(*s).len(),
    ensures
        r == store_edges(*s)[i as int].2,
{
    *s.edge_weight(EdgeIndex::new(i)).unwrap()
}

} // verus!
