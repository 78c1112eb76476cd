//! Trusted declarations for the petgraph types and calls the graph export
//! uses. The export builds a `petgraph::graph::Graph` whose node weights
//! are the annotation strings and whose edge weights are empty strings;
//! `pg_nodes`, `pg_edges` and `pg_pos` name what such a graph holds, and
//! each wrapper states what one petgraph call does to those contents, as
//! petgraph's source shows.

use vstd::prelude::*;

verus! {

#[verifier::external_type_specification]
#[verifier::external_body]
pub struct ExDirected(petgraph::Directed);

#[verifier::external_type_specification]
#[verifier::external_body]
#[verifier::reject_recursive_types(Ix)]
pub struct ExNodeIndex<Ix>(petgraph::graph::NodeIndex<Ix>);

#[verifier::external_type_specification]
#[verifier::external_body]
#[verifier::reject_recursive_types(N)]
#[verifier::reject_recursive_types(E)]
#[verifier::reject_recursive_types(Ty)]
#[verifier::reject_recursive_types(Ix)]
pub struct ExGraph<N, E, Ty, Ix>(petgraph::graph::Graph<N, E, Ty, Ix>);

/// What an export graph holds: its node weights, in insertion order.
pub uninterp spec fn pg_nodes(g: petgraph::graph::Graph<String, String>) -> Seq<Seq<char>>;

/// What an export graph holds: its edges, each as source position, target
/// position and weight, in insertion order.
pub uninterp spec fn pg_edges(g: petgraph::graph::Graph<String, String>) -> Seq<
    (int, int, Seq<char>),
>;

/// The node position a petgraph node identifier stands for.
pub uninterp spec fn pg_pos(ix: petgraph::graph::NodeIndex) -> int;

/// Relies on petgraph's `Graph::new`: the new graph has no nodes and no
/// edges.
#[verifier::external_body]
pub(crate) fn pg_new() -> (g: petgraph::graph::Graph<String, String>)
    ensures
        pg_nodes(g) == Seq::<Seq<char>>::empty(),
        pg_edges(g) == Seq::<(int, int, Seq<char>)>::empty(),
{
    petgraph::graph::Graph::new()
}

/// Relies on petgraph's `Graph::add_node`: it appends one node with the
/// given weight and returns that node's identifier, whose position is the
/// previous node count. It panics only when the node count reaches the
/// limit of its 32-bit index type, which the bound excludes.
#[verifier::external_body]
pub(crate) fn pg_add_node(
    g: &mut petgraph::graph::Graph<String, String>,
    weight: String,
) -> (ix: petgraph::graph::NodeIndex)
    requires
        pg_nodes(*old(g)).len() < 0xFFFF_FFFF,
    ensures
        pg_nodes(*final(g)) == pg_nodes(*old(g)).push(weight@),
        pg_edges(*final(g)) == pg_edges(*old(g)),
        pg_pos(ix) == pg_nodes(*old(g)).len(),
{
    g.add_node(weight)
}

/// Relies on petgraph's `Graph::add_edge`: it appends one directed edge
/// between two existing nodes. It panics only on a missing endpoint or
/// when the edge count reaches the limit of its 32-bit index type, which
/// the bounds exclude; the edge index it returns is not needed here.
#[verifier::external_body]
pub(crate) fn pg_add_edge(
    g: &mut petgraph::graph::Graph<String, String>,
    a: petgraph::graph::NodeIndex,
    b: petgraph::graph::NodeIndex,
    weight: String,
)
    requires
        0 <= pg_pos(a) < pg_nodes(*old(g)).len(),
        0 <= pg_pos(b) < pg_nodes(*old(g)).len(),
        pg_edges(*old(g)).len() < 0xFFFF_FFFF,
    ensures
        pg_nodes(*final(g)) == pg_nodes(*old(g)),
        pg_edges(*final(g)) == pg_edges(*old(g)).push((pg_pos(a), pg_pos(b), weight@)),
{
    let _ = g.add_edge(a, b, weight);
}

} // verus!
