use vstd::prelude::*;

use crate::graph::{reaches, Graph};

verus! {

/// Internal node `v` reaches no lower-numbered node: it is the
/// canonical representative of its connected component.
pub open spec fn fresh_root(edges: Seq<(usize, usize)>, v: int) -> bool {
    forall|u: int| 0 <= u < v ==> !reaches(edges, v, u)
}

/// Number of connected components among internal nodes `0..n`: every
/// component is counted exactly once, at its lowest-numbered node.
pub open spec fn component_count(edges: Seq<(usize, usize)>, n: int) -> int
    decreases n,
{
    if n <= 0 {
        0
    } else {
        component_count(edges, n - 1) + (if fresh_root(edges, n - 1) {
            1int
        } else {
            0int
        })
    }
}

/// Relies on petgraph::algo::connected_components, which returns the
/// number of connected components of the graph — counted here one per
/// lowest-numbered member node, an equivalent tally since reachability
/// is an equivalence relation.  With `usize` node indices, add_node
/// cannot hit the index limit, and add_edge's bounds panic is ruled out
/// by the preconditions.
#[verifier::external_body]
fn connected_components_raw(n: usize, edges: &Vec<(usize, usize)>) -> (r: usize)
    requires
        n < usize::MAX,
        edges@.len() < usize::MAX,
        forall|i: int| 0 <= i < edges@.len() ==> (#[trigger] edges@[i]).0 < n && edges@[i].1 < n,
    ensures
        r == component_count(edges@, n as int),
{
    let mut g =
        petgraph::graph::Graph::<(), (), petgraph::Undirected, usize>::with_capacity(n, edges.len());
    for _ in 0..n {
        g.add_node(());
    }
    for e in edges.iter() {
        g.add_edge(petgraph::graph::NodeIndex::new(e.0), petgraph::graph::NodeIndex::new(e.1), ());
    }
    petgraph::algo::connected_components(&g)
}

/// Connected-component count of the graph, delegated to the external
/// graph-algorithms collaborator.
pub fn connected_component_count(g: &Graph) -> (r: usize)
    requires
        g.wf(),
        g.n() < usize::MAX,
        g.edges@.len() < usize::MAX,
    ensures
        r == component_count(g.edges@, g.n()),
{
    connected_components_raw(g.ext_ids.len(), &g.edges)
}

} // verus!

