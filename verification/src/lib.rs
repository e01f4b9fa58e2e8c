use vstd::prelude::*;

pub mod centrality;
pub mod components;
pub mod graph;
pub mod parse;
pub mod rank;

use crate::centrality::{degree_centrality, is_degree_map, is_path_sum_map, path_sum_centrality};
use crate::graph::Graph;

verus! {

/// CentralityEngine: the two integer centrality mappings of a graph —
/// degree and path-sum — both keyed by external node identifier, in
/// internal node order.
pub fn compute_centralities(g: &Graph) -> (r: (Vec<(usize, u128)>, Vec<(usize, u128)>))
    requires
        g.wf(),
    ensures
        is_degree_map(*g, r.0@),
        is_path_sum_map(*g, r.1@),
{
    let degrees = degree_centrality(g);
    let path_sums = path_sum_centrality(g);
    (degrees, path_sums)
}

} // verus!
