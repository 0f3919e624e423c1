//! A multilevel k-way graph partitioner: heavy-edge matching coarsening,
//! greedy graph growing with recursive bisection for the initial partition,
//! and FM-style boundary refinement while uncoarsening.
use vstd::prelude::*;

pub mod coarsen;
pub mod graph;
pub mod kway;
pub mod partition;
pub mod refine;

pub use graph::Graph;
pub use kway::part_kway;

use kway::{is_kway_result, refined_from, COARSEN_THRESHOLD};
use partition::recursive_split;

verus! {

/// Partition a graph into `nparts` parts.
///
/// Returns `(edge_cut, partition)` where:
/// - `edge_cut` is the total weight of edges crossing partition boundaries
/// - `partition[u]` is the 0-based part ID for vertex `u`
pub fn partition(g: &Graph, nparts: usize) -> (r: (i64, Vec<usize>))
    requires
        g.wf(),
        g.weights_fit(),
    ensures
        is_kway_result(g, nparts as int, r.0 as int, r.1@),
        nparts <= 1 ==> r.0 == 0,
        2 <= nparts < g.n && (g.n <= COARSEN_THRESHOLD || g.n <= 2 * nparts) ==> exists|
            start: Seq<usize>,
        |
            #![trigger refined_from(g, nparts as int, start, r.1@)]
            recursive_split(*g, nparts as int, start) && refined_from(
                g,
                nparts as int,
                start,
                r.1@,
            ),
{
    part_kway(g, nparts)
}

} // verus!
