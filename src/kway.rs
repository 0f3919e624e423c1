//! K-way partitioning via recursive bisection with multilevel refinement.
//!
//! This is the main entry point that orchestrates coarsening, initial
//! partitioning, projection, and refinement.
use vstd::prelude::*;

use crate::coarsen::{fine_n, is_level_stack, level_ok, multilevel_coarsen, top_n};
use crate::graph::{clamp64, lemma_uniform_cut_zero, Graph};
use crate::partition::{filled, initial_partition, recursive_split};
use crate::refine::{fm_refine, has_positive_move, parts_within, weight_cap};

verus! {

/// Default coarsening threshold: stop when graph has this many vertices or fewer.
pub const COARSEN_THRESHOLD: usize = 20;

/// Default number of FM refinement passes per level.
const REFINE_PASSES: usize = 10;

/// What the partitioner returns on `(g, nparts)`: a label below `nparts` for
/// every vertex (all zero when `nparts <= 1`), each vertex its own part when
/// there are no more vertices than parts, and the edge cut of that labelling.
pub open spec fn is_kway_result(g: &Graph, nparts: int, cut: int, part: Seq<usize>) -> bool {
    &&& part.len() == g.n
    &&& Graph::labels_below(part, if nparts <= 1 { 1 } else { nparts })
    &&& nparts <= 1 ==> forall|u: int| 0 <= u < g.n ==> #[trigger] part[u] == 0
    &&& (1 < nparts && g.n <= nparts) ==> forall|u: int| 0 <= u < g.n ==> #[trigger] part[u] == u
    &&& cut == g.edge_cut_spec(part)
}

/// `part` is what the refiner may return from `start` on `g`: labels below
/// `nparts`, no part heavier than the larger of the balance cap and its
/// weight in `start`, and `start` itself when it admits no move with
/// positive gain.
pub open spec fn refined_from(g: &Graph, nparts: int, start: Seq<usize>, part: Seq<usize>) -> bool {
    &&& start.len() == g.n
    &&& Graph::labels_below(start, nparts)
    &&& parts_within(g, start, part, nparts, weight_cap(g, nparts))
    &&& !has_positive_move(g, start, nparts, clamp64(weight_cap(g, nparts))) ==> part == start
}

/// Some vertex is labelled `p`.
pub open spec fn part_is_used(part: Seq<usize>, p: int) -> bool {
    exists|u: int| 0 <= u < part.len() && part[u] == p
}

/// With exactly as many vertices as parts, and at least two parts, every part
/// of a partitioner result holds a vertex.
pub proof fn lemma_parts_used_when_n_is_k(g: &Graph, nparts: int, cut: int, part: Seq<usize>)
    requires
        is_kway_result(g, nparts, cut, part),
        nparts >= 2,
        g.n == nparts,
    ensures
        forall|p: int| 0 <= p < nparts ==> #[trigger] part_is_used(part, p),
{
    assert forall|p: int| 0 <= p < nparts implies #[trigger] part_is_used(part, p) by {
        assert(part[p] == p);
    }
}

/// Partition a graph into `nparts` parts using multilevel k-way partitioning.
///
/// Returns `(edge_cut, partition)` where `partition[u]` is the 0-based
/// part ID for vertex `u`.
///
/// 1. Coarsening: repeatedly contract the graph via heavy-edge matching
///    until it has at most `max(COARSEN_THRESHOLD, 2 * nparts)` vertices.
/// 2. Initial partitioning: partition the coarsest graph using recursive
///    greedy graph growing, then refine it.
/// 3. Uncoarsening: project the partition back through each coarsening
///    level, running FM boundary refinement at each step.
pub fn part_kway(g: &Graph, nparts: usize) -> (r: (i64, Vec<usize>))
    requires
        g.wf(),
        g.weights_fit(),
    ensures
        is_kway_result(g, nparts as int, r.0 as int, r.1@),
        nparts <= 1 ==> r.0 == 0,
        2 <= nparts < g.n && (g.n <= COARSEN_THRESHOLD || g.n <= 2 * nparts) ==> exists|
            start: Seq<usize>,
        |
            #![trigger refined_from(g, nparts as int, start, r.1@)]
            recursive_split(*g, nparts as int, start) && refined_from(
                g,
                nparts as int,
                start,
                r.1@,
            ),
{
    if g.n == 0 {
        return (0, Vec::new());
    }
    if nparts <= 1 {
        let part = filled(0, g.n);
        proof {
            lemma_uniform_cut_zero(g, part@, 0);
        }
        return (0, part);
    }
    if g.n <= nparts {
        let mut part: Vec<usize> = Vec::new();
        let mut u: usize = 0;
        while u < g.n
            invariant
                u <= g.n,
                g.n <= nparts,
                part@.len() == u,
                forall|v: int| 0 <= v < u ==> #[trigger] part@[v] == v,
            decreases g.n - u,
        {
            part.push(u);
            u = u + 1;
        }
        let cut = g.edge_cut(part.as_slice());
        return (cut, part);
    }

    // Phase 1: Coarsen
    let twice: usize = if nparts > usize::MAX / 2 {
        usize::MAX
    } else {
        nparts * 2
    };
    let threshold: usize = if twice > COARSEN_THRESHOLD {
        twice
    } else {
        COARSEN_THRESHOLD
    };
    let levels = multilevel_coarsen(g, threshold);

    // Phase 2: Initial partition of the coarsest graph
    let nlev = levels.len();
    let coarsest: &Graph = if nlev == 0 {
        g
    } else {
        &levels[nlev - 1].graph
    };
    proof {
        if nlev > 0 {
            assert(level_ok(g, levels@, nlev - 1));
        }
    }

    let mut current_part = initial_partition(coarsest, nparts);
    let ghost start = current_part@;
    fm_refine(coarsest, current_part.as_mut_slice(), nparts, REFINE_PASSES);
    proof {
        if g.n <= COARSEN_THRESHOLD || g.n <= 2 * nparts {
            assert(g.n <= threshold);
            if nlev > 0 {
                assert(fine_n(g, levels@, 0) > threshold);
            }
            assert(nlev == 0);
            assert(refined_from(g, nparts as int, start, current_part@));
            assert(recursive_split(*g, nparts as int, start));
        }
    }
    let ghost refined0 = current_part@;

    // Phase 3: Uncoarsen and refine. levels[0].cmap maps the vertices of `g`
    // to those of levels[0].graph, levels[i].cmap those of levels[i - 1].graph
    // to those of levels[i].graph: project back in reverse order.
    let mut i: usize = nlev;
    while i > 0
        invariant
            g.wf(),
            nparts >= 2,
            nlev == levels@.len(),
            i <= nlev,
            is_level_stack(g, levels@),
            current_part@.len() == fine_n(g, levels@, i as int),
            Graph::labels_below(current_part@, nparts as int),
            i == nlev ==> current_part@ == refined0,
            (nlev == 0 && 2 <= nparts < g.n) ==> recursive_split(*g, nparts as int, start)
                && refined_from(g, nparts as int, start, refined0),
        decreases i,
    {
        i = i - 1;
        let level = &levels[i];
        let fine_graph: &Graph = if i == 0 {
            g
        } else {
            &levels[i - 1].graph
        };
        proof {
            assert(level_ok(g, levels@, i as int));
            if i > 0 {
                assert(level_ok(g, levels@, i - 1));
            }
        }

        let fine_n_here = fine_graph.n;
        let mut fine_part: Vec<usize> = Vec::new();
        let mut u: usize = 0;
        while u < fine_n_here
            invariant
                u <= fine_n_here,
                fine_n_here == fine_graph.n,
                level.contracts(fine_graph.n as int),
                current_part@.len() == level.nc,
                Graph::labels_below(current_part@, nparts as int),
                fine_part@.len() == u,
                Graph::labels_below(fine_part@, nparts as int),
            decreases fine_n_here - u,
        {
            fine_part.push(current_part[level.cmap[u]]);
            u = u + 1;
        }

        fm_refine(fine_graph, fine_part.as_mut_slice(), nparts, REFINE_PASSES);
        current_part = fine_part;
    }

    proof {
        if g.n <= COARSEN_THRESHOLD || g.n <= 2 * nparts {
            assert(nlev == 0);
            assert(refined_from(g, nparts as int, start, current_part@));
            assert(recursive_split(*g, nparts as int, start));
        }
    }
    let ghost final_part = current_part@;
    let cut = g.edge_cut(current_part.as_slice());
    let r = (cut, current_part);
    proof {
        if 2 <= nparts < g.n && (g.n <= COARSEN_THRESHOLD || g.n <= 2 * nparts) {
            assert(r.1@ == final_part);
            assert(recursive_split(*g, nparts as int, start));
            assert(refined_from(g, nparts as int, start, final_part));
            assert(refined_from(g, nparts as int, start, r.1@));
            assert(exists|st: Seq<usize>|
                #![trigger refined_from(g, nparts as int, st, r.1@)]
                recursive_split(*g, nparts as int, st) && refined_from(
                    g,
                    nparts as int,
                    st,
                    r.1@,
                ));
        }
    }
    r
}

} // verus!
