//! Partition refinement with Fiduccia-Mattheyses style boundary moves.
//!
//! After projecting a partition from a coarser graph back to a finer one,
//! this module improves the partition by moving boundary vertices between
//! parts to reduce the edge cut while keeping the parts balanced.
use vstd::prelude::*;

use crate::partition::filled;
use crate::graph::{
    clamp64, lemma_edge_total_mono, lemma_row_weight_mono, lemma_part_weight_le, lemma_part_weight_move, lemma_vertex_total_mono, sat_add,
    sat_sub, Graph,
};

verus! {

/// The balance cap `⌈total · 1.05 / nparts⌉` of a positive total weight; zero
/// when the total is not positive.
pub open spec fn balance_cap(total: int, nparts: int) -> int {
    if total <= 0 {
        0
    } else {
        (total * 105 + 100 * nparts - 1) / (100 * nparts)
    }
}

/// The balance cap of `g`'s total vertex weight split into `nparts` parts.
pub open spec fn weight_cap(g: &Graph, nparts: int) -> int {
    balance_cap(g.vertex_total_upto(g.n as int), nparts)
}

/// No part weighs more after than the larger of `cap` and what it weighed before.
pub open spec fn parts_within(g: &Graph, before: Seq<usize>, after: Seq<usize>, nparts: int, cap: int) -> bool {
    forall|p: int|
        0 <= p < nparts ==> #[trigger] g.part_weight(after, p) <= cap || g.part_weight(after, p)
            <= g.part_weight(before, p)
}

/// The balance cap is never negative.
proof fn lemma_balance_cap_nonneg(total: int, nparts: int)
    requires
        nparts >= 1,
    ensures
        balance_cap(total, nparts) >= 0,
{
    if total > 0 {
        assert((total * 105 + 100 * nparts - 1) / (100 * nparts) >= 0) by (nonlinear_arith)
            requires
                total > 0,
                nparts >= 1,
        ;
    }
}

/// Summed weight of those of the first `k` edges of `u` whose other end is
/// labelled `t`.
pub open spec fn ext_weight(g: &Graph, part: Seq<usize>, u: int, t: int, k: int) -> int
    decreases k,
{
    if k <= 0 {
        0
    } else {
        ext_weight(g, part, u, t, k - 1) + if part[g.nbr(u, k - 1)] == t {
            g.ew(u, k - 1)
        } else {
            0
        }
    }
}

/// Summed weight of the edges of `u` whose other end shares its part.
pub open spec fn int_weight(g: &Graph, part: Seq<usize>, u: int) -> int {
    ext_weight(g, part, u, part[u] as int, g.deg(u))
}

/// Moving `u` to part `t` is a move the refiner takes: `u` has edge weight
/// toward `t`, `t` stays within `cap`, and the gain, the weight toward `t`
/// less the weight inside `u`'s part, is positive.
pub open spec fn positive_move(
    g: &Graph,
    part: Seq<usize>,
    nparts: int,
    cap: int,
    u: int,
    t: int,
) -> bool {
    &&& 0 <= u < g.n
    &&& 0 <= t < nparts
    &&& t != part[u]
    &&& ext_weight(g, part, u, t, g.deg(u)) > 0
    &&& g.part_weight(part, t) + g.vw(u) <= cap
    &&& ext_weight(g, part, u, t, g.deg(u)) - int_weight(g, part, u) > 0
}

/// Some vertex has a move with positive gain that keeps the balance cap.
pub open spec fn has_positive_move(g: &Graph, part: Seq<usize>, nparts: int, cap: int) -> bool {
    exists|u: int, t: int| #[trigger] positive_move(g, part, nparts, cap, u, t)
}

/// Edge weight toward one part is at most the row's weight.
proof fn lemma_ext_weight_le(g: &Graph, part: Seq<usize>, u: int, t: int, k: int)
    requires
        g.wf(),
        g.nonneg_weights(),
        0 <= u < g.n,
        0 <= k <= g.deg(u),
    ensures
        0 <= ext_weight(g, part, u, t, k) <= g.row_weight(u, k),
    decreases k,
{
    if k > 0 {
        lemma_ext_weight_le(g, part, u, t, k - 1);
        assert(g.xadj@[u + 1] <= g.xadj@[g.n as int]);
        if g.adjwgt@.len() != 0 {
            assert(g.adjwgt@[g.xadj@[u] + k - 1] >= 0);
        }
    }
}

/// The most weight any part may hold after a move (5% above perfect balance).
fn max_part_weight(total: i64, nparts: usize) -> (r: i64)
    requires
        nparts >= 1,
    ensures
        r == clamp64(balance_cap(total as int, nparts as int)),
{
    if total <= 0 {
        0
    } else {
        let t: u128 = total as u128;
        let den: u128 = 100 * (nparts as u128);
        let q: u128 = (t * 105 + den - 1) / den;
        if q > i64::MAX as u128 {
            i64::MAX
        } else {
            q as i64
        }
    }
}

/// Refine a k-way partition using boundary FM-style moves.
///
/// Performs up to `max_passes` passes and stops after the first pass that
/// moves nothing. Each pass repeatedly moves the unlocked boundary vertex with
/// the best strictly positive gain to the part that yields it, provided the
/// receiving part stays within the balance cap. Labels stay below `nparts`.
pub fn fm_refine(g: &Graph, part: &mut [usize], nparts: usize, max_passes: usize)
    requires
        g.wf(),
        old(part)@.len() == g.n,
        Graph::labels_below(old(part)@, nparts as int),
    ensures
        final(part)@.len() == g.n,
        Graph::labels_below(final(part)@, nparts as int),
        (g.n == 0 || nparts <= 1 || max_passes == 0) ==> final(part)@ == old(part)@,
        g.weights_fit() ==> parts_within(
            g,
            old(part)@,
            final(part)@,
            nparts as int,
            weight_cap(g, nparts as int),
        ),
        g.weights_fit() && nparts >= 2 && !has_positive_move(
            g,
            old(part)@,
            nparts as int,
            clamp64(weight_cap(g, nparts as int)),
        ) ==> final(part)@ == old(part)@,
{
    if g.n == 0 || nparts <= 1 {
        return;
    }
    let ghost cap = clamp64(weight_cap(g, nparts as int));
    proof {
        lemma_balance_cap_nonneg(g.vertex_total_upto(g.n as int), nparts as int);
    }
    let mut pass: usize = 0;
    let mut go = true;
    while go && pass < max_passes
        invariant
            g.wf(),
            part@.len() == g.n,
            Graph::labels_below(part@, nparts as int),
            nparts >= 2,
            max_passes == 0 ==> part@ == old(part)@,
            cap == clamp64(weight_cap(g, nparts as int)),
            cap <= weight_cap(g, nparts as int),
            g.weights_fit() && !has_positive_move(g, old(part)@, nparts as int, cap) ==> part@
                == old(part)@,
            g.weights_fit() ==> parts_within(g, old(part)@, part@, nparts as int, cap),
        decreases max_passes - pass,
    {
        let ghost before = part@;
        let improved = fm_pass(g, part, nparts);
        proof {
            if g.weights_fit() {
                assert forall|p: int| 0 <= p < nparts implies #[trigger] g.part_weight(part@, p)
                    <= cap || g.part_weight(part@, p) <= g.part_weight(old(part)@, p) by {
                    assert(parts_within(g, before, part@, nparts as int, cap));
                    assert(parts_within(g, old(part)@, before, nparts as int, cap));
                }
            }
        }
        if !improved {
            go = false;
        }
        pass = pass + 1;
    }
    proof {
        if g.weights_fit() {
            assert forall|p: int| 0 <= p < nparts implies #[trigger] g.part_weight(part@, p)
                <= weight_cap(g, nparts as int) || g.part_weight(part@, p) <= g.part_weight(
                old(part)@,
                p,
            ) by {
                assert(parts_within(g, old(part)@, part@, nparts as int, cap));
            }
        }
    }
}

/// Single FM refinement pass. Returns `true` if any vertex was moved; when
/// none was, the partition is left as it was. A vertex only moves into a part
/// that stays within the balance cap.
fn fm_pass(g: &Graph, part: &mut [usize], nparts: usize) -> (improved: bool)
    requires
        g.wf(),
        old(part)@.len() == g.n,
        Graph::labels_below(old(part)@, nparts as int),
        nparts >= 2,
    ensures
        final(part)@.len() == g.n,
        Graph::labels_below(final(part)@, nparts as int),
        !improved ==> final(part)@ == old(part)@,
        g.weights_fit() ==> parts_within(
            g,
            old(part)@,
            final(part)@,
            nparts as int,
            clamp64(weight_cap(g, nparts as int)),
        ),
        g.weights_fit() && !improved ==> !has_positive_move(
            g,
            old(part)@,
            nparts as int,
            clamp64(weight_cap(g, nparts as int)),
        ),
        improved == (final(part)@ != old(part)@),
        g.weights_fit() && improved ==> has_positive_move(
            g,
            old(part)@,
            nparts as int,
            clamp64(weight_cap(g, nparts as int)),
        ),
{
    let n = g.n;
    let ghost cap = clamp64(weight_cap(g, nparts as int));

    // Compute part weights
    let mut part_weight: Vec<i64> = filled(0i64, nparts);
    let mut u: usize = 0;
    while u < n
        invariant
            g.wf(),
            n == g.n,
            u <= n,
            part@ == old(part)@,
            part@.len() == n,
            Graph::labels_below(part@, nparts as int),
            part_weight@.len() == nparts,
            g.weights_fit() ==> forall|r: int|
                0 <= r < nparts ==> #[trigger] part_weight@[r] == g.part_weight_upto(
                    part@,
                    r,
                    u as int,
                ),
        decreases n - u,
    {
        let p = part[u];
        let vw = g.vertex_weight(u);
        proof {
            if g.weights_fit() {
                lemma_part_weight_le(g, part@, p as int, u + 1);
                lemma_vertex_total_mono(g, u + 1, n as int);
            }
        }
        part_weight.set(p, sat_add(part_weight[p], vw));
        proof {
            if g.weights_fit() {
                assert forall|r: int| 0 <= r < nparts implies #[trigger] part_weight@[r]
                    == g.part_weight_upto(part@, r, u + 1) by {}
            }
        }
        u = u + 1;
    }
    let mut total_weight: i64 = 0;
    let mut u: usize = 0;
    while u < n
        invariant
            g.wf(),
            n == g.n,
            u <= n,
            g.weights_fit() ==> total_weight == g.vertex_total_upto(u as int),
        decreases n - u,
    {
        proof {
            if g.weights_fit() {
                lemma_vertex_total_mono(g, u + 1, n as int);
            }
        }
        total_weight = sat_add(total_weight, g.vertex_weight(u));
        u = u + 1;
    }
    let max_part_weight = max_part_weight(total_weight, nparts);

    let mut improved = false;
    let mut locked: Vec<bool> = filled(false, n);
    let mut go = true;
    let mut iter: usize = 0;
    // Iterate: find the best move among all boundary vertices
    while go && iter < n
        invariant
            g.wf(),
            n == g.n,
            part@.len() == n,
            locked@.len() == n,
            part_weight@.len() == nparts,
            nparts >= 2,
            Graph::labels_below(part@, nparts as int),
            !improved ==> part@ == old(part)@,
            g.weights_fit() ==> max_part_weight == cap,
            g.weights_fit() ==> forall|r: int|
                0 <= r < nparts ==> #[trigger] part_weight@[r] == g.part_weight(part@, r),
            g.weights_fit() ==> parts_within(g, old(part)@, part@, nparts as int, cap),
            !improved ==> forall|x: int| 0 <= x < n ==> !#[trigger] locked@[x],
            forall|x: int| 0 <= x < n && !#[trigger] locked@[x] ==> part@[x] == old(part)@[x],
            forall|x: int| 0 <= x < n && #[trigger] locked@[x] ==> part@[x] != old(part)@[x],
            improved ==> exists|x: int| 0 <= x < n && #[trigger] locked@[x],
            g.weights_fit() && improved ==> has_positive_move(g, old(part)@, nparts as int, cap),
            old(part)@.len() == n,
            !improved ==> iter == 0 || !go,
            g.weights_fit() && !improved && !go ==> !has_positive_move(
                g,
                part@,
                nparts as int,
                cap,
            ),
        decreases n - iter,
    {
        let mut found = false;
        let mut best_u: usize = 0;
        let mut best_to: usize = 0;
        let mut best_gain: i64 = i64::MIN;

        let mut u: usize = 0;
        while u < n
            invariant
                g.wf(),
                n == g.n,
                part@.len() == n,
                locked@.len() == n,
                part_weight@.len() == nparts,
                Graph::labels_below(part@, nparts as int),
                found ==> best_u < n && best_to < nparts && best_to != part@[best_u as int]
                    && clamp64(part_weight@[best_to as int] + g.vw(best_u as int))
                    <= max_part_weight,
                found ==> !locked@[best_u as int],
                g.weights_fit() && found && best_gain > 0 ==> positive_move(
                    g,
                    part@,
                    nparts as int,
                    cap,
                    best_u as int,
                    best_to as int,
                ),
                u <= n,
                nparts >= 2,
                !found ==> best_gain == i64::MIN,
                g.weights_fit() ==> max_part_weight == cap,
                g.weights_fit() ==> forall|r: int|
                    0 <= r < nparts ==> #[trigger] part_weight@[r] == g.part_weight(part@, r),
                g.weights_fit() ==> forall|u2: int, t2: int|
                    0 <= u2 < u && !locked@[u2] && #[trigger] positive_move(
                        g,
                        part@,
                        nparts as int,
                        cap,
                        u2,
                        t2,
                    ) ==> found && best_gain > 0,
            decreases n - u,
        {
            if !locked[u] {
                let from = part[u];

                // Compute external edge weight per part
                let mut ext: Vec<i64> = filled(0i64, nparts);
                let mut internal: i64 = 0;
                let d = g.degree(u);
                let mut k: usize = 0;
                while k < d
                    invariant
                        g.wf(),
                        n == g.n,
                        u < n,
                        d == g.deg(u as int),
                        k <= d,
                        part@.len() == n,
                        Graph::labels_below(part@, nparts as int),
                        ext@.len() == nparts,
                        from == part@[u as int],
                        g.weights_fit() ==> internal == ext_weight(
                            g,
                            part@,
                            u as int,
                            from as int,
                            k as int,
                        ),
                        g.weights_fit() ==> forall|t: int|
                            0 <= t < nparts && t != from ==> #[trigger] ext@[t] == ext_weight(
                                g,
                                part@,
                                u as int,
                                t,
                                k as int,
                            ),
                    decreases d - k,
                {
                    let v = g.adjncy[g.xadj[u] + k];
                    let w = g.edge_weight(u, k);
                    let pv = part[v];
                    proof {
                        if g.weights_fit() {
                            assert(v as int == g.nbr(u as int, k as int));
                            lemma_ext_weight_le(g, part@, u as int, pv as int, (k + 1) as int);
                            lemma_row_weight_mono(g, u as int, (k + 1) as int, d as int);
                            lemma_edge_total_mono(g, u as int, (u + 1) as int);
                            lemma_edge_total_mono(g, (u + 1) as int, n as int);
                        }
                    }
                    if pv == from {
                        internal = sat_add(internal, w);
                    } else {
                        ext.set(pv, sat_add(ext[pv], w));
                    }
                    proof {
                        if g.weights_fit() {
                            assert forall|t: int| 0 <= t < nparts && t != from implies #[trigger] ext@[t]
                                == ext_weight(g, part@, u as int, t, (k + 1) as int) by {}
                        }
                    }
                    k = k + 1;
                }

                // Check if this is a boundary vertex
                let mut is_boundary = false;
                let mut t: usize = 0;
                while t < nparts
                    invariant
                        ext@.len() == nparts,
                        forall|t2: int| 0 <= t2 < t && #[trigger] ext@[t2] > 0 ==> is_boundary,
                    decreases nparts - t,
                {
                    if ext[t] > 0 {
                        is_boundary = true;
                    }
                    t = t + 1;
                }

                proof {
                    if g.weights_fit() && !is_boundary {
                        assert forall|t2: int| #[trigger] positive_move(
                            g,
                            part@,
                            nparts as int,
                            cap,
                            u as int,
                            t2,
                        ) implies false by {
                            assert(ext@[t2] > 0);
                        }
                    }
                }
                if is_boundary {
                    let vw = g.vertex_weight(u);
                    // Try moving to each neighboring part
                    let mut to: usize = 0;
                    while to < nparts
                        invariant
                            g.wf(),
                            ext@.len() == nparts,
                            part_weight@.len() == nparts,
                            u < n,
                            n == g.n,
                            part@.len() == n,
                            from == part@[u as int],
                            vw == g.vw(u as int),
                            found ==> best_u < n && best_to < nparts && best_to != part@[best_u as int]
                                && clamp64(part_weight@[best_to as int] + g.vw(best_u as int))
                                <= max_part_weight,
                            found ==> !locked@[best_u as int],
                            !locked@[u as int],
                            g.weights_fit() && found && best_gain > 0 ==> positive_move(
                                g,
                                part@,
                                nparts as int,
                                cap,
                                best_u as int,
                                best_to as int,
                            ),
                            nparts >= 2,
                            locked@.len() == n,
                            !found ==> best_gain == i64::MIN,
                            g.weights_fit() ==> max_part_weight == cap,
                            g.weights_fit() ==> forall|r: int|
                                0 <= r < nparts ==> #[trigger] part_weight@[r] == g.part_weight(
                                    part@,
                                    r,
                                ),
                            g.weights_fit() ==> internal == int_weight(g, part@, u as int),
                            g.weights_fit() ==> forall|t: int|
                                0 <= t < nparts && t != from ==> #[trigger] ext@[t] == ext_weight(
                                    g,
                                    part@,
                                    u as int,
                                    t,
                                    g.deg(u as int),
                                ),
                            g.weights_fit() ==> forall|u2: int, t2: int|
                                0 <= u2 < u && !locked@[u2] && #[trigger] positive_move(
                                    g,
                                    part@,
                                    nparts as int,
                                    cap,
                                    u2,
                                    t2,
                                ) ==> found && best_gain > 0,
                            g.weights_fit() ==> forall|t2: int|
                                0 <= t2 < to && #[trigger] positive_move(
                                    g,
                                    part@,
                                    nparts as int,
                                    cap,
                                    u as int,
                                    t2,
                                ) ==> found && best_gain > 0,
                        decreases nparts - to,
                    {
                        proof {
                            if g.weights_fit() {
                                lemma_part_weight_le(g, part@, to as int, n as int);
                                lemma_part_weight_move(g, part@, u as int, to, to as int, n as int);
                                lemma_part_weight_le(
                                    g,
                                    part@.update(u as int, to),
                                    to as int,
                                    n as int,
                                );
                                if g.vwgt@.len() != 0 {
                                    assert(g.vwgt@[u as int] >= 0);
                                }
                                lemma_ext_weight_le(g, part@, u as int, to as int, g.deg(u as int));
                                lemma_ext_weight_le(g, part@, u as int, from as int, g.deg(u as int));
                                lemma_row_weight_mono(g, u as int, 0, g.deg(u as int));
                                lemma_edge_total_mono(g, u as int, (u + 1) as int);
                                lemma_edge_total_mono(g, (u + 1) as int, n as int);
                            }
                        }
                        // Balance check: would `to` exceed the cap?
                        let new_weight = sat_add(part_weight[to], vw);
                        if to != from && ext[to] != 0 && new_weight <= max_part_weight {
                            // Gain = external edges to `to` - internal edges in `from`
                            let gain = sat_sub(ext[to], internal);
                            proof {
                                if g.weights_fit() {
                                    lemma_ext_weight_le(
                                        g,
                                        part@,
                                        u as int,
                                        to as int,
                                        g.deg(u as int),
                                    );
                                    lemma_ext_weight_le(
                                        g,
                                        part@,
                                        u as int,
                                        from as int,
                                        g.deg(u as int),
                                    );
                                    lemma_row_weight_mono(g, u as int, 0, g.deg(u as int));
                                    lemma_edge_total_mono(g, u as int, (u + 1) as int);
                                    lemma_edge_total_mono(g, (u + 1) as int, n as int);
                                    if positive_move(
                                        g,
                                        part@,
                                        nparts as int,
                                        cap,
                                        u as int,
                                        to as int,
                                    ) {
                                        assert(ext@[to as int] as int == ext_weight(
                                            g,
                                            part@,
                                            u as int,
                                            to as int,
                                            g.deg(u as int),
                                        ));
                                        assert(gain > 0);
                                    }
                                }
                            }
                            if gain > best_gain {
                                best_gain = gain;
                                best_u = u;
                                best_to = to;
                                found = true;
                                proof {
                                    if g.weights_fit() && gain > 0 {
                                        assert(ext@[to as int] as int == ext_weight(
                                            g,
                                            part@,
                                            u as int,
                                            to as int,
                                            g.deg(u as int),
                                        ));
                                        assert(new_weight == part_weight@[to as int] + vw);
                                        assert(positive_move(
                                            g,
                                            part@,
                                            nparts as int,
                                            cap,
                                            u as int,
                                            to as int,
                                        ));
                                    }
                                }
                            }
                        }
                        proof {
                            if g.weights_fit() && positive_move(
                                g,
                                part@,
                                nparts as int,
                                cap,
                                u as int,
                                to as int,
                            ) {
                                assert(ext@[to as int] as int == ext_weight(
                                    g,
                                    part@,
                                    u as int,
                                    to as int,
                                    g.deg(u as int),
                                ));
                                assert(part_weight@[to as int] == g.part_weight(part@, to as int));
                                assert(new_weight == part_weight@[to as int] + vw);
                                assert(new_weight <= max_part_weight);
                                assert(ext@[to as int] != 0);
                                assert(found && best_gain > 0);
                            }
                        }
                        to = to + 1;
                    }
                }
            }
            u = u + 1;
        }

        if found && best_gain > 0 {
            let ghost before = part@;
            let ghost was_improved = improved;
            let ghost locked0 = locked@;
            let from = part[best_u];
            let vw = g.vertex_weight(best_u);
            proof {
                if g.weights_fit() {
                    let after = before.update(best_u as int, best_to);
                    lemma_part_weight_move(g, before, best_u as int, best_to, from as int, n as int);
                    lemma_part_weight_move(
                        g,
                        before,
                        best_u as int,
                        best_to,
                        best_to as int,
                        n as int,
                    );
                    lemma_part_weight_le(g, after, from as int, n as int);
                    lemma_part_weight_le(g, after, best_to as int, n as int);
                    if g.vwgt@.len() != 0 {
                        assert(g.vwgt@[best_u as int] >= 0);
                    }
                    assert(g.vw(best_u as int) >= 0);
                    assert(part_weight@[best_to as int] == g.part_weight(before, best_to as int));
                    assert(g.part_weight(after, best_to as int) <= cap);
                    assert(g.part_weight(after, from as int) <= g.part_weight(before, from as int));
                }
            }
            part_weight.set(from, sat_sub(part_weight[from], vw));
            part_weight.set(best_to, sat_add(part_weight[best_to], vw));
            part[best_u] = best_to;
            proof {
                if g.weights_fit() {
                    assert forall|r: int| 0 <= r < nparts implies #[trigger] part_weight@[r]
                        == g.part_weight(part@, r) by {
                        lemma_part_weight_move(g, before, best_u as int, best_to, r, n as int);
                    }
                    assert forall|r: int| 0 <= r < nparts implies #[trigger] g.part_weight(part@, r)
                        <= cap || g.part_weight(part@, r) <= g.part_weight(old(part)@, r) by {
                        lemma_part_weight_move(g, before, best_u as int, best_to, r, n as int);
                        assert(parts_within(g, old(part)@, before, nparts as int, cap));
                        assert(part@ == before.update(best_u as int, best_to));
                        assert(g.part_weight(before, r) <= cap || g.part_weight(before, r)
                            <= g.part_weight(old(part)@, r));
                        if r != best_to as int {
                            assert(g.part_weight(part@, r) <= g.part_weight(before, r));
                        }
                    }
                }
            }
            locked.set(best_u, true);
            improved = true;
            proof {
                assert(locked@[best_u as int]);
                assert forall|x: int| 0 <= x < n && !#[trigger] locked@[x] implies part@[x] == old(
                    part,
                )@[x] by {
                    assert(x != best_u);
                    assert(!locked0[x]);
                }
                assert forall|x: int| 0 <= x < n && #[trigger] locked@[x] implies part@[x] != old(
                    part,
                )@[x] by {
                    if x != best_u {
                        assert(locked0[x]);
                    } else {
                        assert(!locked0[x]);
                        assert(before[x] == old(part)@[x]);
                    }
                }
                if g.weights_fit() && !was_improved {
                    assert(before == old(part)@);
                    assert(positive_move(
                        g,
                        old(part)@,
                        nparts as int,
                        cap,
                        best_u as int,
                        best_to as int,
                    ));
                }
            }
        } else {
            // No profitable move found
            proof {
                if g.weights_fit() && !improved {
                    if has_positive_move(g, part@, nparts as int, cap) {
                        let (u2, t2) = choose|u2: int, t2: int|
                            #[trigger] positive_move(g, part@, nparts as int, cap, u2, t2);
                        assert(!locked@[u2]);
                    }
                }
            }
            go = false;
        }
        iter = iter + 1;
    }

    proof {
        if improved {
            let x = choose|x: int| 0 <= x < n && #[trigger] locked@[x];
            assert(part@[x] != old(part)@[x]);
        }
    }
    improved
}

} // verus!
