//! Initial partitioning of small (coarsened) graphs.
//!
//! Implements greedy graph growing (GGP) bisection and recursive bisection
//! for the coarsest graph in the multilevel hierarchy.
use vstd::prelude::*;

use crate::graph::{
    lemma_cut_upto_le, lemma_edge_total_mono, lemma_row_weight_mono, lemma_part_weight_le, lemma_part_weight_move, lemma_vertex_total_mono, sat_add, Graph,
};

verus! {

/// A vector of `n` copies of `x`.
pub fn filled<T: Copy>(x: T, n: usize) -> (r: Vec<T>)
    ensures
        r@.len() == n,
        forall|i: int| 0 <= i < n ==> #[trigger] r@[i] == x,
{
    let mut r: Vec<T> = Vec::new();
    let mut i: usize = 0;
    while i < n
        invariant
            i <= n,
            r@.len() == i,
            forall|j: int| 0 <= j < i ==> #[trigger] r@[j] == x,
        decreases n - i,
    {
        r.push(x);
        i = i + 1;
    }
    r
}

/// Bisect a small graph using greedy graph growing.
///
/// Returns a partition vector where each entry is 0 or 1. Seeds are tried
/// from `0`, `n / 2`, `n - 1` and the four vertices of highest weighted
/// degree (ties to the lower index), in ascending order without repeats; the
/// bisection with the smallest edge cut wins, the first one on ties.
pub fn initial_bisection(g: &Graph) -> (r: Vec<usize>)
    requires
        g.wf(),
    ensures
        r@.len() == g.n,
        Graph::labels_below(r@, 2),
        g.n == 1 ==> r@[0] == 0,
        g.weights_fit() ==> half_reached(g, r@),
        g.weights_fit() && g.n >= 2 ==> exists|s: int|
            0 <= s < g.n && r@ == grow_spec(g, s) && is_best_seed(g, s),
{
    let n = g.n;
    if n == 0 {
        return Vec::new();
    }
    if n == 1 {
        return filled(0, 1);
    }

    // Candidate seeds, marked in a vector so that they come out ascending
    // and without repeats.
    let mut is_seed: Vec<bool> = filled(false, n);
    is_seed.set(0, true);
    is_seed.set(n / 2, true);
    is_seed.set(n - 1, true);

    // Add the top-degree vertices
    let mut wdeg: Vec<i64> = Vec::new();
    let mut u: usize = 0;
    while u < n
        invariant
            g.wf(),
            n == g.n,
            u <= n,
            wdeg@.len() == u,
            g.weights_fit() ==> forall|j: int| 0 <= j < u ==> #[trigger] wdeg@[j] == weighted_deg(g, j),
        decreases n - u,
    {
        wdeg.push(g.weighted_degree(u));
        u = u + 1;
    }
    let mut taken: Vec<bool> = filled(false, n);
    proof {
        assert(taken@ =~= top_taken(g, 0));
    }
    let mut round: usize = 0;
    while round < 4
        invariant
            n == g.n,
            n >= 2,
            wdeg@.len() == n,
            taken@.len() == n,
            is_seed@.len() == n,
            is_seed@[0] && is_seed@[(n / 2) as int] && is_seed@[n - 1],
            round <= 4,
            g.weights_fit() ==> forall|j: int| 0 <= j < n ==> #[trigger] wdeg@[j] == weighted_deg(g, j),
            g.weights_fit() ==> taken@ == top_taken(g, round as nat),
            forall|v: int|
                0 <= v < n ==> #[trigger] is_seed@[v] == (v == 0 || v == n / 2 || v == n - 1
                    || taken@[v]),
        decreases 4 - round,
    {
        let mut found = false;
        let mut best: usize = 0;
        let mut v: usize = 0;
        while v < n
            invariant
                wdeg@.len() == n,
                taken@.len() == n,
                found ==> best < n,
                v <= n,
                g.weights_fit() ==> forall|j: int| 0 <= j < n ==> #[trigger] wdeg@[j] == weighted_deg(g, j),
                g.weights_fit() ==> (found ==> best as int == top_untaken(g, taken@, v as int)),
                g.weights_fit() ==> (!found ==> top_untaken(g, taken@, v as int) == -1),
            decreases n - v,
        {
            if !taken[v] && (!found || wdeg[v] > wdeg[best]) {
                best = v;
                found = true;
            }
            v = v + 1;
        }
        let ghost t0 = taken@;
        if found {
            taken.set(best, true);
            is_seed.set(best, true);
        }
        proof {
            if g.weights_fit() {
                assert(top_taken(g, (round + 1) as nat) == if top_untaken(g, t0, n as int) < 0 {
                    t0
                } else {
                    t0.update(top_untaken(g, t0, n as int), true)
                });
            }
        }
        round = round + 1;
    }

    let mut best_part = filled(0, n);
    let mut best_cut: i64 = i64::MAX;
    let ghost mut best_seed: int = -1;
    let mut seed: usize = 0;
    while seed < n
        invariant
            g.wf(),
            n == g.n,
            n >= 2,
            seed <= n,
            is_seed@.len() == n,
            is_seed@[0] && is_seed@[(n / 2) as int] && is_seed@[n - 1],
            best_part@.len() == n,
            Graph::labels_below(best_part@, 2),
            g.weights_fit() ==> half_reached(g, best_part@),
            seed == 0 ==> best_cut == i64::MAX,
            g.weights_fit() && seed > 0 ==> 0 <= best_seed < seed && best_part@ == grow_spec(
                g,
                best_seed,
            ) && best_cut == g.edge_cut_spec(best_part@) && is_seed@[best_seed],
            g.weights_fit() ==> forall|s: int|
                0 <= s < seed && #[trigger] is_seed@[s] ==> best_cut <= g.edge_cut_spec(
                    grow_spec(g, s),
                ),
            g.weights_fit() ==> forall|s: int|
                0 <= s < best_seed && #[trigger] is_seed@[s] ==> best_cut < g.edge_cut_spec(
                    grow_spec(g, s),
                ),
            g.weights_fit() ==> taken@ == top_taken(g, 4),
            forall|v: int|
                0 <= v < n ==> #[trigger] is_seed@[v] == (v == 0 || v == n / 2 || v == n - 1
                    || taken@[v]),
            taken@.len() == n,
        decreases n - seed,
    {
        if is_seed[seed] {
            let part = grow_bisection(g, seed);
            let cut = g.edge_cut(part.as_slice());
            proof {
                if g.weights_fit() {
                    lemma_cut_upto_le(g, part@, n as int);
                    assert(cut == g.cut_weight(part@) / 2);
                    assert(cut < i64::MAX);
                    if seed == 0 {
                        assert(best_cut == i64::MAX);
                    }
                }
            }
            if cut < best_cut {
                best_cut = cut;
                best_part = part;
                proof {
                    best_seed = seed as int;
                }
            }
        }
        seed = seed + 1;
    }
    proof {
        if g.weights_fit() {
            assert(is_seed@[0]);
            assert forall|c: int| is_candidate(g, c) == (0 <= c < n && is_seed@[c]) by {
                if 0 <= c < n {
                    assert(is_seed@[c] == (c == 0 || c == n / 2 || c == n - 1 || taken@[c]));
                }
            }
            assert(is_best_seed(g, best_seed));
        }
    }

    best_part
}

/// Summed weight of those of the first `k` edges of `u` that lead into
/// `inside`.
pub open spec fn gain_into(g: &Graph, inside: Seq<bool>, u: int, k: int) -> int
    decreases k,
{
    if k <= 0 {
        0
    } else {
        gain_into(g, inside, u, k - 1) + if inside[g.nbr(u, k - 1)] {
            g.ew(u, k - 1)
        } else {
            0
        }
    }
}

/// Among the vertices `0..i` outside `inside`, the first one with the
/// greatest edge weight into `inside`; -1 when every vertex is inside.
pub open spec fn best_outside(g: &Graph, inside: Seq<bool>, i: int) -> int
    decreases i,
{
    if i <= 0 {
        -1
    } else {
        let b = best_outside(g, inside, i - 1);
        let v = i - 1;
        if inside[v] {
            b
        } else if b < 0 || gain_into(g, inside, v, g.deg(v)) > gain_into(g, inside, b, g.deg(b)) {
            v
        } else {
            b
        }
    }
}

/// Part 0 grown from `inside`, of weight `w`: while it weighs less than
/// `target` (and `fuel` lasts), it takes in `best_outside`; it stops when no
/// vertex is left outside.
pub open spec fn grow_from(g: &Graph, inside: Seq<bool>, w: int, target: int, fuel: nat) -> Seq<
    bool,
>
    decreases fuel,
{
    if fuel == 0 || w >= target {
        inside
    } else {
        let b = best_outside(g, inside, g.n as int);
        if b < 0 {
            inside
        } else {
            grow_from(g, inside.update(b, true), w + g.vw(b), target, (fuel - 1) as nat)
        }
    }
}

/// Of `n` vertices, only `seed`.
pub open spec fn start_set(n: int, seed: int) -> Seq<bool> {
    Seq::new(n as nat, |v: int| v == seed)
}

/// The bisection that greedy growing from `seed` yields: part 0 starts as the
/// seed and grows until it weighs at least half the total (rounded down).
pub open spec fn grow_spec(g: &Graph, seed: int) -> Seq<usize> {
    let inside = grow_from(
        g,
        start_set(g.n as int, seed),
        g.vw(seed),
        g.vertex_total_upto(g.n as int) / 2,
        g.n as nat,
    );
    Seq::new(
        g.n as nat,
        |v: int|
            if inside[v] {
                0usize
            } else {
                1usize
            },
    )
}

/// `part` is stitched from `lp`, a labelling of `lg`, the subgraph of `g`
/// induced by `lv`, and from `rp`, one of `rg`, induced by `rv`: the vertices
/// of `lv` keep their labels from `lp` and are those labelled below `half`;
/// those of `rv` get their labels from `rp` shifted by `half`.
pub open spec fn stitched(
    g: &Graph,
    half: int,
    part: Seq<usize>,
    lv: Seq<usize>,
    rv: Seq<usize>,
    lg: &Graph,
    rg: &Graph,
    lp: Seq<usize>,
    rp: Seq<usize>,
) -> bool {
    &&& ascending(lv)
    &&& ascending(rv)
    &&& forall|u: int| 0 <= u < g.n ==> (#[trigger] part[u] < half) == lv.contains(u as usize)
    &&& forall|u: int| 0 <= u < g.n ==> (#[trigger] part[u] >= half) == rv.contains(u as usize)
    &&& forall|j: int| 0 <= j < lv.len() ==> #[trigger] lv[j] < g.n
    &&& forall|j: int| 0 <= j < rv.len() ==> #[trigger] rv[j] < g.n
    &&& lg.n == lv.len()
    &&& rg.n == rv.len()
    &&& forall|lu: int| 0 <= lu < lg.n ==> #[trigger] is_induced_vertex(lg, g, lv, lu)
    &&& forall|lu: int| 0 <= lu < rg.n ==> #[trigger] is_induced_vertex(rg, g, rv, lu)
    &&& lp.len() == lv.len()
    &&& rp.len() == rv.len()
    &&& forall|j: int| 0 <= j < lv.len() ==> part[#[trigger] lv[j] as int] == lp[j]
    &&& forall|j: int| 0 <= j < rv.len() ==> part[#[trigger] rv[j] as int] == half + rp[j]
}

/// `part` is what recursive bisection gives on `g` with `k` parts: all zeros
/// for at most one part; for two parts, the bisection grown from the best
/// seed (when the weights fit); for more, the stitching of a recursive
/// partition of each side of the bisection into `k / 2` and `k - k / 2` parts.
pub open spec fn recursive_split(g: Graph, k: int, part: Seq<usize>) -> bool
    decreases k,
{
    if k <= 1 {
        forall|u: int| 0 <= u < g.n ==> #[trigger] part[u] == 0
    } else if k == 2 {
        g.weights_fit() && g.n >= 2 ==> exists|s: int|
            0 <= s < g.n && part == grow_spec(&g, s) && is_best_seed(&g, s)
    } else if g.n == 0 {
        part.len() == 0
    } else {
        exists|lv: Seq<usize>, rv: Seq<usize>, lg: Graph, rg: Graph, lp: Seq<usize>, rp: Seq<usize>|
            #[trigger] stitched(&g, k / 2, part, lv, rv, &lg, &rg, lp, rp) && recursive_split(
                lg,
                k / 2,
                lp,
            ) && recursive_split(rg, k - k / 2, rp)
    }
}

/// The labels below `half` are exactly part 0 of `bisect`.
pub open spec fn splits_as(part: Seq<usize>, bisect: Seq<usize>, half: int) -> bool {
    forall|u: int| 0 <= u < part.len() ==> (#[trigger] part[u] < half) == (bisect[u] == 0)
}

/// Weighted degree of `v`.
pub open spec fn weighted_deg(g: &Graph, v: int) -> int {
    g.row_weight(v, g.deg(v))
}

/// Among the vertices `0..i` not marked in `taken`, the first one of greatest
/// weighted degree; -1 when all are taken.
pub open spec fn top_untaken(g: &Graph, taken: Seq<bool>, i: int) -> int
    decreases i,
{
    if i <= 0 {
        -1
    } else {
        let b = top_untaken(g, taken, i - 1);
        let v = i - 1;
        if taken[v] {
            b
        } else if b < 0 || weighted_deg(g, v) > weighted_deg(g, b) {
            v
        } else {
            b
        }
    }
}

/// The vertices marked after `r` rounds of taking the untaken vertex of
/// greatest weighted degree.
pub open spec fn top_taken(g: &Graph, r: nat) -> Seq<bool>
    decreases r,
{
    if r == 0 {
        Seq::new(g.n as nat, |v: int| false)
    } else {
        let t = top_taken(g, (r - 1) as nat);
        let b = top_untaken(g, t, g.n as int);
        if b < 0 {
            t
        } else {
            t.update(b, true)
        }
    }
}

/// `s` is a candidate seed: `0`, `n / 2`, `n - 1`, or one of the four
/// vertices of highest weighted degree (ties to the lower index).
pub open spec fn is_candidate(g: &Graph, s: int) -> bool {
    &&& 0 <= s < g.n
    &&& (s == 0 || s == g.n / 2 || s == g.n - 1 || top_taken(g, 4)[s])
}

/// Edge cut of the bisection grown from `s`.
pub open spec fn seed_cut(g: &Graph, s: int) -> int {
    g.edge_cut_spec(grow_spec(g, s))
}

/// `s` is the candidate whose grown bisection cuts least, the lowest such
/// candidate on ties.
pub open spec fn is_best_seed(g: &Graph, s: int) -> bool {
    &&& is_candidate(g, s)
    &&& forall|c: int| #[trigger] is_candidate(g, c) ==> seed_cut(g, s) <= seed_cut(g, c)
    &&& forall|c: int| #[trigger] is_candidate(g, c) && c < s ==> seed_cut(g, s) < seed_cut(g, c)
}

/// Part 0 of `part` weighs at least half of `g`'s total vertex weight
/// (rounded down), or holds every vertex.
pub open spec fn half_reached(g: &Graph, part: Seq<usize>) -> bool {
    g.part_weight(part, 0) >= g.vertex_total_upto(g.n as int) / 2 || forall|v: int|
        0 <= v < g.n ==> #[trigger] part[v] == 0
}

/// Number of vertices among `0..i` labelled 0.
pub open spec fn zeros_upto(part: Seq<usize>, i: int) -> int
    decreases i,
{
    if i <= 0 {
        0
    } else {
        zeros_upto(part, i - 1) + if part[i - 1] == 0 {
            1int
        } else {
            0
        }
    }
}

/// At most `i` of the vertices `0..i` are labelled 0.
proof fn lemma_zeros_le(part: Seq<usize>, i: int)
    requires
        0 <= i,
    ensures
        0 <= zeros_upto(part, i) <= i,
    decreases i,
{
    if i > 0 {
        lemma_zeros_le(part, i - 1);
    }
}

/// Relabelling a vertex to 0 adds one to the zeros of every prefix holding it.
proof fn lemma_zeros_update(part: Seq<usize>, u: int, i: int)
    requires
        0 <= u < part.len(),
        0 <= i <= part.len(),
        part[u] != 0,
    ensures
        zeros_upto(part.update(u, 0), i) == zeros_upto(part, i) + if u < i {
            1int
        } else {
            0
        },
    decreases i,
{
    if i > 0 {
        lemma_zeros_update(part, u, i - 1);
    }
}

/// Ascending ids are distinct.
proof fn lemma_ascending_distinct(verts: Seq<usize>)
    requires
        ascending(verts),
    ensures
        verts.no_duplicates(),
{
    assert forall|i: int, j: int| 0 <= i < verts.len() && 0 <= j < verts.len() && i != j implies verts[i]
        != verts[j] by {
        if i < j {
            assert(verts[i] < verts[j]);
        } else {
            assert(verts[j] < verts[i]);
        }
    }
}

/// `n` vertices labelled 1 but `seed`, labelled 0.
pub open spec fn start_labels(n: int, seed: int) -> Seq<usize> {
    Seq::new(
        n as nat,
        |v: int|
            if v == seed {
                0usize
            } else {
                1usize
            },
    )
}

/// `n` vertices labelled 1.
pub open spec fn filled_seq_one(n: int) -> Seq<usize> {
    Seq::new(n as nat, |v: int| 1usize)
}

/// With no vertex labelled 0, no prefix has zeros.
proof fn lemma_zeros_none(part: Seq<usize>, i: int)
    requires
        0 <= i <= part.len(),
        forall|v: int| 0 <= v < part.len() ==> #[trigger] part[v] != 0,
    ensures
        zeros_upto(part, i) == 0,
    decreases i,
{
    if i > 0 {
        lemma_zeros_none(part, i - 1);
    }
}

/// Edge weight into a set is at most the row's weight.
proof fn lemma_gain_into_le(g: &Graph, inside: Seq<bool>, u: int, k: int)
    requires
        g.wf(),
        g.nonneg_weights(),
        0 <= u < g.n,
        0 <= k <= g.deg(u),
    ensures
        0 <= gain_into(g, inside, u, k) <= g.row_weight(u, k),
    decreases k,
{
    if k > 0 {
        lemma_gain_into_le(g, inside, u, k - 1);
        assert(g.xadj@[u + 1] <= g.xadj@[g.n as int]);
        if g.adjwgt@.len() != 0 {
            assert(g.adjwgt@[g.xadj@[u] + k - 1] >= 0);
        }
    }
}

/// A part that no vertex of the prefix carries weighs nothing there.
proof fn lemma_part_weight_absent(g: &Graph, part: Seq<usize>, p: int, i: int)
    requires
        0 <= i <= part.len(),
        forall|v: int| 0 <= v < i ==> #[trigger] part[v] != p,
    ensures
        g.part_weight_upto(part, p, i) == 0,
    decreases i,
{
    if i > 0 {
        lemma_part_weight_absent(g, part, p, i - 1);
    }
}

/// Grow a bisection from a given seed vertex: part 0 starts as the seed and
/// repeatedly takes the vertex outside it with the greatest edge weight into
/// it (the lowest index on ties), until its vertex weight reaches half the
/// total or no vertex is left outside it. Every other vertex is in part 1.
fn grow_bisection(g: &Graph, seed: usize) -> (part: Vec<usize>)
    requires
        g.wf(),
        seed < g.n,
    ensures
        part@.len() == g.n,
        Graph::labels_below(part@, 2),
        part@[seed as int] == 0,
        g.weights_fit() ==> half_reached(g, part@),
        g.weights_fit() ==> part@ == grow_spec(g, seed as int),
{
    let n = g.n;
    let mut part = filled(1, n);
    let mut in_part0: Vec<bool> = filled(false, n);

    let mut total_weight: i64 = 0;
    let mut u: usize = 0;
    while u < n
        invariant
            g.wf(),
            n == g.n,
            u <= n,
            g.weights_fit() ==> total_weight == g.vertex_total_upto(u as int),
        decreases n - u,
    {
        proof {
            if g.weights_fit() {
                lemma_vertex_total_mono(g, u + 1, n as int);
            }
        }
        total_weight = sat_add(total_weight, g.vertex_weight(u));
        u = u + 1;
    }
    let target = total_weight / 2;
    let mut weight0: i64 = 0;

    proof {
        lemma_part_weight_absent(g, part@, 0, n as int);
        lemma_part_weight_move(g, part@, seed as int, 0, 0, n as int);
        if g.weights_fit() {
            lemma_part_weight_le(g, part@.update(seed as int, 0), 0, n as int);
        }
    }
    in_part0.set(seed, true);
    part.set(seed, 0);
    weight0 = sat_add(weight0, g.vertex_weight(seed));
    let ghost start = in_part0@;
    let ghost fin = grow_from(g, start, weight0 as int, target as int, n as nat);
    let ghost mut fuel: nat = n as nat;
    let ghost init_w = weight0 as int;
    proof {
        assert(start =~= start_set(n as int, seed as int));
        assert(zeros_upto(part@, n as int) == 1) by {
            lemma_zeros_update(filled_seq_one(n as int), seed as int, n as int);
            lemma_zeros_none(filled_seq_one(n as int), n as int);
            assert(part@ =~= filled_seq_one(n as int).update(seed as int, 0));
        }
        assert(part@ =~= start_labels(n as int, seed as int));
        if g.weights_fit() {
            lemma_part_weight_absent(g, filled_seq_one(n as int), 0, n as int);
            lemma_part_weight_move(g, filled_seq_one(n as int), seed as int, 0, 0, n as int);
            assert(filled_seq_one(n as int).update(seed as int, 0) =~= start_labels(
                n as int,
                seed as int,
            ));
        }
    }

    let mut go = true;
    while go
        invariant
            g.wf(),
            n == g.n,
            seed < n,
            part@.len() == n,
            in_part0@.len() == n,
            Graph::labels_below(part@, 2),
            part@[seed as int] == 0,
            forall|v: int| 0 <= v < n ==> #[trigger] in_part0@[v] == (part@[v] == 0),
            g.weights_fit() ==> weight0 == g.part_weight(part@, 0),
            g.weights_fit() ==> target == g.vertex_total_upto(n as int) / 2,
            g.weights_fit() ==> (!go ==> weight0 >= target || forall|v: int|
                0 <= v < n ==> #[trigger] part@[v] == 0),
            fuel + zeros_upto(part@, n as int) == n + 1,
            g.weights_fit() ==> go ==> grow_from(g, in_part0@, weight0 as int, target as int, fuel)
                == fin,
            g.weights_fit() ==> !go ==> in_part0@ == fin,
        decreases n - zeros_upto(part@, n as int) + if go {
            1int
        } else {
            0
        },
    {
        proof {
            lemma_zeros_le(part@, n as int);
        }
        if weight0 >= target {
            go = false;
        } else {
            let ghost in0 = in_part0@;
            let mut found = false;
            let mut best_u: usize = 0;
            let mut best_gain: i64 = -1;

            let mut u: usize = 0;
            while u < n
                invariant
                    g.wf(),
                    n == g.n,
                    u <= n,
                    in_part0@.len() == n,
                    found ==> best_u < n && !in_part0@[best_u as int],
                    !found ==> best_gain == -1,
                    in_part0@ == in0,
                    g.weights_fit() ==> (found ==> best_u as int == best_outside(g, in0, u as int)
                        && best_gain == gain_into(g, in0, best_u as int, g.deg(best_u as int))),
                    g.weights_fit() ==> (!found ==> best_outside(g, in0, u as int) == -1),
                    g.weights_fit() ==> (!found ==> forall|v: int|
                        0 <= v < u ==> #[trigger] in_part0@[v]),
                decreases n - u,
            {
                if !in_part0[u] {
                    let mut gain: i64 = 0;
                    let d = g.degree(u);
                    let mut k: usize = 0;
                    while k < d
                        invariant
                            g.wf(),
                            n == g.n,
                            u < n,
                            d == g.deg(u as int),
                            k <= d,
                            in_part0@.len() == n,
                            g.weights_fit() ==> gain >= 0,
                            g.weights_fit() ==> gain == gain_into(g, in_part0@, u as int, k as int),
                        decreases d - k,
                    {
                        let v = g.adjncy[g.xadj[u] + k];
                        if in_part0[v] {
                            let w = g.edge_weight(u, k);
                            proof {
                                if g.weights_fit() && g.adjwgt@.len() != 0 {
                                    assert(g.xadj@[u + 1] <= g.xadj@[g.n as int]);
                                    assert(g.adjwgt@[g.xadj@[u as int] + k] >= 0);
                                }
                                if g.weights_fit() {
                                    lemma_gain_into_le(g, in_part0@, u as int, (k + 1) as int);
                                    lemma_row_weight_mono(g, u as int, (k + 1) as int, d as int);
                                    lemma_edge_total_mono(g, u as int, (u + 1) as int);
                                    lemma_edge_total_mono(g, (u + 1) as int, n as int);
                                }
                            }
                            gain = sat_add(gain, w);
                        }
                        k = k + 1;
                    }
                    if gain > best_gain || (gain == best_gain && !found) {
                        best_gain = gain;
                        best_u = u;
                        found = true;
                    }
                }
                u = u + 1;
            }

            if found && (best_gain > 0 || weight0 < target) {
                let ghost before = part@;
                proof {
                    lemma_zeros_update(before, best_u as int, n as int);
                    lemma_part_weight_move(g, before, best_u as int, 0, 0, n as int);
                    if g.weights_fit() {
                        lemma_part_weight_le(g, before.update(best_u as int, 0), 0, n as int);
                    }
                }
                let ghost w_before = weight0 as int;
                in_part0.set(best_u, true);
                part.set(best_u, 0);
                weight0 = sat_add(weight0, g.vertex_weight(best_u));
                proof {
                    lemma_zeros_le(before, n as int);
                    if g.weights_fit() {
                        assert(best_outside(g, in0, n as int) == best_u as int);
                        assert(grow_from(g, in0, w_before, target as int, fuel) == grow_from(
                            g,
                            in0.update(best_u as int, true),
                            w_before + g.vw(best_u as int),
                            target as int,
                            (fuel - 1) as nat,
                        ));
                    }
                    fuel = (fuel - 1) as nat;
                }
            } else {
                proof {
                    if g.weights_fit() {
                        assert forall|v: int| 0 <= v < n implies #[trigger] part@[v] == 0 by {
                            assert(in_part0@[v]);
                        }
                        lemma_zeros_le(part@, n as int);
                        assert(best_outside(g, in0, n as int) == -1);
                    }
                }
                go = false;
            }
        }
    }

    proof {
        if g.weights_fit() {
            assert(init_w == g.part_weight(start_labels(n as int, seed as int), 0));
            assert(g.part_weight(start_labels(n as int, seed as int), 0) == g.vw(seed as int));
            assert(fin == grow_from(
                g,
                start_set(n as int, seed as int),
                g.vw(seed as int),
                g.vertex_total_upto(g.n as int) / 2,
                g.n as nat,
            ));
            assert forall|v: int| 0 <= v < n implies #[trigger] part@[v] == grow_spec(
                g,
                seed as int,
            )[v] by {
                assert(in_part0@[v] == (part@[v] == 0));
                assert(part@[v] < 2);
                assert(in_part0@ == fin);
                assert(grow_spec(g, seed as int)[v] == if fin[v] {
                    0usize
                } else {
                    1usize
                });
            }
            assert(part@ =~= grow_spec(g, seed as int));
        }
    }
    part
}

/// Partition a small graph into `nparts` using recursive bisection.
///
/// With at most one part, or no vertex, every label is 0. With two parts this
/// is `initial_bisection`. Otherwise the two sides of the bisection are
/// partitioned into `nparts / 2` and `nparts - nparts / 2` parts, and the
/// right side's labels are shifted past the left side's.
pub fn initial_partition(g: &Graph, nparts: usize) -> (part: Vec<usize>)
    requires
        g.wf(),
    ensures
        part@.len() == g.n,
        Graph::labels_below(part@, if nparts <= 1 { 1 } else { nparts as int }),
        nparts <= 1 ==> forall|u: int| 0 <= u < g.n ==> #[trigger] part@[u] == 0,
        nparts == 2 && g.weights_fit() ==> half_reached(g, part@),
        nparts == 2 && g.weights_fit() && g.n >= 2 ==> exists|s: int|
            0 <= s < g.n && part@ == grow_spec(g, s) && is_best_seed(g, s),
        nparts > 2 && g.weights_fit() && g.n >= 2 ==> exists|s: int|
            0 <= s < g.n && is_best_seed(g, s) && splits_as(
                part@,
                grow_spec(g, s),
                (nparts / 2) as int,
            ),
        recursive_split(*g, nparts as int, part@),
    decreases nparts,
{
    if nparts <= 1 || g.n == 0 {
        return filled(0, g.n);
    }

    let bisect = initial_bisection(g);

    if nparts == 2 {
        return bisect;
    }

    // Recursive bisection: split into two subsets, then partition each
    let left_parts = nparts / 2;
    let right_parts = nparts - left_parts;

    // Collect vertices for each side
    let mut left_verts: Vec<usize> = Vec::new();
    let mut right_verts: Vec<usize> = Vec::new();
    let mut u: usize = 0;
    while u < g.n
        invariant
            g.wf(),
            bisect@.len() == g.n,
            u <= g.n,
            forall|i: int| 0 <= i < left_verts@.len() ==> #[trigger] left_verts@[i] < u,
            forall|i: int| 0 <= i < right_verts@.len() ==> #[trigger] right_verts@[i] < u,
            ascending(left_verts@),
            ascending(right_verts@),
            forall|j: int| 0 <= j < left_verts@.len() ==> bisect@[#[trigger] left_verts@[j] as int] == 0,
            forall|j: int| 0 <= j < right_verts@.len() ==> bisect@[#[trigger] right_verts@[j] as int] == 1,
            forall|v: int| 0 <= v < u && bisect@[v] == 0 ==> #[trigger] left_verts@.contains(v as usize),
            forall|v: int| 0 <= v < u && bisect@[v] == 1 ==> #[trigger] right_verts@.contains(v as usize),
        decreases g.n - u,
    {
        let ghost l0 = left_verts@;
        let ghost r0 = right_verts@;
        if bisect[u] == 0 {
            left_verts.push(u);
        } else if bisect[u] == 1 {
            right_verts.push(u);
        }
        proof {
            assert forall|v: int| 0 <= v < u + 1 && bisect@[v] == 0 implies #[trigger] left_verts@.contains(
                v as usize,
            ) by {
                if v < u {
                    assert(l0.contains(v as usize));
                    let j = choose|j: int| 0 <= j < l0.len() && l0[j] == v as usize;
                    assert(left_verts@[j] == v as usize);
                } else {
                    assert(left_verts@[left_verts@.len() - 1] == v as usize);
                }
            }
            assert forall|v: int| 0 <= v < u + 1 && bisect@[v] == 1 implies #[trigger] right_verts@.contains(
                v as usize,
            ) by {
                if v < u {
                    assert(r0.contains(v as usize));
                    let j = choose|j: int| 0 <= j < r0.len() && r0[j] == v as usize;
                    assert(right_verts@[j] == v as usize);
                } else {
                    assert(right_verts@[right_verts@.len() - 1] == v as usize);
                }
            }
        }
        u = u + 1;
    }

    // Build subgraphs and recursively partition
    proof {
        lemma_ascending_distinct(left_verts@);
        lemma_ascending_distinct(right_verts@);
    }
    let left_sub = build_subgraph(g, &left_verts);
    let right_sub = build_subgraph(g, &right_verts);

    let left_part = initial_partition(&left_sub, left_parts);
    let right_part = initial_partition(&right_sub, right_parts);

    // Map back to the vertex ids of `g`
    let mut part = filled(0, g.n);
    let mut i: usize = 0;
    while i < left_verts.len()
        invariant
            part@.len() == g.n,
            left_part@.len() == left_verts@.len(),
            forall|j: int| 0 <= j < left_verts@.len() ==> #[trigger] left_verts@[j] < g.n,
            Graph::labels_below(left_part@, left_parts as int),
            Graph::labels_below(part@, nparts as int),
            left_parts <= nparts,
            i <= left_verts@.len(),
            ascending(left_verts@),
            forall|j: int| 0 <= j < i ==> part@[#[trigger] left_verts@[j] as int] < left_parts,
            forall|j: int| 0 <= j < i ==> part@[#[trigger] left_verts@[j] as int] == left_part@[j],
        decreases left_verts@.len() - i,
    {
        part.set(left_verts[i], left_part[i]);
        proof {
            assert forall|j: int| 0 <= j < i + 1 implies part@[#[trigger] left_verts@[j] as int]
                < left_parts by {
                if j < i {
                    assert(left_verts@[j] < left_verts@[i as int]);
                }
            }
            assert forall|j: int| 0 <= j < i + 1 implies part@[#[trigger] left_verts@[j] as int]
                == left_part@[j] by {
                if j < i {
                    assert(left_verts@[j] < left_verts@[i as int]);
                }
            }
        }
        i = i + 1;
    }
    let mut i: usize = 0;
    while i < right_verts.len()
        invariant
            part@.len() == g.n,
            right_part@.len() == right_verts@.len(),
            forall|j: int| 0 <= j < right_verts@.len() ==> #[trigger] right_verts@[j] < g.n,
            Graph::labels_below(right_part@, right_parts as int),
            Graph::labels_below(part@, nparts as int),
            left_parts + right_parts == nparts,
            i <= right_verts@.len(),
            ascending(right_verts@),
            bisect@.len() == g.n,
            forall|j: int| 0 <= j < left_verts@.len() ==> bisect@[#[trigger] left_verts@[j] as int] == 0,
            forall|j: int| 0 <= j < right_verts@.len() ==> bisect@[#[trigger] right_verts@[j] as int] == 1,
            forall|j: int| 0 <= j < left_verts@.len() ==> #[trigger] left_verts@[j] < g.n,
            forall|j: int| 0 <= j < left_verts@.len() ==> part@[#[trigger] left_verts@[j] as int] < left_parts,
            forall|j: int| 0 <= j < i ==> part@[#[trigger] right_verts@[j] as int] >= left_parts,
            forall|j: int| 0 <= j < left_verts@.len() ==> part@[#[trigger] left_verts@[j] as int] == left_part@[j],
            forall|j: int| 0 <= j < i ==> part@[#[trigger] right_verts@[j] as int] == left_parts + right_part@[j],
        decreases right_verts@.len() - i,
    {
        part.set(right_verts[i], left_parts + right_part[i]);
        proof {
            assert forall|j: int| 0 <= j < i + 1 implies part@[#[trigger] right_verts@[j] as int]
                >= left_parts by {
                if j < i {
                    assert(right_verts@[j] < right_verts@[i as int]);
                }
            }
            assert forall|j: int| 0 <= j < left_verts@.len() implies part@[#[trigger] left_verts@[j] as int]
                < left_parts by {
                assert(left_verts@[j] != right_verts@[i as int]);
            }
            assert forall|j: int| 0 <= j < left_verts@.len() implies part@[#[trigger] left_verts@[j] as int]
                == left_part@[j] by {
                assert(left_verts@[j] != right_verts@[i as int]);
            }
            assert forall|j: int| 0 <= j < i + 1 implies part@[#[trigger] right_verts@[j] as int]
                == left_parts + right_part@[j] by {
                if j < i {
                    assert(right_verts@[j] < right_verts@[i as int]);
                }
            }
        }
        i = i + 1;
    }
    proof {
        if g.weights_fit() && g.n >= 2 {
            let s = choose|s: int| 0 <= s < g.n && bisect@ == grow_spec(g, s) && is_best_seed(g, s);
            assert forall|u: int| 0 <= u < part@.len() implies (#[trigger] part@[u] < (nparts / 2) as int)
                == (grow_spec(g, s)[u] == 0) by {
                assert(bisect@[u] < 2);
                if bisect@[u] == 0 {
                    assert(left_verts@.contains(u as usize));
                    let j = choose|j: int| 0 <= j < left_verts@.len() && left_verts@[j] == u as usize;
                    assert(part@[left_verts@[j] as int] < left_parts);
                } else {
                    assert(right_verts@.contains(u as usize));
                    let j = choose|j: int| 0 <= j < right_verts@.len() && right_verts@[j] == u as usize;
                    assert(part@[right_verts@[j] as int] >= left_parts);
                }
            }
        }
        assert forall|u: int| 0 <= u < g.n implies (#[trigger] part@[u] < (nparts / 2) as int)
            == left_verts@.contains(u as usize) && (part@[u] >= (nparts / 2) as int)
            == right_verts@.contains(u as usize) by {
            assert(bisect@[u] < 2);
            if bisect@[u] == 0 {
                assert(left_verts@.contains(u as usize));
                let j = choose|j: int| 0 <= j < left_verts@.len() && left_verts@[j] == u as usize;
                assert(part@[left_verts@[j] as int] < left_parts);
                if right_verts@.contains(u as usize) {
                    let j2 = choose|j2: int|
                        0 <= j2 < right_verts@.len() && right_verts@[j2] == u as usize;
                    assert(bisect@[right_verts@[j2] as int] == 1);
                }
            } else {
                assert(right_verts@.contains(u as usize));
                let j = choose|j: int| 0 <= j < right_verts@.len() && right_verts@[j] == u as usize;
                assert(part@[right_verts@[j] as int] >= left_parts);
                if left_verts@.contains(u as usize) {
                    let j2 = choose|j2: int| 0 <= j2 < left_verts@.len() && left_verts@[j2] == u as usize;
                    assert(bisect@[left_verts@[j2] as int] == 0);
                }
            }
        }
        assert(stitched(
            g,
            (nparts / 2) as int,
            part@,
            left_verts@,
            right_verts@,
            &left_sub,
            &right_sub,
            left_part@,
            right_part@,
        ));
        assert(recursive_split(*g, nparts as int, part@));
    }

    part
}

/// The edges of `gu` among its first `k` whose other end is in `verts`, in
/// order, each as its other end and its weight.
pub open spec fn kept_edges(g: &Graph, verts: Seq<usize>, gu: int, k: int) -> Seq<(int, int)>
    decreases k,
{
    if k <= 0 {
        Seq::empty()
    } else {
        let prev = kept_edges(g, verts, gu, k - 1);
        if verts.contains(g.nbr(gu, k - 1) as usize) {
            prev.push((g.nbr(gu, k - 1), g.ew(gu, k - 1)))
        } else {
            prev
        }
    }
}

/// The ids in `verts` are strictly ascending.
pub open spec fn ascending(verts: Seq<usize>) -> bool {
    forall|i: int, j: int| 0 <= i < j < verts.len() ==> #[trigger] verts[i] < #[trigger] verts[j]
}

/// In the CSR arrays, the row of local vertex `lu` lists the edges of
/// `verts[lu]` that stay inside `verts`, through their local ids.
pub open spec fn row_induced(
    g: &Graph,
    verts: Seq<usize>,
    xadj: Seq<usize>,
    adjncy: Seq<usize>,
    adjwgt: Seq<i64>,
    lu: int,
) -> bool {
    let kept = kept_edges(g, verts, verts[lu] as int, g.deg(verts[lu] as int));
    &&& xadj[lu + 1] - xadj[lu] == kept.len()
    &&& forall|i: int|
        0 <= i < kept.len() ==> verts[adjncy[xadj[lu] + i] as int] as int == (#[trigger] kept[i]).0
            && adjwgt[xadj[lu] + i] as int == kept[i].1
}

/// Vertex `lu` of `sub` is `verts[lu]` of `g`, with its weight and with
/// exactly the edges of `g` that stay inside `verts`, in order and with their
/// weights.
pub open spec fn is_induced_vertex(sub: &Graph, g: &Graph, verts: Seq<usize>, lu: int) -> bool {
    let kept = kept_edges(g, verts, verts[lu] as int, g.deg(verts[lu] as int));
    &&& sub.vw(lu) == g.vw(verts[lu] as int)
    &&& sub.deg(lu) == kept.len()
    &&& forall|i: int|
        0 <= i < kept.len() ==> verts[sub.nbr(lu, i)] as int == (#[trigger] kept[i]).0 && sub.ew(
            lu,
            i,
        ) == kept[i].1
}

/// Appending to the arrays keeps a finished row as it was.
proof fn lemma_row_induced_extend(
    g: &Graph,
    verts: Seq<usize>,
    x1: Seq<usize>,
    a1: Seq<usize>,
    w1: Seq<i64>,
    x2: Seq<usize>,
    a2: Seq<usize>,
    w2: Seq<i64>,
    lu: int,
)
    requires
        row_induced(g, verts, x1, a1, w1, lu),
        x1[lu] == x2[lu],
        x1[lu + 1] == x2[lu + 1],
        x1[lu] <= x1[lu + 1] <= a1.len() <= a2.len(),
        a1.len() == w1.len(),
        a2.len() == w2.len(),
        a2.subrange(0, a1.len() as int) == a1,
        w2.subrange(0, w1.len() as int) == w1,
    ensures
        row_induced(g, verts, x2, a2, w2, lu),
{
    assert forall|j: int| 0 <= j < a1.len() implies #[trigger] a2[j] == a1[j] && w2[j] == w1[j] by {
        assert(a2.subrange(0, a1.len() as int)[j] == a2[j]);
        assert(w2.subrange(0, w1.len() as int)[j] == w2[j]);
    }
}

/// Build the subgraph induced by `verts`: local vertex `i` is `verts[i]`,
/// with its weight, and keeps exactly the edges whose other end is in `verts`,
/// with their weights, in the order `g` lists them. The vertices of `verts`
/// are distinct.
fn build_subgraph(g: &Graph, verts: &Vec<usize>) -> (sub: Graph)
    requires
        g.wf(),
        forall|i: int| 0 <= i < verts@.len() ==> #[trigger] verts@[i] < g.n,
        verts@.no_duplicates(),
    ensures
        sub.wf(),
        sub.n == verts@.len(),
        forall|lu: int| 0 <= lu < sub.n ==> #[trigger] is_induced_vertex(&sub, g, verts@, lu),
{
    let n_sub = verts.len();
    if n_sub == 0 {
        return Graph::new(0, filled(0, 1), Vec::new());
    }

    // Map global -> local vertex index, stored plus one (zero: not in `verts`)
    let mut global_to_local: Vec<usize> = filled(0, g.n);
    let mut i: usize = 0;
    while i < n_sub
        invariant
            n_sub == verts@.len(),
            global_to_local@.len() == g.n,
            forall|j: int| 0 <= j < verts@.len() ==> #[trigger] verts@[j] < g.n,
            verts@.no_duplicates(),
            i <= n_sub,
            forall|v: int|
                0 <= v < g.n && #[trigger] global_to_local@[v] != 0 ==> global_to_local@[v] <= i
                    && verts@[global_to_local@[v] - 1] == v,
            forall|j: int| 0 <= j < i ==> #[trigger] global_to_local@[verts@[j] as int] == j + 1,
        decreases n_sub - i,
    {
        global_to_local.set(verts[i], i + 1);
        proof {
            assert forall|j: int| 0 <= j < i + 1 implies #[trigger] global_to_local@[verts@[j] as int]
                == j + 1 by {
                if j < i {
                    assert(verts@[j] != verts@[i as int]);
                }
            }
        }
        i = i + 1;
    }
    assert forall|v: int| 0 <= v < g.n implies (#[trigger] global_to_local@[v] != 0)
        == verts@.contains(v as usize) by {
        if verts@.contains(v as usize) {
            let j = choose|j: int| 0 <= j < verts@.len() && verts@[j] == v as usize;
            assert(global_to_local@[verts@[j] as int] == j + 1);
        }
    }

    let mut xadj: Vec<usize> = filled(0, 1);
    let mut adjncy: Vec<usize> = Vec::new();
    let mut adjwgt: Vec<i64> = Vec::new();
    let mut vwgt: Vec<i64> = Vec::new();

    let mut local_u: usize = 0;
    while local_u < n_sub
        invariant
            g.wf(),
            n_sub == verts@.len(),
            global_to_local@.len() == g.n,
            forall|j: int| 0 <= j < verts@.len() ==> #[trigger] verts@[j] < g.n,
            forall|v: int|
                0 <= v < g.n && #[trigger] global_to_local@[v] != 0 ==> global_to_local@[v] <= n_sub
                    && verts@[global_to_local@[v] - 1] == v,
            forall|v: int| 0 <= v < g.n ==> (#[trigger] global_to_local@[v] != 0) == verts@.contains(
                v as usize,
            ),
            local_u <= n_sub,
            xadj@.len() == local_u + 1,
            xadj@[0] == 0,
            xadj@[local_u as int] == adjncy@.len(),
            forall|a: int, b: int|
                0 <= a <= b <= local_u ==> #[trigger] xadj@[a] <= #[trigger] xadj@[b],
            forall|j: int| 0 <= j < adjncy@.len() ==> #[trigger] adjncy@[j] < n_sub,
            adjwgt@.len() == adjncy@.len(),
            vwgt@.len() == local_u,
            forall|j: int| 0 <= j < local_u ==> #[trigger] vwgt@[j] == g.vw(verts@[j] as int),
            forall|lu: int|
                0 <= lu < local_u ==> #[trigger] row_induced(
                    g,
                    verts@,
                    xadj@,
                    adjncy@,
                    adjwgt@,
                    lu,
                ),
        decreases n_sub - local_u,
    {
        let ghost x0 = xadj@;
        let ghost a0 = adjncy@;
        let ghost w0 = adjwgt@;
        let ghost start = adjncy@.len() as int;
        let global_u = verts[local_u];
        vwgt.push(g.vertex_weight(global_u));

        let d = g.degree(global_u);
        let mut k: usize = 0;
        while k < d
            invariant
                g.wf(),
                global_u < g.n,
                global_u == verts@[local_u as int],
                d == g.deg(global_u as int),
                k <= d,
                global_to_local@.len() == g.n,
                forall|v: int|
                    0 <= v < g.n && #[trigger] global_to_local@[v] != 0 ==> global_to_local@[v]
                        <= n_sub && verts@[global_to_local@[v] - 1] == v,
                forall|v: int|
                    0 <= v < g.n ==> (#[trigger] global_to_local@[v] != 0) == verts@.contains(
                        v as usize,
                    ),
                forall|j: int| 0 <= j < adjncy@.len() ==> #[trigger] adjncy@[j] < n_sub,
                adjwgt@.len() == adjncy@.len(),
                start == a0.len(),
                a0.len() == w0.len(),
                adjncy@.subrange(0, start) == a0,
                adjwgt@.subrange(0, start) == w0,
                adjncy@.len() == start + kept_edges(g, verts@, global_u as int, k as int).len(),
                forall|i: int|
                    0 <= i < kept_edges(g, verts@, global_u as int, k as int).len() ==> verts@[adjncy@[start
                        + i] as int] as int == (#[trigger] kept_edges(
                        g,
                        verts@,
                        global_u as int,
                        k as int,
                    )[i]).0 && adjwgt@[start + i] as int == kept_edges(
                        g,
                        verts@,
                        global_u as int,
                        k as int,
                    )[i].1,
            decreases d - k,
        {
            let global_v = g.adjncy[g.xadj[global_u] + k];
            let slot = global_to_local[global_v];
            let ghost kept0 = kept_edges(g, verts@, global_u as int, k as int);
            if slot != 0 {
                adjncy.push(slot - 1);
                adjwgt.push(g.edge_weight(global_u, k));
                assert(kept_edges(g, verts@, global_u as int, k + 1) == kept0.push(
                    (g.nbr(global_u as int, k as int), g.ew(global_u as int, k as int)),
                ));
            } else {
                assert(kept_edges(g, verts@, global_u as int, k + 1) == kept0);
            }
            assert(adjncy@.subrange(0, start) =~= a0);
            assert(adjwgt@.subrange(0, start) =~= w0);
            k = k + 1;
        }
        xadj.push(adjncy.len());
        proof {
            assert forall|lu: int| 0 <= lu < local_u + 1 implies #[trigger] row_induced(
                g,
                verts@,
                xadj@,
                adjncy@,
                adjwgt@,
                lu,
            ) by {
                if lu < local_u {
                    assert(row_induced(g, verts@, x0, a0, w0, lu));
                    assert(x0[lu + 1] <= x0[local_u as int]);
                    lemma_row_induced_extend(g, verts@, x0, a0, w0, xadj@, adjncy@, adjwgt@, lu);
                }
            }
        }
        local_u = local_u + 1;
    }

    let sub = Graph { n: n_sub, xadj, adjncy, adjwgt, vwgt };
    assert forall|lu: int| 0 <= lu < sub.n implies #[trigger] is_induced_vertex(&sub, g, verts@, lu) by {
        assert(row_induced(g, verts@, sub.xadj@, sub.adjncy@, sub.adjwgt@, lu));
        assert(sub.xadj@[lu] <= sub.xadj@[lu + 1]);
        assert(sub.xadj@[lu + 1] <= sub.xadj@[sub.n as int]);
    }
    sub
}

} // verus!
