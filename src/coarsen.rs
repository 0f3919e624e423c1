//! Graph coarsening via heavy-edge matching.
//!
//! Implements the multilevel coarsening phase: repeatedly contract the graph
//! by matching vertices along heavy edges until the graph is small enough
//! for direct partitioning.
use vstd::prelude::*;

use crate::graph::{lemma_vertex_total_mono, sat_add, Graph};
use crate::partition::filled;

verus! {

/// Result of a single coarsening level.
#[derive(Clone, Debug)]
pub struct CoarsenLevel {
    /// Coarsened graph.
    pub graph: Graph,
    /// Mapping from fine vertex `u` to coarse vertex: `cmap[u]`.
    pub cmap: Vec<usize>,
    /// Number of coarse vertices.
    pub nc: usize,
}

impl CoarsenLevel {
    /// The level contracts a graph of `fine_n` vertices: its graph is
    /// well formed with `nc` vertices, and `cmap` sends each of the `fine_n`
    /// vertices to one of them.
    pub open spec fn contracts(&self, fine_n: int) -> bool {
        &&& self.graph.wf()
        &&& self.graph.n == self.nc
        &&& self.cmap@.len() == fine_n
        &&& forall|u: int| 0 <= u < fine_n ==> #[trigger] self.cmap@[u] < self.nc
    }
}

/// Number of vertices of the graph that level `i` of `levels` contracts:
/// the input graph for the first level, the previous level's graph otherwise.
pub open spec fn fine_n(g: &Graph, levels: Seq<CoarsenLevel>, i: int) -> int {
    if i == 0 {
        g.n as int
    } else {
        levels[i - 1].graph.n as int
    }
}

/// The graph that level `i` of `levels` contracts.
pub open spec fn fine_graph(g: &Graph, levels: Seq<CoarsenLevel>, i: int) -> Graph {
    if i == 0 {
        *g
    } else {
        levels[i - 1].graph
    }
}

/// Level `i` contracts the graph before it, by its heavy-edge matching, to
/// strictly fewer vertices, and its graph is that contraction.
pub open spec fn level_ok(g: &Graph, levels: Seq<CoarsenLevel>, i: int) -> bool {
    &&& levels[i].contracts(fine_n(g, levels, i))
    &&& levels[i].nc < fine_n(g, levels, i)
    &&& is_matching_map(&fine_graph(g, levels, i), levels[i].cmap@, levels[i].nc as int)
    &&& is_heavy_edge_matching(&fine_graph(g, levels, i), levels[i].cmap@)
    &&& is_contraction(&fine_graph(g, levels, i), &levels[i])
}

/// The graph of `level` is `fine` contracted along `level.cmap`: rows sorted
/// without repeats or self-loops, one coarse edge for each pair of coarse
/// vertices that fine edges join and, when `fine`'s weights fit, the summed
/// vertex and edge weights.
pub open spec fn is_contraction(fine: &Graph, level: &CoarsenLevel) -> bool {
    let cg = level.graph;
    &&& cg.vwgt@.len() == level.nc
    &&& forall|c: int| 0 <= c < level.nc ==> #[trigger] cg.row_sorted(c)
    &&& forall|c: int| 0 <= c < level.nc ==> #[trigger] cg.no_self_loop(c)
    &&& forall|c: int, d: int|
        0 <= c < level.nc && 0 <= d < level.nc ==> #[trigger] is_neighbor(&cg, c, d) == (d != c
            && coarse_adjacent(fine, level.cmap@, c, d))
    &&& fine.weights_fit() ==> forall|c: int|
        0 <= c < level.nc ==> #[trigger] cg.vw(c) == member_weight(
            fine,
            level.cmap@,
            c,
            fine.n as int,
        )
    &&& fine.weights_fit() ==> forall|c: int, k: int|
        0 <= c < level.nc && 0 <= k < cg.deg(c) ==> #[trigger] cg.ew(c, k) == coarse_weight(
            fine,
            level.cmap@,
            c,
            cg.nbr(c, k),
        )
}

/// Each level contracts the graph before it, by its heavy-edge matching, to
/// strictly fewer vertices.
pub open spec fn is_level_stack(g: &Graph, levels: Seq<CoarsenLevel>) -> bool {
    forall|i: int| 0 <= i < levels.len() ==> #[trigger] level_ok(g, levels, i)
}

/// Vertex count of the coarsest graph of the stack.
pub open spec fn top_n(g: &Graph, levels: Seq<CoarsenLevel>) -> int {
    fine_n(g, levels, levels.len() as int)
}

/// `b` is among the neighbors of `a`.
pub open spec fn is_neighbor(g: &Graph, a: int, b: int) -> bool {
    exists|k: int| 0 <= k < g.deg(a) && g.nbr(a, k) == b
}

/// Some vertex that `cmap` covers (all of them, or those marked in `done`)
/// goes to `c`.
pub open spec fn has_member(cmap: Seq<usize>, done: Seq<bool>, c: int) -> bool {
    exists|v: int| 0 <= v < cmap.len() && done[v] && cmap[v] == c
}

/// On the vertices marked in `done`, `cmap` is a matching into `nc` coarse
/// vertices: every coarse id is used, two vertices share one only when the
/// later is a neighbor of the earlier, and no three share one.
pub open spec fn matching_on(g: &Graph, cmap: Seq<usize>, done: Seq<bool>, nc: int) -> bool {
    &&& forall|c: int| 0 <= c < nc ==> #[trigger] has_member(cmap, done, c)
    &&& forall|a: int, b: int|
        0 <= a < b < g.n && done[a] && done[b] && #[trigger] cmap[a] == #[trigger] cmap[b]
            ==> is_neighbor(g, a, b)
    &&& forall|a: int, b: int, c: int|
        0 <= a < b < c < g.n && done[a] && done[b] && done[c] ==> !(#[trigger] cmap[a]
            == #[trigger] cmap[b] && cmap[b] == #[trigger] cmap[c])
}

/// `cmap` is a matching of all the vertices of `g` into `nc` coarse vertices:
/// each coarse vertex is one vertex, or two joined by an edge.
pub open spec fn is_matching_map(g: &Graph, cmap: Seq<usize>, nc: int) -> bool {
    matching_on(g, cmap, Seq::new(cmap.len(), |i: int| true), nc)
}

/// `a` is the lowest vertex that `cmap` sends to its coarse vertex.
pub open spec fn is_leader(cmap: Seq<usize>, a: int) -> bool {
    forall|b: int| 0 <= b < a ==> #[trigger] cmap[b] != cmap[a]
}

/// Some vertex below `u` goes where `v` goes.
pub open spec fn grouped_below(cmap: Seq<usize>, v: int, u: int) -> bool {
    exists|a: int| 0 <= a < u && cmap[a] == cmap[v]
}

/// The `k`-th edge of `a` leads to a vertex that `a` could be grouped with
/// at its turn: another vertex, not grouped before `a` (not marked in `done`,
/// or given a coarse id no lower than `a`'s), over an edge of non-negative
/// weight.
pub open spec fn free_at(g: &Graph, cmap: Seq<usize>, done: Seq<bool>, a: int, k: int) -> bool {
    let v = g.nbr(a, k);
    &&& v != a
    &&& g.ew(a, k) >= 0
    &&& (!done[v] || cmap[v] >= cmap[a])
}

/// The `k`-th edge of `a` is its heaviest free edge, the first one on ties.
pub open spec fn heaviest_free(g: &Graph, cmap: Seq<usize>, done: Seq<bool>, a: int, k: int) -> bool {
    &&& 0 <= k < g.deg(a)
    &&& free_at(g, cmap, done, a, k)
    &&& forall|k2: int|
        0 <= k2 < g.deg(a) && #[trigger] free_at(g, cmap, done, a, k2) ==> g.ew(a, k2) <= g.ew(a, k)
            && (k2 < k ==> g.ew(a, k2) < g.ew(a, k))
}

/// `a` is grouped with the end of its heaviest free edge, or, having no free
/// edge, stays alone.
pub open spec fn heavy_choice(g: &Graph, cmap: Seq<usize>, done: Seq<bool>, a: int) -> bool {
    ||| exists|k: int|
        heaviest_free(g, cmap, done, a, k) && done[g.nbr(a, k)] && cmap[g.nbr(a, k)] == cmap[a]
    ||| (forall|k: int| 0 <= k < g.deg(a) ==> !#[trigger] free_at(g, cmap, done, a, k)) && (forall|
        v: int,
    | 0 <= v < g.n && v != a && done[v] ==> #[trigger] cmap[v] != cmap[a])
}

/// `cmap` is the greedy heavy-edge matching of `g`: taken in ascending
/// order, the lowest vertex of each coarse vertex gets the next coarse id and
/// is grouped with the end of its heaviest edge to a vertex not grouped
/// before it (the first such edge on ties), or stays alone when it has none.
pub open spec fn is_heavy_edge_matching(g: &Graph, cmap: Seq<usize>) -> bool {
    &&& forall|a: int, b: int|
        0 <= a < b < g.n && #[trigger] is_leader(cmap, a) && #[trigger] is_leader(cmap, b)
            ==> cmap[a] < cmap[b]
    &&& forall|a: int|
        0 <= a < g.n && #[trigger] is_leader(cmap, a) ==> heavy_choice(
            g,
            cmap,
            Seq::new(cmap.len(), |i: int| true),
            a,
        )
}

/// No vertex of `g` has an edge of non-negative weight to a higher vertex, so
/// heavy-edge matching leaves every vertex alone.
pub open spec fn cannot_contract(g: &Graph) -> bool {
    forall|a: int, k: int|
        0 <= a < g.n && 0 <= k < g.deg(a) && #[trigger] g.nbr(a, k) > a ==> g.ew(a, k) < 0
}

/// Number of vertices among `i..done.len()` marked in `done`.
pub open spec fn count_from(done: Seq<bool>, i: int) -> int
    decreases done.len() - i,
{
    if i < 0 || i >= done.len() {
        0
    } else {
        (if done[i] {
            1int
        } else {
            0
        }) + count_from(done, i + 1)
    }
}

/// Marking a vertex at or after `i` adds one to the count from `i`.
proof fn lemma_count_from_mark(done: Seq<bool>, v: int, i: int)
    requires
        0 <= i <= v < done.len(),
        !done[v],
    ensures
        count_from(done.update(v, true), i) == count_from(done, i) + 1,
    decreases v - i,
{
    if i < v {
        lemma_count_from_mark(done, v, i + 1);
    } else {
        assert(count_from(done.update(v, true), i + 1) == count_from(done, i + 1)) by {
            lemma_count_from_frame(done, done.update(v, true), i + 1);
        }
    }
}

/// With nothing marked, the count is zero.
proof fn lemma_count_from_none(done: Seq<bool>, i: int)
    requires
        0 <= i,
        forall|j: int| 0 <= j < done.len() ==> !#[trigger] done[j],
    ensures
        count_from(done, i) == 0,
    decreases done.len() - i,
{
    if i < done.len() {
        lemma_count_from_none(done, i + 1);
    }
}

/// The count from `i` reads only the marks from `i` on.
proof fn lemma_count_from_frame(d1: Seq<bool>, d2: Seq<bool>, i: int)
    requires
        d1.len() == d2.len(),
        0 <= i,
        forall|j: int| i <= j < d1.len() ==> #[trigger] d1[j] == d2[j],
    ensures
        count_from(d1, i) == count_from(d2, i),
    decreases d1.len() - i,
{
    if i < d1.len() {
        lemma_count_from_frame(d1, d2, i + 1);
    }
}

/// Grouping more vertices, all under a new coarse id `nc`, keeps the choice
/// of a vertex grouped before.
proof fn lemma_heavy_choice_stable(
    g: &Graph,
    cmap0: Seq<usize>,
    d0: Seq<bool>,
    cmap1: Seq<usize>,
    d1: Seq<bool>,
    a: int,
    nc: int,
)
    requires
        g.wf(),
        cmap0.len() == g.n,
        d0.len() == g.n,
        cmap1.len() == g.n,
        d1.len() == g.n,
        0 <= a < g.n,
        d0[a],
        forall|v: int| 0 <= v < g.n && d0[v] ==> #[trigger] d1[v] && cmap1[v] == cmap0[v],
        forall|v: int| 0 <= v < g.n && !d0[v] && #[trigger] d1[v] ==> cmap1[v] == nc,
        forall|v: int| 0 <= v < g.n && #[trigger] d0[v] ==> cmap0[v] < nc,
        heavy_choice(g, cmap0, d0, a),
    ensures
        heavy_choice(g, cmap1, d1, a),
{
    assert(d1[a]);
    assert forall|k: int| 0 <= k < g.deg(a) implies #[trigger] free_at(g, cmap1, d1, a, k)
        == free_at(g, cmap0, d0, a, k) by {
        assert(g.xadj@[a + 1] <= g.xadj@[g.n as int]);
        let v = g.nbr(a, k);
        assert(0 <= v < g.n);
        if d0[v] {
            assert(d1[v]);
        }
    }
    if exists|k: int|
        heaviest_free(g, cmap0, d0, a, k) && d0[g.nbr(a, k)] && cmap0[g.nbr(a, k)] == cmap0[a] {
        let k = choose|k: int|
            heaviest_free(g, cmap0, d0, a, k) && d0[g.nbr(a, k)] && cmap0[g.nbr(a, k)] == cmap0[a];
        assert(g.xadj@[a + 1] <= g.xadj@[g.n as int]);
        assert(0 <= g.nbr(a, k) < g.n);
        assert(d1[g.nbr(a, k)]);
        assert(heaviest_free(g, cmap1, d1, a, k));
    } else {
        assert forall|v: int| 0 <= v < g.n && v != a && d1[v] implies #[trigger] cmap1[v]
            != cmap1[a] by {
            if d0[v] {
                assert(d1[v]);
            }
        }
    }
}

/// Summed weight of the fine vertices among `0..i` that `cmap` sends to `c`.
pub open spec fn member_weight(g: &Graph, cmap: Seq<usize>, c: int, i: int) -> int
    decreases i,
{
    if i <= 0 {
        0
    } else {
        member_weight(g, cmap, c, i - 1) + if cmap[i - 1] == c {
            g.vw(i - 1)
        } else {
            0
        }
    }
}

/// The weight of a group of fine vertices is at most that of all of them.
proof fn lemma_member_weight_le(g: &Graph, cmap: Seq<usize>, c: int, i: int)
    requires
        g.wf(),
        g.nonneg_weights(),
        cmap.len() == g.n,
        0 <= i <= g.n,
    ensures
        0 <= member_weight(g, cmap, c, i) <= g.vertex_total_upto(i),
    decreases i,
{
    if i > 0 {
        lemma_member_weight_le(g, cmap, c, i - 1);
        if g.vwgt@.len() != 0 {
            assert(g.vwgt@[i - 1] >= 0);
        }
    }
}

/// The row of `c` in the CSR arrays is strictly ascending and does not hold `c`.
pub open spec fn segment_ok(xadj: Seq<usize>, adjncy: Seq<usize>, c: int) -> bool {
    &&& forall|j1: int, j2: int|
        xadj[c] <= j1 < j2 < xadj[c + 1] ==> #[trigger] adjncy[j1] < #[trigger] adjncy[j2]
    &&& forall|j: int| xadj[c] <= j < xadj[c + 1] ==> #[trigger] adjncy[j] != c
}

/// Row `c` of the CSR arrays holds `d`.
pub open spec fn row_has(xadj: Seq<usize>, adjncy: Seq<usize>, c: int, d: int) -> bool {
    exists|j: int| xadj[c] <= j < xadj[c + 1] && adjncy[j] == d
}

/// The vertices that `next` chains from `cur`: `cur` and each `next` entry
/// hold a vertex plus one, and zero ends the chain.
pub open spec fn chain_set(next: Seq<usize>, cur: int) -> Set<int>
    decreases cur,
{
    if cur <= 0 || cur > next.len() {
        Set::empty()
    } else if next[cur - 1] < cur {
        chain_set(next, next[cur - 1] as int).insert(cur - 1)
    } else {
        Set::empty().insert(cur - 1)
    }
}

/// The vertices among `0..u` that `cmap` sends to `c`.
pub open spec fn members(cmap: Seq<usize>, c: int, u: int) -> Set<int> {
    Set::new(|v: int| 0 <= v < u && cmap[v] == c)
}

/// One of the first `k` edges of `u` leads to a vertex that `cmap` sends to `x`.
pub open spec fn reaches(g: &Graph, cmap: Seq<usize>, u: int, k: int, x: int) -> bool {
    exists|k2: int| 0 <= k2 < k && cmap[g.nbr(u, k2)] == x
}

/// An edge of `g` joins a vertex that `cmap` sends to `c` to one that it
/// sends to `x`.
pub open spec fn coarse_adjacent(g: &Graph, cmap: Seq<usize>, c: int, x: int) -> bool {
    exists|u: int| 0 <= u < g.n && cmap[u] == c && reaches(g, cmap, u, g.deg(u), x)
}

/// An edge of `g` joins a vertex outside `rest` that `cmap` sends to `c` to
/// one that it sends to `x`.
pub open spec fn reached_from(g: &Graph, cmap: Seq<usize>, c: int, rest: Set<int>, x: int) -> bool {
    exists|u: int|
        0 <= u < g.n && cmap[u] == c && !rest.contains(u) && reaches(g, cmap, u, g.deg(u), x)
}

/// Summed weight of those of the first `k` edges of `u` that lead to a
/// vertex that `cmap` sends to `x`.
pub open spec fn weight_to(g: &Graph, cmap: Seq<usize>, u: int, k: int, x: int) -> int
    decreases k,
{
    if k <= 0 {
        0
    } else {
        weight_to(g, cmap, u, k - 1, x) + if cmap[g.nbr(u, k - 1)] == x {
            g.ew(u, k - 1)
        } else {
            0
        }
    }
}

/// Summed weight of the edges from the vertices among `0..i` outside `rest`
/// that `cmap` sends to `c`, to vertices that it sends to `x`.
pub open spec fn weight_from(
    g: &Graph,
    cmap: Seq<usize>,
    c: int,
    rest: Set<int>,
    x: int,
    i: int,
) -> int
    decreases i,
{
    if i <= 0 {
        0
    } else {
        weight_from(g, cmap, c, rest, x, i - 1) + if cmap[i - 1] == c && !rest.contains(i - 1) {
            weight_to(g, cmap, i - 1, g.deg(i - 1), x)
        } else {
            0
        }
    }
}

/// Summed weight of the edges of `g` from the vertices that `cmap` sends to
/// `c` to those that it sends to `x`.
pub open spec fn coarse_weight(g: &Graph, cmap: Seq<usize>, c: int, x: int) -> int {
    weight_from(g, cmap, c, Set::empty(), x, g.n as int)
}

/// Edge weight toward `x` grows with the prefix and stays within the row weight.
proof fn lemma_weight_to_le(g: &Graph, cmap: Seq<usize>, u: int, k1: int, k2: int, x: int)
    requires
        g.wf(),
        g.nonneg_weights(),
        0 <= u < g.n,
        0 <= k1 <= k2 <= g.deg(u),
    ensures
        0 <= weight_to(g, cmap, u, k1, x) <= weight_to(g, cmap, u, k2, x),
        weight_to(g, cmap, u, k2, x) <= g.row_weight(u, k2),
    decreases k2,
{
    assert(g.xadj@[u + 1] <= g.xadj@[g.n as int]);
    if k2 > 0 {
        if k1 == k2 {
            lemma_weight_to_le(g, cmap, u, k1 - 1, k2 - 1, x);
        } else {
            lemma_weight_to_le(g, cmap, u, k1, k2 - 1, x);
        }
        if g.adjwgt@.len() != 0 {
            assert(g.adjwgt@[g.xadj@[u] + k2 - 1] >= 0);
        }
    }
}

/// Edge weight from a group of vertices stays within the prefix total.
proof fn lemma_weight_from_le(g: &Graph, cmap: Seq<usize>, c: int, rest: Set<int>, x: int, i: int)
    requires
        g.wf(),
        g.nonneg_weights(),
        cmap.len() == g.n,
        0 <= i <= g.n,
    ensures
        0 <= weight_from(g, cmap, c, rest, x, i) <= g.edge_total_upto(i),
    decreases i,
{
    if i > 0 {
        lemma_weight_from_le(g, cmap, c, rest, x, i - 1);
        assert(g.xadj@[i - 1] <= g.xadj@[i]);
        lemma_weight_to_le(g, cmap, i - 1, 0, g.deg(i - 1), x);
    }
}

/// Taking `fu` out of `rest` adds its edge weight toward `x`.
proof fn lemma_weight_from_remove(
    g: &Graph,
    cmap: Seq<usize>,
    c: int,
    rest: Set<int>,
    x: int,
    fu: int,
    i: int,
)
    requires
        rest.contains(fu),
        0 <= fu < cmap.len(),
        cmap[fu] == c,
        0 <= i <= cmap.len(),
    ensures
        weight_from(g, cmap, c, rest.remove(fu), x, i) == weight_from(g, cmap, c, rest, x, i) + if fu
            < i {
            weight_to(g, cmap, fu, g.deg(fu), x)
        } else {
            0
        },
    decreases i,
{
    if i > 0 {
        lemma_weight_from_remove(g, cmap, c, rest, x, fu, i - 1);
    }
}

/// With no edge weight toward `x` from any counted vertex, the sum is zero.
proof fn lemma_weight_from_zero(g: &Graph, cmap: Seq<usize>, c: int, rest: Set<int>, x: int, i: int)
    requires
        0 <= i <= cmap.len(),
        forall|u: int|
            0 <= u < i && cmap[u] == c && !rest.contains(u) ==> #[trigger] weight_to(
                g,
                cmap,
                u,
                g.deg(u),
                x,
            ) == 0,
    ensures
        weight_from(g, cmap, c, rest, x, i) == 0,
    decreases i,
{
    if i > 0 {
        lemma_weight_from_zero(g, cmap, c, rest, x, i - 1);
    }
}

/// With no edge toward `x`, the weight toward `x` is zero.
proof fn lemma_weight_to_zero(g: &Graph, cmap: Seq<usize>, u: int, k: int, x: int)
    requires
        !reaches(g, cmap, u, k, x),
    ensures
        weight_to(g, cmap, u, k, x) == 0,
    decreases k,
{
    if k > 0 {
        assert(!reaches(g, cmap, u, k - 1, x)) by {
            if reaches(g, cmap, u, k - 1, x) {
                let k2 = choose|k2: int| 0 <= k2 < k - 1 && cmap[g.nbr(u, k2)] == x;
                assert(0 <= k2 < k);
            }
        }
        lemma_weight_to_zero(g, cmap, u, k - 1, x);
        if cmap[g.nbr(u, k - 1)] == x {
            assert(reaches(g, cmap, u, k, x));
        }
    }
}

/// The weights of row `c` are the summed fine edge weights toward each neighbor.
pub open spec fn row_weights_ok(
    g: &Graph,
    cmap: Seq<usize>,
    xadj: Seq<usize>,
    adjncy: Seq<usize>,
    adjwgt: Seq<i64>,
    c: int,
) -> bool {
    forall|j: int|
        xadj[c] <= j < xadj[c + 1] ==> #[trigger] adjwgt[j] as int == coarse_weight(
            g,
            cmap,
            c,
            adjncy[j] as int,
        )
}

/// A chain from `cur` holds only vertices below `cur`.
proof fn lemma_chain_below(next: Seq<usize>, cur: int)
    ensures
        forall|v: int| #[trigger] chain_set(next, cur).contains(v) ==> 0 <= v < cur,
    decreases cur,
{
    if cur > 0 && cur <= next.len() && next[cur - 1] < cur {
        lemma_chain_below(next, next[cur - 1] as int);
        assert(chain_set(next, cur) == chain_set(next, next[cur - 1] as int).insert(cur - 1));
    }
}

/// A chain from `cur` reads only the entries of `next` below `cur`.
proof fn lemma_chain_frame(n1: Seq<usize>, n2: Seq<usize>, cur: int)
    requires
        n1.len() == n2.len(),
        forall|i: int| 0 <= i < cur && i < n1.len() ==> #[trigger] n1[i] == n2[i],
    ensures
        chain_set(n1, cur) == chain_set(n2, cur),
    decreases cur,
{
    if cur > 0 && cur <= n1.len() && n1[cur - 1] < cur {
        lemma_chain_frame(n1, n2, n1[cur - 1] as int);
    }
}

/// Appending to the arrays keeps a finished row as it was.
proof fn lemma_segment_extend(
    x1: Seq<usize>,
    a1: Seq<usize>,
    x2: Seq<usize>,
    a2: Seq<usize>,
    c: int,
)
    requires
        segment_ok(x1, a1, c),
        x1[c] == x2[c],
        x1[c + 1] == x2[c + 1],
        x1[c + 1] <= a1.len() <= a2.len(),
        a2.subrange(0, a1.len() as int) == a1,
    ensures
        segment_ok(x2, a2, c),
        forall|d: int| #[trigger] row_has(x2, a2, c, d) == row_has(x1, a1, c, d),
{
    assert forall|j: int| 0 <= j < a1.len() implies #[trigger] a2[j] == a1[j] by {
        assert(a2.subrange(0, a1.len() as int)[j] == a2[j]);
    }
    assert forall|d: int| #[trigger] row_has(x2, a2, c, d) == row_has(x1, a1, c, d) by {
        if row_has(x1, a1, c, d) {
            let j = choose|j: int| x1[c] <= j < x1[c + 1] && a1[j] == d;
            assert(a2[j] == d);
        }
        if row_has(x2, a2, c, d) {
            let j = choose|j: int| x2[c] <= j < x2[c + 1] && a2[j] == d;
            assert(a1[j] == d);
        }
    }
}

/// Relies on `slice::sort_unstable`: afterwards the ids are in ascending
/// order and are the same ids, with the same repeats, as before.
#[verifier::external_body]
fn sort_ids(v: &mut Vec<usize>)
    ensures
        final(v)@.to_multiset() == old(v)@.to_multiset(),
        forall|i: int, j: int|
            0 <= i <= j < final(v)@.len() ==> #[trigger] final(v)@[i] <= #[trigger] final(v)@[j],
{
    v.sort_unstable();
}

/// Coarsen the graph by heavy-edge matching.
///
/// Visits vertices in ascending order, matching each unmatched vertex with
/// its heaviest unmatched neighbor other than itself (the first one on ties);
/// each pair, or a vertex left alone, becomes the next coarse vertex. The
/// coarse graph has the summed vertex weights, one edge for each pair of
/// coarse vertices that fine edges join, weighing what those fine edges
/// weigh together, and neighbor lists sorted by id.
pub fn coarsen_once(g: &Graph) -> (level: CoarsenLevel)
    requires
        g.wf(),
    ensures
        level.contracts(g.n as int),
        level.nc <= g.n,
        is_matching_map(g, level.cmap@, level.nc as int),
        is_heavy_edge_matching(g, level.cmap@),
        level.nc < g.n || cannot_contract(g),
        is_contraction(g, &level),
        g.weights_fit() ==> forall|c: int|
            0 <= c < level.nc ==> #[trigger] level.graph.vw(c) == member_weight(
                g,
                level.cmap@,
                c,
                g.n as int,
            ),
        forall|c: int| 0 <= c < level.nc ==> #[trigger] level.graph.row_sorted(c),
        forall|c: int| 0 <= c < level.nc ==> #[trigger] level.graph.no_self_loop(c),
        forall|c: int, d: int|
            0 <= c < level.nc && 0 <= d < level.nc ==> #[trigger] is_neighbor(&level.graph, c, d)
                == (d != c && coarse_adjacent(g, level.cmap@, c, d)),
        g.weights_fit() ==> forall|c: int, k: int|
            0 <= c < level.nc && 0 <= k < level.graph.deg(c) ==> #[trigger] level.graph.ew(c, k)
                == coarse_weight(g, level.cmap@, c, level.graph.nbr(c, k)),
{
    let n = g.n;
    let mut matched: Vec<bool> = filled(false, n);
    let mut cmap: Vec<usize> = filled(0, n);
    let mut nc: usize = 0;
    let ghost mut pairs: int = 0;
    proof {
        lemma_count_from_none(matched@, 0);
    }

    // Visit in natural order
    let mut u: usize = 0;
    while u < n
        invariant
            0 <= pairs,
            nc + pairs == u + count_from(matched@, u as int),
            pairs == 0 ==> forall|v: int| u <= v < n ==> !#[trigger] matched@[v],
            pairs == 0 ==> forall|a: int, k: int|
                0 <= a < u && 0 <= k < g.deg(a) && #[trigger] g.nbr(a, k) > a ==> g.ew(a, k) < 0,
            g.wf(),
            n == g.n,
            u <= n,
            nc <= u,
            matched@.len() == n,
            cmap@.len() == n,
            forall|v: int| 0 <= v < u ==> #[trigger] matched@[v],
            forall|v: int| 0 <= v < n && #[trigger] matched@[v] ==> cmap@[v] < nc,
            matching_on(g, cmap@, matched@, nc as int),
            forall|a: int, b: int|
                0 <= a < b < u && #[trigger] is_leader(cmap@, a) && #[trigger] is_leader(cmap@, b)
                    ==> cmap@[a] < cmap@[b],
            forall|a: int|
                0 <= a < u && #[trigger] is_leader(cmap@, a) ==> heavy_choice(g, cmap@, matched@, a),
            forall|v: int|
                0 <= v < n && u <= v && #[trigger] matched@[v] ==> grouped_below(cmap@, v, u as int),
        decreases n - u,
    {
        if matched[u] {
            proof {
                assert(count_from(matched@, u as int) == 1 + count_from(matched@, u + 1));
                assert(grouped_below(cmap@, u as int, u as int));
                let a = choose|a: int| 0 <= a < u && cmap@[a] == cmap@[u as int];
                assert(!is_leader(cmap@, u as int));
                assert forall|v: int|
                    0 <= v < n && u + 1 <= v && #[trigger] matched@[v] implies grouped_below(
                    cmap@,
                    v,
                    u + 1,
                ) by {
                    assert(grouped_below(cmap@, v, u as int));
                    let a = choose|a: int| 0 <= a < u && cmap@[a] == cmap@[v];
                    assert(0 <= a < u + 1);
                }
            }
        }
        if !matched[u] {
            // Find heaviest unmatched neighbor
            let mut found = false;
            let mut best_k: usize = 0;
            let mut best_v: usize = 0;
            let mut best_w: i64 = -1;
            let d = g.degree(u);
            let mut k: usize = 0;
            while k < d
                invariant
                    g.wf(),
                    n == g.n,
                    u < n,
                    d == g.deg(u as int),
                    k <= d,
                    matched@.len() == n,
                    found ==> best_v < n && best_v != u && !matched@[best_v as int] && best_k < k
                        && g.nbr(u as int, best_k as int) == best_v,
                    found ==> best_w == g.ew(u as int, best_k as int) && best_w >= 0,
                    found ==> forall|k2: int|
                        0 <= k2 < k && g.nbr(u as int, k2) != u && !matched@[g.nbr(u as int, k2)]
                            && g.ew(u as int, k2) >= 0 ==> #[trigger] g.ew(u as int, k2) <= best_w
                            && (k2 < best_k ==> g.ew(u as int, k2) < best_w),
                    !found ==> best_w == -1,
                    !found ==> forall|k2: int|
                        0 <= k2 < k && g.nbr(u as int, k2) != u && !matched@[g.nbr(u as int, k2)]
                            ==> #[trigger] g.ew(u as int, k2) < 0,
                decreases d - k,
            {
                let v = g.adjncy[g.xadj[u] + k];
                if !matched[v] && v != u {
                    let w = g.edge_weight(u, k);
                    if w > best_w {
                        best_w = w;
                        best_v = v;
                        best_k = k;
                        found = true;
                    }
                }
                k = k + 1;
            }

            let ghost cmap0 = cmap@;
            let ghost matched0 = matched@;
            proof {
                assert(count_from(matched0, u as int) == count_from(matched0, u + 1));
                if !found && pairs == 0 {
                    assert(g.xadj@[u + 1] <= g.xadj@[g.n as int]);
                    assert forall|k2: int| 0 <= k2 < g.deg(u as int) && #[trigger] g.nbr(u as int, k2) > u
                        implies g.ew(u as int, k2) < 0 by {
                        assert(0 <= g.nbr(u as int, k2) < n);
                        assert(!matched0[g.nbr(u as int, k2)]);
                    }
                }
            }
            if found {
                // Match u and best_v into coarse vertex nc
                cmap.set(u, nc);
                cmap.set(best_v, nc);
                matched.set(u, true);
                matched.set(best_v, true);
                proof {
                    assert(best_v > u);
                    assert(is_neighbor(g, u as int, best_v as int));
                    let m1 = matched0.update(u as int, true);
                    lemma_count_from_frame(m1, matched0, u + 1);
                    assert(!m1[best_v as int]);
                    lemma_count_from_mark(m1, best_v as int, u + 1);
                    assert(matched@ == m1.update(best_v as int, true));
                    pairs = pairs + 1;
                }
            } else {
                // Unmatched singleton
                cmap.set(u, nc);
                matched.set(u, true);
                proof {
                    lemma_count_from_frame(matched0, matched@, u + 1);
                }
            }
            proof {
                assert(!matched0[u as int] && matched@[u as int]);
                lemma_matching_step(g, cmap0, matched0, cmap@, matched@, nc as int);
                assert(g.xadj@[u + 1] <= g.xadj@[g.n as int]);
                // the free edges of `u` are those the scan considered
                assert forall|k2: int| 0 <= k2 < g.deg(u as int) implies #[trigger] free_at(
                    g,
                    cmap@,
                    matched@,
                    u as int,
                    k2,
                ) == (g.nbr(u as int, k2) != u && !matched0[g.nbr(u as int, k2)] && g.ew(
                    u as int,
                    k2,
                ) >= 0) by {
                    let v = g.nbr(u as int, k2);
                    assert(0 <= v < n);
                    if matched0[v] {
                        assert(cmap0[v] < nc);
                    }
                }
                assert(is_leader(cmap@, u as int));
                if found {
                    assert(heaviest_free(g, cmap@, matched@, u as int, best_k as int));
                } else {
                    assert forall|v: int| 0 <= v < g.n && v != u && matched@[v] implies #[trigger] cmap@[v]
                        != cmap@[u as int] by {
                        assert(matched0[v]);
                    }
                }
                assert(heavy_choice(g, cmap@, matched@, u as int));
                assert forall|a: int| 0 <= a < u + 1 && #[trigger] is_leader(cmap@, a) implies heavy_choice(
                    g,
                    cmap@,
                    matched@,
                    a,
                ) by {
                    if a < u {
                        assert(matched0[a]);
                        assert forall|b: int| 0 <= b < a implies #[trigger] cmap0[b] != cmap0[a] by {
                            assert(matched0[b]);
                            assert(cmap@[b] != cmap@[a]);
                        }
                        assert(is_leader(cmap0, a));
                        lemma_heavy_choice_stable(g, cmap0, matched0, cmap@, matched@, a, nc as int);
                    }
                }
                assert forall|a: int, b: int|
                    0 <= a < b < u + 1 && #[trigger] is_leader(cmap@, a) && #[trigger] is_leader(
                        cmap@,
                        b,
                    ) implies cmap@[a] < cmap@[b] by {
                    assert(matched0[a]);
                    assert(cmap@[a] == cmap0[a] && cmap0[a] < nc);
                    if b == u {
                        assert(cmap@[b] == nc);
                    }
                    if b < u {
                        assert(matched0[b]);
                        assert forall|c: int| 0 <= c < a implies #[trigger] cmap0[c] != cmap0[a] by {
                            assert(matched0[c]);
                            assert(cmap@[c] != cmap@[a]);
                        }
                        assert forall|c: int| 0 <= c < b implies #[trigger] cmap0[c] != cmap0[b] by {
                            assert(matched0[c]);
                            assert(cmap@[c] != cmap@[b]);
                        }
                        assert(is_leader(cmap0, a) && is_leader(cmap0, b));
                        assert(cmap0[a] < cmap0[b]);
                        assert(cmap@[b] == cmap0[b]);
                    }
                }
                assert forall|v: int|
                    0 <= v < n && u + 1 <= v && #[trigger] matched@[v] implies grouped_below(
                    cmap@,
                    v,
                    u + 1,
                ) by {
                    if matched0[v] {
                        assert(grouped_below(cmap0, v, u as int));
                        let a = choose|a: int| 0 <= a < u && cmap0[a] == cmap0[v];
                        assert(matched0[a]);
                        assert(cmap@[a] == cmap@[v]);
                    } else {
                        assert(cmap@[u as int] == cmap@[v]);
                    }
                }
            }
            nc = nc + 1;
        }
        u = u + 1;
    }

    assert forall|v: int| 0 <= v < n implies #[trigger] cmap@[v] < nc by {
        assert(matched@[v]);
    }
    assert(matched@ =~= Seq::new(cmap@.len(), |i: int| true));
    assert(is_heavy_edge_matching(g, cmap@));
    assert(nc < n || cannot_contract(g));
    // Build coarsened graph
    let graph = build_coarse_graph(g, &cmap, nc);

    let level = CoarsenLevel { graph, cmap, nc };
    assert(is_contraction(g, &level));
    level
}

/// Giving the next coarse id `nc` to one or two vertices that were not
/// covered (two only when the later is a neighbor of the earlier) keeps the
/// matching.
proof fn lemma_matching_step(
    g: &Graph,
    cmap0: Seq<usize>,
    done0: Seq<bool>,
    cmap1: Seq<usize>,
    done1: Seq<bool>,
    nc: int,
)
    requires
        cmap0.len() == g.n,
        done0.len() == g.n,
        cmap1.len() == g.n,
        done1.len() == g.n,
        matching_on(g, cmap0, done0, nc),
        forall|v: int| 0 <= v < g.n && #[trigger] done0[v] ==> cmap0[v] < nc,
        forall|v: int| 0 <= v < g.n && done0[v] ==> #[trigger] done1[v] && cmap1[v] == cmap0[v],
        forall|v: int| 0 <= v < g.n && !done0[v] && #[trigger] done1[v] ==> cmap1[v] == nc,
        exists|v: int| 0 <= v < g.n && !done0[v] && #[trigger] done1[v],
        forall|a: int, b: int|
            0 <= a < b < g.n && !done0[a] && !done0[b] && #[trigger] done1[a] && #[trigger] done1[b]
                ==> is_neighbor(g, a, b),
        forall|a: int, b: int, c: int|
            0 <= a < b < c < g.n && !done0[a] && !done0[b] && !done0[c] ==> !(
            #[trigger] done1[a] && #[trigger] done1[b] && #[trigger] done1[c]),
    ensures
        matching_on(g, cmap1, done1, nc + 1),
        forall|v: int| 0 <= v < g.n && #[trigger] done1[v] ==> cmap1[v] < nc + 1,
{
    assert forall|c: int| 0 <= c < nc + 1 implies #[trigger] has_member(cmap1, done1, c) by {
        if c < nc {
            assert(has_member(cmap0, done0, c));
            let v = choose|v: int| 0 <= v < cmap0.len() && done0[v] && cmap0[v] == c;
            assert(done1[v] && cmap1[v] == c);
        } else {
            let v = choose|v: int| 0 <= v < g.n && !done0[v] && #[trigger] done1[v];
            assert(cmap1[v] == c);
        }
    }
    assert forall|a: int, b: int|
        0 <= a < b < g.n && done1[a] && done1[b] && #[trigger] cmap1[a] == #[trigger] cmap1[b]
            implies is_neighbor(g, a, b) by {
        if done0[a] && done0[b] {
            assert(cmap0[a] == cmap0[b]);
        } else if !done0[a] && !done0[b] {
        } else if done0[a] {
            assert(cmap0[a] < nc);
        } else {
            assert(cmap0[b] < nc);
        }
    }
    assert forall|a: int, b: int, c: int|
        0 <= a < b < c < g.n && done1[a] && done1[b] && done1[c] implies !(#[trigger] cmap1[a]
        == #[trigger] cmap1[b] && cmap1[b] == #[trigger] cmap1[c]) by {
        if done0[a] && done0[b] && done0[c] {
            assert(!(cmap0[a] == cmap0[b] && cmap0[b] == cmap0[c]));
        } else if done0[a] {
            assert(cmap0[a] < nc);
        } else if done0[b] {
            assert(cmap0[b] < nc);
        } else if done0[c] {
            assert(cmap0[c] < nc);
        }
    }
}

/// Build the coarsened graph from the fine graph and vertex mapping.
///
/// A coarse vertex weighs what its fine vertices weigh together. Each fine
/// edge between two different coarse vertices adds its weight to the coarse
/// edge between them, so that parallel fine edges become one coarse edge;
/// each coarse neighbor list is sorted by neighbor id.
fn build_coarse_graph(g: &Graph, cmap: &Vec<usize>, nc: usize) -> (cg: Graph)
    requires
        g.wf(),
        cmap@.len() == g.n,
        forall|u: int| 0 <= u < g.n ==> #[trigger] cmap@[u] < nc,
    ensures
        cg.wf(),
        cg.n == nc,
        cg.vwgt@.len() == nc,
        g.weights_fit() ==> forall|c: int|
            0 <= c < nc ==> #[trigger] cg.vw(c) == member_weight(g, cmap@, c, g.n as int),
        forall|c: int| 0 <= c < nc ==> #[trigger] cg.row_sorted(c),
        forall|c: int| 0 <= c < nc ==> #[trigger] cg.no_self_loop(c),
        forall|c: int, d: int|
            0 <= c < nc && 0 <= d < nc ==> #[trigger] is_neighbor(&cg, c, d) == (d != c
                && coarse_adjacent(g, cmap@, c, d)),
        g.weights_fit() ==> forall|c: int, k: int|
            0 <= c < nc && 0 <= k < cg.deg(c) ==> #[trigger] cg.ew(c, k) == coarse_weight(
                g,
                cmap@,
                c,
                cg.nbr(c, k),
            ),
{
    let n = g.n;

    // Accumulate coarse vertex weights, and chain the fine vertices of each
    // coarse vertex: `head[c]` and `next[u]` hold a fine vertex plus one, or
    // zero at the end of the chain.
    let mut cvwgt: Vec<i64> = filled(0i64, nc);
    let mut head: Vec<usize> = filled(0, nc);
    let mut next: Vec<usize> = filled(0, n);
    let mut u: usize = 0;
    while u < n
        invariant
            g.wf(),
            n == g.n,
            u <= n,
            cmap@.len() == n,
            forall|v: int| 0 <= v < n ==> #[trigger] cmap@[v] < nc,
            cvwgt@.len() == nc,
            head@.len() == nc,
            next@.len() == n,
            forall|c: int| 0 <= c < nc ==> #[trigger] head@[c] <= u,
            forall|v: int| 0 <= v < n ==> #[trigger] next@[v] <= v,
            g.weights_fit() ==> forall|c: int|
                0 <= c < nc ==> #[trigger] cvwgt@[c] == member_weight(g, cmap@, c, u as int),
            forall|c: int|
                0 <= c < nc ==> #[trigger] chain_set(next@, head@[c] as int) == members(
                    cmap@,
                    c,
                    u as int,
                ),
        decreases n - u,
    {
        let c = cmap[u];
        proof {
            if g.weights_fit() {
                lemma_member_weight_le(g, cmap@, c as int, u + 1);
                lemma_vertex_total_mono(g, u + 1, n as int);
            }
        }
        cvwgt.set(c, sat_add(cvwgt[c], g.vertex_weight(u)));
        proof {
            if g.weights_fit() {
                assert forall|c2: int| 0 <= c2 < nc implies #[trigger] cvwgt@[c2] == member_weight(
                    g,
                    cmap@,
                    c2,
                    u + 1,
                ) by {}
            }
        }
        let ghost n0 = next@;
        let ghost h0 = head@;
        next.set(u, head[c]);
        head.set(c, u + 1);
        proof {
            assert forall|c2: int| 0 <= c2 < nc implies #[trigger] chain_set(
                next@,
                head@[c2] as int,
            ) == members(cmap@, c2, u + 1) by {
                lemma_chain_frame(n0, next@, h0[c2] as int);
                if c2 == c as int {
                    lemma_chain_frame(n0, next@, h0[c2] as int);
                    assert(chain_set(next@, u + 1) == chain_set(next@, h0[c2] as int).insert(
                        u as int,
                    ));
                    assert(members(cmap@, c2, u + 1) =~= members(cmap@, c2, u as int).insert(
                        u as int,
                    ));
                } else {
                    assert(members(cmap@, c2, u + 1) =~= members(cmap@, c2, u as int));
                }
            }
        }
        u = u + 1;
    }

    // Accumulate coarse edges in a dense array, one coarse vertex at a time
    let mut acc: Vec<i64> = filled(0i64, nc);
    let mut seen: Vec<bool> = vec![false; nc];
    let mut xadj: Vec<usize> = filled(0, 1);
    let mut adjncy: Vec<usize> = Vec::new();
    let mut adjwgt: Vec<i64> = Vec::new();

    let mut cu: usize = 0;
    while cu < nc
        invariant
            g.wf(),
            n == g.n,
            cmap@.len() == n,
            forall|v: int| 0 <= v < n ==> #[trigger] cmap@[v] < nc,
            head@.len() == nc,
            next@.len() == n,
            forall|c: int| 0 <= c < nc ==> #[trigger] head@[c] <= n,
            forall|v: int| 0 <= v < n ==> #[trigger] next@[v] <= v,
            acc@.len() == nc,
            seen@.len() == nc,
            cu <= nc,
            xadj@.len() == cu + 1,
            xadj@[0] == 0,
            xadj@[cu as int] == adjncy@.len(),
            forall|a: int, b: int| 0 <= a <= b <= cu ==> #[trigger] xadj@[a] <= #[trigger] xadj@[b],
            forall|j: int| 0 <= j < adjncy@.len() ==> #[trigger] adjncy@[j] < nc,
            adjwgt@.len() == adjncy@.len(),
            forall|c: int| 0 <= c < cu ==> #[trigger] segment_ok(xadj@, adjncy@, c),
            forall|x: int| 0 <= x < nc ==> !#[trigger] seen@[x],
            forall|c: int|
                0 <= c < nc ==> #[trigger] chain_set(next@, head@[c] as int) == members(
                    cmap@,
                    c,
                    n as int,
                ),
            forall|c: int, d: int|
                0 <= c < cu && 0 <= d < nc ==> #[trigger] row_has(xadj@, adjncy@, c, d) == (d != c
                    && coarse_adjacent(g, cmap@, c, d)),
            g.weights_fit() ==> forall|x: int| 0 <= x < nc ==> #[trigger] acc@[x] == 0,
            g.weights_fit() ==> forall|c: int|
                0 <= c < cu ==> #[trigger] row_weights_ok(g, cmap@, xadj@, adjncy@, adjwgt@, c),
        decreases nc - cu,
    {
        let ghost x0 = xadj@;
        let ghost a0 = adjncy@;
        let ghost w0 = adjwgt@;
        let mut touched: Vec<usize> = Vec::new();
        let mut cur = head[cu];
        proof {
            assert(chain_set(next@, cur as int) == members(cmap@, cu as int, n as int));
            if g.weights_fit() {
                assert forall|x: int| 0 <= x < nc && x != cu implies #[trigger] acc@[x]
                    == weight_from(g, cmap@, cu as int, chain_set(next@, cur as int), x, n as int) by {
                    assert forall|u: int|
                        0 <= u < n && cmap@[u] == cu && !chain_set(next@, cur as int).contains(
                            u,
                        ) implies #[trigger] weight_to(g, cmap@, u, g.deg(u), x) == 0 by {
                        assert(members(cmap@, cu as int, n as int).contains(u));
                    }
                    lemma_weight_from_zero(
                        g,
                        cmap@,
                        cu as int,
                        chain_set(next@, cur as int),
                        x,
                        n as int,
                    );
                }
            }
            assert forall|x: int| 0 <= x < nc && x != cu implies #[trigger] seen@[x]
                == reached_from(g, cmap@, cu as int, chain_set(next@, cur as int), x) by {
                if reached_from(g, cmap@, cu as int, chain_set(next@, cur as int), x) {
                    let w = choose|w: int|
                        0 <= w < g.n && cmap@[w] == cu && !chain_set(next@, cur as int).contains(w)
                            && reaches(g, cmap@, w, g.deg(w), x);
                    assert(members(cmap@, cu as int, n as int).contains(w));
                }
            }
        }
        while cur != 0
            invariant
                g.wf(),
                n == g.n,
                cur <= n,
                cmap@.len() == n,
                forall|v: int| 0 <= v < n ==> #[trigger] cmap@[v] < nc,
                next@.len() == n,
                forall|v: int| 0 <= v < n ==> #[trigger] next@[v] <= v,
                acc@.len() == nc,
                seen@.len() == nc,
                forall|j: int| 0 <= j < touched@.len() ==> #[trigger] touched@[j] < nc,
                forall|j: int| 0 <= j < touched@.len() ==> #[trigger] touched@[j] != cu,
                forall|x: int| 0 <= x < nc ==> #[trigger] seen@[x] == touched@.contains(x as usize),
                touched@.no_duplicates(),
                forall|v: int|
                    #[trigger] chain_set(next@, cur as int).contains(v) ==> 0 <= v < n && cmap@[v]
                        == cu,
                forall|x: int|
                    0 <= x < nc && x != cu ==> #[trigger] seen@[x] == reached_from(
                        g,
                        cmap@,
                        cu as int,
                        chain_set(next@, cur as int),
                        x,
                    ),
                g.weights_fit() ==> acc@[cu as int] == 0,
                g.weights_fit() ==> forall|x: int|
                    0 <= x < nc && x != cu ==> #[trigger] acc@[x] == weight_from(
                        g,
                        cmap@,
                        cu as int,
                        chain_set(next@, cur as int),
                        x,
                        n as int,
                    ),
            decreases cur,
        {
            let fu = cur - 1;
            let ghost rest = chain_set(next@, cur as int);
            proof {
                assert(next@[fu as int] < cur);
                assert(rest == chain_set(next@, next@[fu as int] as int).insert(fu as int));
                assert(rest.contains(fu as int));
            }
            let d = g.degree(fu);
            let mut k: usize = 0;
            while k < d
                invariant
                    g.wf(),
                    n == g.n,
                    fu < n,
                    d == g.deg(fu as int),
                    k <= d,
                    cmap@.len() == n,
                    forall|v: int| 0 <= v < n ==> #[trigger] cmap@[v] < nc,
                    acc@.len() == nc,
                    seen@.len() == nc,
                    forall|j: int| 0 <= j < touched@.len() ==> #[trigger] touched@[j] < nc,
                    forall|j: int| 0 <= j < touched@.len() ==> #[trigger] touched@[j] != cu,
                    forall|x: int| 0 <= x < nc ==> #[trigger] seen@[x] == touched@.contains(
                        x as usize,
                    ),
                    touched@.no_duplicates(),
                    cmap@[fu as int] == cu,
                    forall|x: int|
                        0 <= x < nc && x != cu ==> #[trigger] seen@[x] == (reached_from(
                            g,
                            cmap@,
                            cu as int,
                            rest,
                            x,
                        ) || reaches(g, cmap@, fu as int, k as int, x)),
                    rest.contains(fu as int),
                    g.weights_fit() ==> acc@[cu as int] == 0,
                    g.weights_fit() ==> forall|x: int|
                        0 <= x < nc && x != cu ==> #[trigger] acc@[x] == weight_from(
                            g,
                            cmap@,
                            cu as int,
                            rest,
                            x,
                            n as int,
                        ) + weight_to(g, cmap@, fu as int, k as int, x),
                decreases d - k,
            {
                let v = g.adjncy[g.xadj[fu] + k];
                let cv = cmap[v];
                if cv != cu {
                    if !seen[cv] {
                        let ghost t0 = touched@;
                        seen.set(cv, true);
                        touched.push(cv);
                        proof {
                            assert(!t0.contains(cv));
                            assert forall|x: int| 0 <= x < nc implies #[trigger] seen@[x]
                                == touched@.contains(x as usize) by {
                                if x != cv as int {
                                    if touched@.contains(x as usize) {
                                        let j = choose|j: int|
                                            0 <= j < touched@.len() && touched@[j] == x as usize;
                                        assert(j < t0.len());
                                        assert(t0[j] == x as usize);
                                    }
                                    if t0.contains(x as usize) {
                                        let j = choose|j: int|
                                            0 <= j < t0.len() && t0[j] == x as usize;
                                        assert(touched@[j] == x as usize);
                                    }
                                } else {
                                    assert(touched@[t0.len() as int] == cv);
                                }
                            }
                        }
                    }
                    proof {
                        if g.weights_fit() {
                            lemma_weight_from_remove(
                                g,
                                cmap@,
                                cu as int,
                                rest,
                                cv as int,
                                fu as int,
                                n as int,
                            );
                            lemma_weight_from_le(
                                g,
                                cmap@,
                                cu as int,
                                rest.remove(fu as int),
                                cv as int,
                                n as int,
                            );
                            lemma_weight_from_le(g, cmap@, cu as int, rest, cv as int, n as int);
                            lemma_weight_to_le(
                                g,
                                cmap@,
                                fu as int,
                                (k + 1) as int,
                                d as int,
                                cv as int,
                            );
                            assert(v as int == g.nbr(fu as int, k as int));
                        }
                    }
                    acc.set(cv, sat_add(acc[cv], g.edge_weight(fu, k)));
                }
                proof {
                    assert(v as int == g.nbr(fu as int, k as int));
                    if g.weights_fit() {
                        assert forall|x: int| 0 <= x < nc && x != cu implies #[trigger] acc@[x]
                            == weight_from(g, cmap@, cu as int, rest, x, n as int) + weight_to(
                            g,
                            cmap@,
                            fu as int,
                            k + 1,
                            x,
                        ) by {}
                    }
                    assert forall|x: int| 0 <= x < nc && x != cu implies #[trigger] seen@[x] == (
                    reached_from(g, cmap@, cu as int, rest, x) || reaches(
                        g,
                        cmap@,
                        fu as int,
                        k + 1,
                        x,
                    )) by {
                        if reaches(g, cmap@, fu as int, k + 1, x) && !reaches(
                            g,
                            cmap@,
                            fu as int,
                            k as int,
                            x,
                        ) {
                            let k2 = choose|k2: int|
                                0 <= k2 < k + 1 && cmap@[g.nbr(fu as int, k2)] == x;
                            assert(k2 == k);
                        }
                        if x == cv as int {
                            assert(cmap@[g.nbr(fu as int, k as int)] == x);
                        }
                        if reaches(g, cmap@, fu as int, k as int, x) {
                            let k2 = choose|k2: int| 0 <= k2 < k && cmap@[g.nbr(fu as int, k2)] == x;
                            assert(0 <= k2 < k + 1);
                        }
                    }
                }
                k = k + 1;
            }
            proof {
                lemma_chain_below(next@, next@[fu as int] as int);
                let rest2 = chain_set(next@, next@[fu as int] as int);
                assert(!rest2.contains(fu as int));
                assert forall|v: int| #[trigger] rest2.contains(v) implies 0 <= v < n && cmap@[v]
                    == cu by {
                    assert(rest.contains(v));
                }
                assert(rest2 =~= rest.remove(fu as int));
                if g.weights_fit() {
                    assert forall|x: int| 0 <= x < nc && x != cu implies #[trigger] acc@[x]
                        == weight_from(g, cmap@, cu as int, rest2, x, n as int) by {
                        lemma_weight_from_remove(g, cmap@, cu as int, rest, x, fu as int, n as int);
                    }
                }
                assert forall|x: int| 0 <= x < nc && x != cu implies #[trigger] seen@[x]
                    == reached_from(g, cmap@, cu as int, rest2, x) by {
                    if reached_from(g, cmap@, cu as int, rest, x) {
                        let w = choose|w: int|
                            0 <= w < g.n && cmap@[w] == cu && !rest.contains(w) && reaches(
                                g,
                                cmap@,
                                w,
                                g.deg(w),
                                x,
                            );
                        assert(!rest2.contains(w));
                    }
                    if reaches(g, cmap@, fu as int, d as int, x) {
                        assert(!rest2.contains(fu as int));
                    }
                    if reached_from(g, cmap@, cu as int, rest2, x) {
                        let w = choose|w: int|
                            0 <= w < g.n && cmap@[w] == cu && !rest2.contains(w) && reaches(
                                g,
                                cmap@,
                                w,
                                g.deg(w),
                                x,
                            );
                        if w != fu as int {
                            assert(!rest.contains(w));
                        }
                    }
                }
            }
            cur = next[fu];
        }

        // Emit the neighbors of `cu` sorted by id, and clear what was used
        proof {
            assert(chain_set(next@, 0) == Set::<int>::empty());
            if g.weights_fit() {
                assert forall|x: int| 0 <= x < nc && x != cu implies #[trigger] acc@[x]
                    == coarse_weight(g, cmap@, cu as int, x) by {
                    assert(chain_set(next@, 0) =~= Set::<int>::empty());
                }
                assert forall|x: int| 0 <= x < nc && !seen@[x] implies #[trigger] acc@[x] == 0 by {
                    if x != cu {
                        assert forall|u: int|
                            0 <= u < n && cmap@[u] == cu && !Set::<int>::empty().contains(
                                u,
                            ) implies #[trigger] weight_to(g, cmap@, u, g.deg(u), x) == 0 by {
                            if reaches(g, cmap@, u, g.deg(u), x) {
                                assert(coarse_adjacent(g, cmap@, cu as int, x));
                            }
                            lemma_weight_to_zero(g, cmap@, u, g.deg(u), x);
                        }
                        lemma_weight_from_zero(g, cmap@, cu as int, Set::empty(), x, n as int);
                    }
                }
            }
            assert forall|x: int| 0 <= x < nc implies #[trigger] seen@[x] == (x != cu
                && coarse_adjacent(g, cmap@, cu as int, x)) by {
                if x != cu {
                    assert(seen@[x] == reached_from(g, cmap@, cu as int, chain_set(next@, 0), x));
                    if coarse_adjacent(g, cmap@, cu as int, x) {
                        let w = choose|w: int|
                            0 <= w < g.n && cmap@[w] == cu && reaches(g, cmap@, w, g.deg(w), x);
                        assert(!chain_set(next@, 0).contains(w));
                    }
                } else if touched@.contains(cu) {
                    let j = choose|j: int| 0 <= j < touched@.len() && touched@[j] == cu;
                    assert(touched@[j] != cu);
                }
            }
        }
        let ghost before = touched@;
        sort_ids(&mut touched);
        proof {
            before.to_multiset_ensures();
            touched@.to_multiset_ensures();
            assert forall|j: int| 0 <= j < touched@.len() implies #[trigger] touched@[j] < nc
                && touched@[j] != cu by {
                assert(touched@.to_multiset().count(touched@[j]) > 0);
                assert(before.contains(touched@[j]));
                let w = choose|w: int| 0 <= w < before.len() && before[w] == touched@[j];
                assert(before[w] < nc && before[w] != cu);
            }
            before.lemma_multiset_has_no_duplicates();
            touched@.lemma_multiset_has_no_duplicates_conv();
            assert forall|x: int| 0 <= x < nc implies #[trigger] seen@[x] == touched@.contains(
                x as usize,
            ) by {
                assert(seen@[x] == before.contains(x as usize));
                assert(before.to_multiset() == touched@.to_multiset());
                assert(before.contains(x as usize) == (before.to_multiset().count(x as usize) > 0));
                assert(touched@.contains(x as usize) == (touched@.to_multiset().count(x as usize)
                    > 0));
            }
            assert forall|j1: int, j2: int| 0 <= j1 < j2 < touched@.len() implies #[trigger] touched@[j1]
                < #[trigger] touched@[j2] by {
                assert(touched@[j1] <= touched@[j2]);
            }
            assert forall|x: int| 0 <= x < nc implies #[trigger] touched@.contains(x as usize) == (x
                != cu && coarse_adjacent(g, cmap@, cu as int, x)) by {
                assert(seen@[x] == touched@.contains(x as usize));
            }
        }
        let ghost start = adjncy@.len();
        let mut i: usize = 0;
        while i < touched.len()
            invariant
                forall|j: int| 0 <= j < touched@.len() ==> #[trigger] touched@[j] < nc,
                acc@.len() == nc,
                seen@.len() == nc,
                xadj@ == x0,
                start == a0.len(),
                i <= touched@.len(),
                forall|j1: int, j2: int|
                    0 <= j1 < j2 < touched@.len() ==> #[trigger] touched@[j1] < #[trigger] touched@[j2],
                forall|x: int|
                    0 <= x < nc && #[trigger] seen@[x] ==> exists|j: int|
                        i <= j < touched@.len() && touched@[j] == x as usize,
                adjncy@.len() == start + i,
                adjncy@.subrange(0, start as int) == a0,
                forall|j: int| 0 <= j < i ==> #[trigger] adjncy@[start + j] == touched@[j],
                forall|j: int| 0 <= j < adjncy@.len() ==> #[trigger] adjncy@[j] < nc,
                adjwgt@.len() == adjncy@.len(),
                adjwgt@.subrange(0, start as int) == w0,
                w0.len() == start,
                g.weights_fit() ==> forall|x: int|
                    0 <= x < nc && x != cu && #[trigger] seen@[x] ==> acc@[x] == coarse_weight(
                        g,
                        cmap@,
                        cu as int,
                        x,
                    ),
                g.weights_fit() ==> forall|x: int| 0 <= x < nc && !seen@[x] ==> #[trigger] acc@[x] == 0,
                forall|j: int| i <= j < touched@.len() ==> #[trigger] seen@[touched@[j] as int],
                forall|j: int| 0 <= j < touched@.len() ==> #[trigger] touched@[j] != cu,
                g.weights_fit() ==> forall|j: int|
                    0 <= j < i ==> #[trigger] adjwgt@[start + j] as int == coarse_weight(
                        g,
                        cmap@,
                        cu as int,
                        touched@[j] as int,
                    ),
            decreases touched@.len() - i,
        {
            let cv = touched[i];
            adjncy.push(cv);
            adjwgt.push(acc[cv]);
            acc.set(cv, 0);
            let ghost s0 = seen@;
            seen.set(cv, false);
            proof {
                assert(adjwgt@.subrange(0, start as int) =~= w0);
                assert forall|j: int| i + 1 <= j < touched@.len() implies #[trigger] seen@[touched@[j] as int] by {
                    assert(touched@[i as int] < touched@[j]);
                }
                assert forall|x: int| 0 <= x < nc && #[trigger] seen@[x] implies exists|j: int|
                    i + 1 <= j < touched@.len() && touched@[j] == x as usize by {
                    assert(s0[x]);
                    let j = choose|j: int| i <= j < touched@.len() && touched@[j] == x as usize;
                    assert(j != i);
                }
            }
            i = i + 1;
            assert(adjncy@.subrange(0, start as int) =~= a0);
        }
        xadj.push(adjncy.len());
        proof {
            assert forall|c: int| 0 <= c < cu + 1 implies #[trigger] segment_ok(
                xadj@,
                adjncy@,
                c,
            ) by {
                if c < cu {
                    assert(segment_ok(x0, a0, c));
                    assert(x0[c + 1] <= x0[cu as int]);
                    lemma_segment_extend(x0, a0, xadj@, adjncy@, c);
                } else {
                    assert forall|j1: int, j2: int|
                        xadj@[c] <= j1 < j2 < xadj@[c + 1] implies #[trigger] adjncy@[j1]
                        < #[trigger] adjncy@[j2] by {
                        assert(adjncy@[start + (j1 - start)] == touched@[j1 - start]);
                        assert(adjncy@[start + (j2 - start)] == touched@[j2 - start]);
                    }
                    assert forall|j: int| xadj@[c] <= j < xadj@[c + 1] implies #[trigger] adjncy@[j]
                        != c by {
                        assert(adjncy@[start + (j - start)] == touched@[j - start]);
                    }
                }
            }
            if g.weights_fit() {
                assert forall|c: int| 0 <= c < cu + 1 implies #[trigger] row_weights_ok(
                    g,
                    cmap@,
                    xadj@,
                    adjncy@,
                    adjwgt@,
                    c,
                ) by {
                    if c < cu {
                        assert(row_weights_ok(g, cmap@, x0, a0, w0, c));
                        assert(x0[c + 1] <= x0[cu as int]);
                        assert forall|j: int| xadj@[c] <= j < xadj@[c + 1] implies #[trigger] adjwgt@[j]
                            as int == coarse_weight(g, cmap@, c, adjncy@[j] as int) by {
                            assert(adjwgt@.subrange(0, start as int)[j] == adjwgt@[j]);
                            assert(adjncy@.subrange(0, start as int)[j] == adjncy@[j]);
                            assert(w0[j] as int == coarse_weight(g, cmap@, c, a0[j] as int));
                        }
                    } else {
                        assert forall|j: int| xadj@[c] <= j < xadj@[c + 1] implies #[trigger] adjwgt@[j]
                            as int == coarse_weight(g, cmap@, c, adjncy@[j] as int) by {
                            assert(adjwgt@[start + (j - start)] as int == coarse_weight(
                                g,
                                cmap@,
                                cu as int,
                                touched@[j - start] as int,
                            ));
                            assert(adjncy@[start + (j - start)] == touched@[j - start]);
                        }
                    }
                }
                assert forall|x: int| 0 <= x < nc implies #[trigger] acc@[x] == 0 by {
                    assert(!seen@[x]);
                }
            }
            assert forall|c: int, d: int| 0 <= c < cu + 1 && 0 <= d < nc implies #[trigger] row_has(
                xadj@,
                adjncy@,
                c,
                d,
            ) == (d != c && coarse_adjacent(g, cmap@, c, d)) by {
                if c < cu {
                    assert(segment_ok(x0, a0, c));
                    assert(x0[c + 1] <= x0[cu as int]);
                    lemma_segment_extend(x0, a0, xadj@, adjncy@, c);
                    assert(row_has(x0, a0, c, d) == (d != c && coarse_adjacent(g, cmap@, c, d)));
                } else {
                    assert(touched@.contains(d as usize) == (d != cu && coarse_adjacent(
                        g,
                        cmap@,
                        cu as int,
                        d,
                    )));
                    if row_has(xadj@, adjncy@, c, d) {
                        let j = choose|j: int| xadj@[c] <= j < xadj@[c + 1] && adjncy@[j] == d;
                        assert(adjncy@[start + (j - start)] == touched@[j - start]);
                        assert(touched@.contains(d as usize));
                    }
                    if touched@.contains(d as usize) {
                        let j = choose|j: int| 0 <= j < touched@.len() && touched@[j] == d as usize;
                        assert(adjncy@[start + j] == touched@[j]);
                        assert(xadj@[c] <= start + j < xadj@[c + 1]);
                    }
                }
            }
        }
        cu = cu + 1;
    }
    assert forall|c: int| 0 <= c < nc implies #[trigger] segment_ok(xadj@, adjncy@, c)
        && xadj@[c] <= xadj@[c + 1] by {}

    let cg = Graph { n: nc, xadj, adjncy, adjwgt, vwgt: cvwgt };
    assert forall|c: int| 0 <= c < nc implies #[trigger] cg.row_sorted(c) by {
        assert(segment_ok(cg.xadj@, cg.adjncy@, c));
        assert forall|k1: int, k2: int| 0 <= k1 < k2 < cg.deg(c) implies #[trigger] cg.nbr(c, k1)
            < #[trigger] cg.nbr(c, k2) by {
            assert(cg.adjncy@[cg.xadj@[c] + k1] < cg.adjncy@[cg.xadj@[c] + k2]);
        }
    }
    assert forall|c: int, d: int| 0 <= c < nc && 0 <= d < nc implies #[trigger] is_neighbor(
        &cg,
        c,
        d,
    ) == (d != c && coarse_adjacent(g, cmap@, c, d)) by {
        assert(row_has(cg.xadj@, cg.adjncy@, c, d) == (d != c && coarse_adjacent(g, cmap@, c, d)));
        assert(cg.xadj@[c] <= cg.xadj@[c + 1]);
        if is_neighbor(&cg, c, d) {
            let k = choose|k: int| 0 <= k < cg.deg(c) && cg.nbr(c, k) == d;
            assert(cg.adjncy@[cg.xadj@[c] + k] == d);
        }
        if row_has(cg.xadj@, cg.adjncy@, c, d) {
            let j = choose|j: int| cg.xadj@[c] <= j < cg.xadj@[c + 1] && cg.adjncy@[j] == d;
            assert(cg.nbr(c, j - cg.xadj@[c]) == d);
        }
    }
    proof {
        if g.weights_fit() {
            assert forall|c: int, k: int| 0 <= c < nc && 0 <= k < cg.deg(c) implies #[trigger] cg.ew(
                c,
                k,
            ) == coarse_weight(g, cmap@, c, cg.nbr(c, k)) by {
                assert(row_weights_ok(g, cmap@, cg.xadj@, cg.adjncy@, cg.adjwgt@, c));
                assert(cg.adjwgt@[cg.xadj@[c] + k] as int == coarse_weight(
                    g,
                    cmap@,
                    c,
                    cg.adjncy@[cg.xadj@[c] + k] as int,
                ));
            }
        }
    }
    assert forall|c: int| 0 <= c < nc implies #[trigger] cg.no_self_loop(c) by {
        assert(segment_ok(cg.xadj@, cg.adjncy@, c));
        assert forall|k: int| 0 <= k < cg.deg(c) implies #[trigger] cg.nbr(c, k) != c by {
            assert(cg.adjncy@[cg.xadj@[c] + k] != c);
        }
    }
    cg
}

/// Coarsen the graph repeatedly while it has more than `threshold` vertices,
/// stopping early when a level makes no progress (no vertex has an edge of
/// non-negative weight to a higher vertex).
///
/// Returns a stack of coarsening levels (finest to coarsest): each level
/// contracts the graph before it by its heavy-edge matching to strictly fewer
/// vertices, and was made from a graph of more than `threshold` vertices.
pub fn multilevel_coarsen(g: &Graph, threshold: usize) -> (levels: Vec<CoarsenLevel>)
    requires
        g.wf(),
    ensures
        is_level_stack(g, levels@),
        forall|i: int| 0 <= i < levels@.len() ==> fine_n(g, levels@, i) > threshold,
        top_n(g, levels@) <= threshold || cannot_contract(
            &fine_graph(g, levels@, levels@.len() as int),
        ),
{
    let mut levels: Vec<CoarsenLevel> = Vec::new();
    let mut go = true;

    while go
        invariant
            g.wf(),
            is_level_stack(g, levels@),
            forall|i: int| 0 <= i < levels@.len() ==> fine_n(g, levels@, i) > threshold,
            !go ==> top_n(g, levels@) <= threshold || cannot_contract(
                &fine_graph(g, levels@, levels@.len() as int),
            ),
        decreases 2 * top_n(g, levels@) + if go { 1int } else { 0 },
    {
        let len = levels.len();
        let current: &Graph = if len == 0 {
            g
        } else {
            &levels[len - 1].graph
        };
        proof {
            if len > 0 {
                assert(level_ok(g, levels@, len - 1));
            }
        }
        assert(*current == fine_graph(g, levels@, len as int));
        if current.n <= threshold {
            go = false;
        } else {
            let level = coarsen_once(current);
            // Stop if coarsening made no progress
            if level.nc >= current.n {
                go = false;
            } else {
                let ghost old_levels = levels@;
                let ghost cur_n = current.n as int;
                let ghost cur_g = *current;
                assert(cur_n == fine_n(g, old_levels, len as int));
                assert(cur_g == fine_graph(g, old_levels, len as int));
                levels.push(level);
                proof {
                    assert(len == 0 || levels@[len - 1] == old_levels[len - 1]);
                    assert(fine_n(g, levels@, len as int) == cur_n);
                    assert(fine_graph(g, levels@, len as int) == cur_g);
                    assert forall|i: int| 0 <= i < levels@.len() implies #[trigger] level_ok(
                        g,
                        levels@,
                        i,
                    ) by {
                        if i < old_levels.len() {
                            assert(levels@[i] == old_levels[i]);
                            assert(fine_n(g, levels@, i) == fine_n(g, old_levels, i));
                            assert(fine_graph(g, levels@, i) == fine_graph(g, old_levels, i));
                            assert(level_ok(g, old_levels, i));
                        } else {
                            assert(i == len);
                            assert(levels@[i].contracts(cur_n));
                            assert(is_contraction(&cur_g, &levels@[i]));
                            assert(levels@[i].nc < cur_n);
                        }
                    }
                    assert forall|i: int| 0 <= i < levels@.len() implies fine_n(g, levels@, i)
                        > threshold by {
                        if i < old_levels.len() {
                            assert(fine_n(g, levels@, i) == fine_n(g, old_levels, i));
                        }
                    }
                }
            }
        }
    }

    levels
}

} // verus!
