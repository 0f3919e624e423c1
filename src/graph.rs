//! CSR graph representation, with the queries shared by every phase.
//!
//! Weights are `i64`. Every sum of weights the partitioner forms saturates at
//! the bounds of `i64`; on a graph whose weights are non-negative and whose
//! totals fit (`Graph::weights_fit`) no sum reaches them, and the results are
//! exact.
use vstd::prelude::*;

verus! {

/// `x` clamped into the range of `i64`.
pub open spec fn clamp64(x: int) -> int {
    if x > i64::MAX {
        i64::MAX as int
    } else if x < i64::MIN {
        i64::MIN as int
    } else {
        x
    }
}

/// Addition that saturates at the bounds of `i64`.
pub fn sat_add(a: i64, b: i64) -> (r: i64)
    ensures
        r == clamp64(a + b),
{
    let s: i128 = a as i128 + b as i128;
    if s > i64::MAX as i128 {
        i64::MAX
    } else if s < i64::MIN as i128 {
        i64::MIN
    } else {
        s as i64
    }
}

/// Subtraction that saturates at the bounds of `i64`.
pub fn sat_sub(a: i64, b: i64) -> (r: i64)
    ensures
        r == clamp64(a - b),
{
    let s: i128 = a as i128 - b as i128;
    if s > i64::MAX as i128 {
        i64::MAX
    } else if s < i64::MIN as i128 {
        i64::MIN
    } else {
        s as i64
    }
}

/// A graph stored in Compressed Sparse Row (CSR) format.
///
/// Vertices are numbered `0..n`. For vertex `u`, its neighbors are
/// `adjncy[xadj[u]..xadj[u+1]]` with corresponding edge weights
/// `adjwgt[xadj[u]..xadj[u+1]]`.
#[derive(Clone, Debug)]
pub struct Graph {
    /// Number of vertices.
    pub n: usize,
    /// Row pointers (length `n + 1`).
    pub xadj: Vec<usize>,
    /// Column indices (flattened neighbor lists).
    pub adjncy: Vec<usize>,
    /// Edge weights aligned with `adjncy`. If empty, all edges have weight 1.
    pub adjwgt: Vec<i64>,
    /// Vertex weights. If empty, all vertices have weight 1.
    pub vwgt: Vec<i64>,
}

impl Graph {
    /// The CSR arrays are consistent: row pointers start at zero, never decrease
    /// and end at the length of `adjncy`; every neighbor is a vertex; the weight
    /// arrays are empty or aligned.
    pub open spec fn wf(&self) -> bool {
        &&& self.xadj@.len() == self.n + 1
        &&& self.xadj@[0] == 0
        &&& forall|i: int, j: int|
            0 <= i <= j <= self.n ==> #[trigger] self.xadj@[i] <= #[trigger] self.xadj@[j]
        &&& self.xadj@[self.n as int] == self.adjncy@.len()
        &&& forall|j: int| 0 <= j < self.adjncy@.len() ==> #[trigger] self.adjncy@[j] < self.n
        &&& (self.adjwgt@.len() == 0 || self.adjwgt@.len() == self.adjncy@.len())
        &&& (self.vwgt@.len() == 0 || self.vwgt@.len() == self.n)
    }

    /// Number of neighbor entries of `u`.
    pub open spec fn deg(&self, u: int) -> int {
        self.xadj@[u + 1] - self.xadj@[u]
    }

    /// The `k`-th neighbor of `u`.
    pub open spec fn nbr(&self, u: int, k: int) -> int {
        self.adjncy@[self.xadj@[u] + k] as int
    }

    /// Weight of the `k`-th edge of `u`.
    pub open spec fn ew(&self, u: int, k: int) -> int {
        if self.adjwgt@.len() == 0 {
            1
        } else {
            self.adjwgt@[self.xadj@[u] + k] as int
        }
    }

    /// Weight of vertex `u`.
    pub open spec fn vw(&self, u: int) -> int {
        if self.vwgt@.len() == 0 {
            1
        } else {
            self.vwgt@[u] as int
        }
    }

    /// Sum of the weights of the first `k` edges of `u`.
    pub open spec fn row_weight(&self, u: int, k: int) -> int
        decreases k,
    {
        if k <= 0 {
            0
        } else {
            self.row_weight(u, k - 1) + self.ew(u, k - 1)
        }
    }

    /// Sum of the weights of those of the first `k` edges of `u` whose other
    /// end lies in another part.
    pub open spec fn row_cut(&self, part: Seq<usize>, u: int, k: int) -> int
        decreases k,
    {
        if k <= 0 {
            0
        } else {
            self.row_cut(part, u, k - 1) + if part[u] != part[self.nbr(u, k - 1)] {
                self.ew(u, k - 1)
            } else {
                0
            }
        }
    }

    /// Summed weight of cut edge entries of the vertices `0..i`.
    pub open spec fn cut_upto(&self, part: Seq<usize>, i: int) -> int
        decreases i,
    {
        if i <= 0 {
            0
        } else {
            self.cut_upto(part, i - 1) + self.row_cut(part, i - 1, self.deg(i - 1))
        }
    }

    /// Summed weight of all edge entries whose ends lie in different parts.
    /// Each undirected edge is stored in both directions, so it counts twice.
    pub open spec fn cut_weight(&self, part: Seq<usize>) -> int {
        self.cut_upto(part, self.n as int)
    }

    /// The edge cut: half the summed weight of the cut edge entries.
    pub open spec fn edge_cut_spec(&self, part: Seq<usize>) -> int {
        self.cut_weight(part) / 2
    }

    /// Summed weight of all edge entries of the vertices `0..i`.
    pub open spec fn edge_total_upto(&self, i: int) -> int
        decreases i,
    {
        if i <= 0 {
            0
        } else {
            self.edge_total_upto(i - 1) + self.row_weight(i - 1, self.deg(i - 1))
        }
    }

    /// Summed weight of the vertices `0..i`.
    pub open spec fn vertex_total_upto(&self, i: int) -> int
        decreases i,
    {
        if i <= 0 {
            0
        } else {
            self.vertex_total_upto(i - 1) + self.vw(i - 1)
        }
    }

    /// Summed weight of the vertices among `0..i` labelled `p`.
    pub open spec fn part_weight_upto(&self, part: Seq<usize>, p: int, i: int) -> int
        decreases i,
    {
        if i <= 0 {
            0
        } else {
            self.part_weight_upto(part, p, i - 1) + if part[i - 1] == p {
                self.vw(i - 1)
            } else {
                0
            }
        }
    }

    /// Summed weight of the vertices labelled `p`.
    pub open spec fn part_weight(&self, part: Seq<usize>, p: int) -> int {
        self.part_weight_upto(part, p, self.n as int)
    }

    /// No edge or vertex weight is negative.
    pub open spec fn nonneg_weights(&self) -> bool {
        &&& forall|j: int| 0 <= j < self.adjwgt@.len() ==> #[trigger] self.adjwgt@[j] >= 0
        &&& forall|u: int| 0 <= u < self.vwgt@.len() ==> #[trigger] self.vwgt@[u] >= 0
    }

    /// All weights are non-negative and both totals fit in an `i64`, so that
    /// every sum the partitioner forms is exact.
    pub open spec fn weights_fit(&self) -> bool {
        &&& self.nonneg_weights()
        &&& self.edge_total_upto(self.n as int) <= i64::MAX
        &&& self.vertex_total_upto(self.n as int) <= i64::MAX
    }

    /// The neighbor list of `u` is sorted by neighbor id, without repeats.
    pub open spec fn row_sorted(&self, u: int) -> bool {
        forall|k1: int, k2: int|
            0 <= k1 < k2 < self.deg(u) ==> #[trigger] self.nbr(u, k1) < #[trigger] self.nbr(u, k2)
    }

    /// `u` is not among its own neighbors.
    pub open spec fn no_self_loop(&self, u: int) -> bool {
        forall|k: int| 0 <= k < self.deg(u) ==> #[trigger] self.nbr(u, k) != u
    }

    /// The vertices `0..n` all carry the same label.
    pub open spec fn one_part(part: Seq<usize>, n: int) -> bool {
        forall|u: int, v: int| 0 <= u < n && 0 <= v < n ==> #[trigger] part[u] == #[trigger] part[v]
    }

    /// Every vertex of `part` is labelled below `k`.
    pub open spec fn labels_below(part: Seq<usize>, k: int) -> bool {
        forall|u: int| 0 <= u < part.len() ==> #[trigger] part[u] < k
    }

    /// Create a graph from CSR arrays.
    pub fn new(n: usize, xadj: Vec<usize>, adjncy: Vec<usize>) -> (g: Self)
        requires
            xadj@.len() == n + 1,
            adjncy@.len() == xadj@[n as int],
        ensures
            g.n == n,
            g.xadj@ == xadj@,
            g.adjncy@ == adjncy@,
            g.adjwgt@.len() == 0,
            g.vwgt@.len() == 0,
    {
        Graph { n, xadj, adjncy, adjwgt: Vec::new(), vwgt: Vec::new() }
    }

    /// Set edge weights.
    pub fn with_adjwgt(self, adjwgt: Vec<i64>) -> (g: Self)
        requires
            adjwgt@.len() == self.adjncy@.len(),
        ensures
            g.n == self.n,
            g.xadj@ == self.xadj@,
            g.adjncy@ == self.adjncy@,
            g.adjwgt@ == adjwgt@,
            g.vwgt@ == self.vwgt@,
            self.wf() ==> g.wf(),
    {
        let mut g = self;
        g.adjwgt = adjwgt;
        g
    }

    /// Set vertex weights.
    pub fn with_vwgt(self, vwgt: Vec<i64>) -> (g: Self)
        requires
            vwgt@.len() == self.n,
        ensures
            g.n == self.n,
            g.xadj@ == self.xadj@,
            g.adjncy@ == self.adjncy@,
            g.adjwgt@ == self.adjwgt@,
            g.vwgt@ == vwgt@,
            self.wf() ==> g.wf(),
    {
        let mut g = self;
        g.vwgt = vwgt;
        g
    }

    /// Degree of vertex `u`.
    pub fn degree(&self, u: usize) -> (r: usize)
        requires
            self.wf(),
            u < self.n,
        ensures
            r == self.deg(u as int),
            self.xadj@[u as int] + r <= self.adjncy@.len(),
    {
        assert(self.xadj@[u as int] <= self.xadj@[u + 1]);
        assert(self.xadj@[u + 1] <= self.xadj@[self.n as int]);
        self.xadj[u + 1] - self.xadj[u]
    }

    /// Neighbors of vertex `u`.
    pub fn neighbors(&self, u: usize) -> (r: &[usize])
        requires
            self.wf(),
            u < self.n,
        ensures
            r@.len() == self.deg(u as int),
            forall|k: int| 0 <= k < r@.len() ==> #[trigger] r@[k] == self.nbr(u as int, k),
    {
        assert(self.xadj@[u as int] <= self.xadj@[u + 1]);
        assert(self.xadj@[u + 1] <= self.xadj@[self.n as int]);
        vstd::slice::slice_subrange(self.adjncy.as_slice(), self.xadj[u], self.xadj[u + 1])
    }

    /// Edge weight for the `k`-th neighbor of `u` (0-indexed within neighbor list).
    pub fn edge_weight(&self, u: usize, k: usize) -> (r: i64)
        requires
            self.wf(),
            u < self.n,
            k < self.deg(u as int),
        ensures
            r == self.ew(u as int, k as int),
    {
        if self.adjwgt.len() == 0 {
            1
        } else {
            assert(self.xadj@[u + 1] <= self.xadj@[self.n as int]);
            self.adjwgt[self.xadj[u] + k]
        }
    }

    /// Vertex weight for `u`.
    pub fn vertex_weight(&self, u: usize) -> (r: i64)
        requires
            self.wf(),
            u < self.n,
        ensures
            r == self.vw(u as int),
    {
        if self.vwgt.len() == 0 {
            1
        } else {
            self.vwgt[u]
        }
    }

    /// Total weight of all edges incident to `u`.
    pub fn weighted_degree(&self, u: usize) -> (r: i64)
        requires
            self.wf(),
            u < self.n,
        ensures
            self.weights_fit() ==> r == self.row_weight(u as int, self.deg(u as int)),
    {
        let d = self.degree(u);
        let mut sum: i64 = 0;
        let mut k: usize = 0;
        while k < d
            invariant
                self.wf(),
                u < self.n,
                d == self.deg(u as int),
                k <= d,
                self.weights_fit() ==> sum == self.row_weight(u as int, k as int),
            decreases d - k,
        {
            let w = self.edge_weight(u, k);
            proof {
                if self.weights_fit() {
                    lemma_row_weight_mono(self, u as int, (k + 1) as int, d as int);
                    lemma_row_weight_mono(self, u as int, 0, (k + 1) as int);
                    lemma_edge_total_mono(self, u as int, (u + 1) as int);
                    lemma_edge_total_mono(self, (u + 1) as int, self.n as int);
                }
            }
            sum = sat_add(sum, w);
            k = k + 1;
        }
        sum
    }

    /// Total edge cut for a given partition assignment.
    pub fn edge_cut(&self, part: &[usize]) -> (r: i64)
        requires
            self.wf(),
            part@.len() >= self.n,
        ensures
            self.weights_fit() ==> r == self.edge_cut_spec(part@),
            Graph::one_part(part@, self.n as int) ==> r == 0,
    {
        let mut cut: i64 = 0;
        let mut u: usize = 0;
        while u < self.n
            invariant
                self.wf(),
                part@.len() >= self.n,
                u <= self.n,
                self.weights_fit() ==> cut == self.cut_upto(part@, u as int),
                Graph::one_part(part@, self.n as int) ==> cut == 0,
            decreases self.n - u,
        {
            let d = self.degree(u);
            let mut k: usize = 0;
            while k < d
                invariant
                    self.wf(),
                    part@.len() >= self.n,
                    u < self.n,
                    d == self.deg(u as int),
                    k <= d,
                    Graph::one_part(part@, self.n as int) ==> cut == 0,
                    self.weights_fit() ==> cut == self.cut_upto(part@, u as int) + self.row_cut(
                        part@,
                        u as int,
                        k as int,
                    ),
                decreases d - k,
            {
                let v = self.adjncy[self.xadj[u] + k];
                if part[u] != part[v] {
                    let w = self.edge_weight(u, k);
                    proof {
                        if self.weights_fit() {
                            lemma_row_cut_le(self, part@, u as int, (k + 1) as int);
                            lemma_row_cut_le(self, part@, u as int, k as int);
                            lemma_row_weight_mono(self, u as int, (k + 1) as int, d as int);
                            lemma_cut_upto_le(self, part@, u as int);
                            lemma_edge_total_mono(self, (u + 1) as int, self.n as int);
                        }
                    }
                    cut = sat_add(cut, w);
                }
                k = k + 1;
            }
            u = u + 1;
        }
        proof {
            if self.weights_fit() {
                lemma_cut_upto_le(self, part@, self.n as int);
            }
        }
        cut / 2
    }
}

/// Partial edge sums of a row grow with their length and are never negative.
pub proof fn lemma_row_weight_mono(g: &Graph, u: int, k1: int, k2: int)
    requires
        g.wf(),
        g.nonneg_weights(),
        0 <= u < g.n,
        0 <= k1 <= k2 <= g.deg(u),
    ensures
        0 <= g.row_weight(u, k1) <= g.row_weight(u, k2),
    decreases k2,
{
    if k2 > k1 {
        lemma_row_weight_mono(g, u, k1, k2 - 1);
        assert(g.xadj@[u + 1] <= g.xadj@[g.n as int]);
        if g.adjwgt@.len() != 0 {
            assert(g.adjwgt@[g.xadj@[u] + k2 - 1] >= 0);
        }
    } else if k1 > 0 {
        lemma_row_weight_mono(g, u, k1 - 1, k1 - 1);
        assert(g.xadj@[u + 1] <= g.xadj@[g.n as int]);
        if g.adjwgt@.len() != 0 {
            assert(g.adjwgt@[g.xadj@[u] + k1 - 1] >= 0);
        }
    }
}

/// The cut part of a row weighs no more than the row.
pub proof fn lemma_row_cut_le(g: &Graph, part: Seq<usize>, u: int, k: int)
    requires
        g.wf(),
        g.nonneg_weights(),
        0 <= u < g.n,
        0 <= k <= g.deg(u),
    ensures
        0 <= g.row_cut(part, u, k) <= g.row_weight(u, k),
    decreases k,
{
    if k > 0 {
        lemma_row_cut_le(g, part, u, k - 1);
        assert(g.xadj@[u + 1] <= g.xadj@[g.n as int]);
        if g.adjwgt@.len() != 0 {
            assert(g.adjwgt@[g.xadj@[u] + k - 1] >= 0);
        }
    }
}

/// Prefix totals of edge weight grow with the prefix.
pub proof fn lemma_edge_total_mono(g: &Graph, i: int, j: int)
    requires
        g.wf(),
        g.nonneg_weights(),
        0 <= i <= j <= g.n,
    ensures
        0 <= g.edge_total_upto(i) <= g.edge_total_upto(j),
    decreases j,
{
    if j > i {
        lemma_edge_total_mono(g, i, j - 1);
        assert(g.xadj@[j - 1] <= g.xadj@[j]);
        lemma_row_weight_mono(g, j - 1, 0, g.deg(j - 1));
    } else if i > 0 {
        lemma_edge_total_mono(g, i - 1, i - 1);
        assert(g.xadj@[i - 1] <= g.xadj@[i]);
        lemma_row_weight_mono(g, i - 1, 0, g.deg(i - 1));
    }
}

/// Prefix totals of vertex weight grow with the prefix.
pub proof fn lemma_vertex_total_mono(g: &Graph, i: int, j: int)
    requires
        g.wf(),
        g.nonneg_weights(),
        0 <= i <= j <= g.n,
    ensures
        0 <= g.vertex_total_upto(i) <= g.vertex_total_upto(j),
    decreases j,
{
    if j > i {
        lemma_vertex_total_mono(g, i, j - 1);
        if g.vwgt@.len() != 0 {
            assert(g.vwgt@[j - 1] >= 0);
        }
    } else if i > 0 {
        lemma_vertex_total_mono(g, i - 1, i - 1);
        if g.vwgt@.len() != 0 {
            assert(g.vwgt@[i - 1] >= 0);
        }
    }
}

/// A part of a prefix weighs no more than the whole prefix.
pub proof fn lemma_part_weight_le(g: &Graph, part: Seq<usize>, p: int, i: int)
    requires
        g.wf(),
        g.nonneg_weights(),
        0 <= i <= g.n,
    ensures
        0 <= g.part_weight_upto(part, p, i) <= g.vertex_total_upto(i),
    decreases i,
{
    if i > 0 {
        lemma_part_weight_le(g, part, p, i - 1);
        if g.vwgt@.len() != 0 {
            assert(g.vwgt@[i - 1] >= 0);
        }
    }
}

/// Relabelling vertex `u` to `to` moves its weight from its old part to `to`.
pub proof fn lemma_part_weight_move(g: &Graph, part: Seq<usize>, u: int, to: usize, p: int, i: int)
    requires
        0 <= u < part.len(),
        0 <= i <= part.len(),
    ensures
        g.part_weight_upto(part.update(u, to), p, i) == g.part_weight_upto(part, p, i) - (if u < i
            && part[u] == p {
            g.vw(u)
        } else {
            0
        }) + (if u < i && to == p {
            g.vw(u)
        } else {
            0
        }),
    decreases i,
{
    if i > 0 {
        lemma_part_weight_move(g, part, u, to, p, i - 1);
    }
}

/// The cut entries of a prefix weigh no more than all its entries.
pub proof fn lemma_cut_upto_le(g: &Graph, part: Seq<usize>, i: int)
    requires
        g.wf(),
        g.nonneg_weights(),
        0 <= i <= g.n,
    ensures
        0 <= g.cut_upto(part, i) <= g.edge_total_upto(i),
    decreases i,
{
    if i > 0 {
        lemma_cut_upto_le(g, part, i - 1);
        assert(g.xadj@[i - 1] <= g.xadj@[i]);
        lemma_row_cut_le(g, part, i - 1, g.deg(i - 1));
    }
}

/// When every vertex is in the same part, no edge is cut: the edge cut is zero.
pub proof fn lemma_uniform_cut_zero(g: &Graph, part: Seq<usize>, c: usize)
    requires
        g.wf(),
        part.len() == g.n,
        forall|u: int| 0 <= u < g.n ==> #[trigger] part[u] == c,
    ensures
        g.cut_weight(part) == 0,
        g.edge_cut_spec(part) == 0,
{
    assert forall|i: int| 0 <= i <= g.n implies #[trigger] g.cut_upto(part, i) == 0 by {
        lemma_uniform_prefix(g, part, c, i);
    }
}

/// With a single part, no prefix has cut entries.
proof fn lemma_uniform_prefix(g: &Graph, part: Seq<usize>, c: usize, i: int)
    requires
        g.wf(),
        part.len() == g.n,
        forall|u: int| 0 <= u < g.n ==> #[trigger] part[u] == c,
        0 <= i <= g.n,
    ensures
        g.cut_upto(part, i) == 0,
    decreases i,
{
    if i > 0 {
        lemma_uniform_prefix(g, part, c, i - 1);
        assert(g.xadj@[i - 1] <= g.xadj@[i]);
        lemma_uniform_row(g, part, c, i - 1, g.deg(i - 1));
    }
}

/// With a single part, no row has cut entries.
proof fn lemma_uniform_row(g: &Graph, part: Seq<usize>, c: usize, u: int, k: int)
    requires
        g.wf(),
        part.len() == g.n,
        forall|u: int| 0 <= u < g.n ==> #[trigger] part[u] == c,
        0 <= u < g.n,
        0 <= k <= g.deg(u),
    ensures
        g.row_cut(part, u, k) == 0,
    decreases k,
{
    if k > 0 {
        lemma_uniform_row(g, part, c, u, k - 1);
        assert(g.xadj@[u + 1] <= g.xadj@[g.n as int]);
        assert(g.adjncy@[g.xadj@[u] + k - 1] < g.n);
    }
}

} // verus!
