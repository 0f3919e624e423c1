use metis_rs::coarsen::{coarsen_once, multilevel_coarsen};
use metis_rs::partition::{initial_bisection, initial_partition};
use metis_rs::refine::fm_refine;
use metis_rs::{part_kway, partition, Graph};

fn path(n: usize) -> Graph {
    let mut xadj = vec![0usize];
    let mut adjncy = Vec::new();
    for u in 0..n {
        if u > 0 {
            adjncy.push(u - 1);
        }
        if u + 1 < n {
            adjncy.push(u + 1);
        }
        xadj.push(adjncy.len());
    }
    Graph::new(n, xadj, adjncy)
}

fn grid(rows: usize, cols: usize) -> Graph {
    let n = rows * cols;
    let mut xadj = vec![0usize];
    let mut adjncy = Vec::new();
    for r in 0..rows {
        for c in 0..cols {
            if r > 0 {
                adjncy.push((r - 1) * cols + c);
            }
            if c > 0 {
                adjncy.push(r * cols + c - 1);
            }
            if c + 1 < cols {
                adjncy.push(r * cols + c + 1);
            }
            if r + 1 < rows {
                adjncy.push((r + 1) * cols + c);
            }
            xadj.push(adjncy.len());
        }
    }
    Graph::new(n, xadj, adjncy)
}

fn two_triangles() -> Graph {
    Graph::new(
        6,
        vec![0, 2, 4, 7, 10, 12, 14],
        vec![1, 2, 0, 2, 0, 1, 3, 2, 4, 5, 3, 5, 3, 4],
    )
}

#[test]
fn edge_cut_of_one_part_is_zero() {
    let g = two_triangles();
    assert_eq!(g.edge_cut(&[3, 3, 3, 3, 3, 3]), 0);
    assert_eq!(g.edge_cut(&[0, 0, 0, 0, 0, 0]), 0);
}

#[test]
fn edge_cut_is_half_the_cut_entries() {
    let g = path(4);
    assert_eq!(g.edge_cut(&[0, 0, 1, 1]), 1);
    assert_eq!(g.edge_cut(&[0, 1, 0, 1]), 3);
    let g = Graph::new(3, vec![0, 2, 4, 6], vec![1, 2, 0, 2, 0, 1])
        .with_adjwgt(vec![100, 1, 100, 1, 1, 1]);
    assert_eq!(g.edge_cut(&[0, 0, 1]), 2);
    assert_eq!(g.edge_cut(&[0, 1, 1]), 101);
}

#[test]
fn weighted_degree_sums_edge_weights() {
    let g = Graph::new(3, vec![0, 2, 4, 6], vec![1, 2, 0, 2, 0, 1])
        .with_adjwgt(vec![100, 1, 100, 7, 1, 7]);
    for u in 0..3 {
        let mut sum = 0i64;
        for k in 0..g.degree(u) {
            sum += g.edge_weight(u, k);
        }
        assert_eq!(g.weighted_degree(u), sum);
    }
    assert_eq!(g.weighted_degree(0), 101);
    assert_eq!(g.weighted_degree(1), 107);
    assert_eq!(path(3).weighted_degree(1), 2);
}

#[test]
fn graph_queries() {
    let g = path(4).with_vwgt(vec![5, 6, 7, 8]);
    assert_eq!(g.degree(0), 1);
    assert_eq!(g.degree(1), 2);
    assert_eq!(g.neighbors(2), &[1, 3]);
    assert_eq!(g.vertex_weight(3), 8);
    assert_eq!(g.edge_weight(1, 1), 1);
    assert_eq!(path(2).vertex_weight(1), 1);
}

#[test]
fn partition_is_deterministic() {
    let g = grid(10, 10);
    let a = partition(&g, 4);
    let b = partition(&g, 4);
    assert_eq!(a, b);
    assert_eq!(part_kway(&g, 4), a);
}

#[test]
fn one_part_gives_zeros_and_no_cut() {
    let g = grid(5, 5);
    let (cut, part) = partition(&g, 1);
    assert_eq!(cut, 0);
    assert_eq!(part, vec![0; 25]);
    let (cut, part) = partition(&g, 0);
    assert_eq!(cut, 0);
    assert_eq!(part, vec![0; 25]);
}

#[test]
fn as_many_parts_as_vertices() {
    let g = path(5);
    let (cut, part) = partition(&g, 5);
    assert_eq!(part, vec![0, 1, 2, 3, 4]);
    assert_eq!(cut, 4);
    let (cut, part) = partition(&g, 9);
    assert_eq!(part, vec![0, 1, 2, 3, 4]);
    assert_eq!(cut, 4);
}

#[test]
fn larger_grid_uses_coarsening() {
    let g = grid(12, 12);
    let (cut, part) = partition(&g, 4);
    assert_eq!(part.len(), 144);
    assert!(part.iter().all(|&p| p < 4));
    assert_eq!(cut, g.edge_cut(&part));
    for k in 0..4 {
        assert!(part.iter().any(|&p| p == k));
    }
}

#[test]
fn two_equal_components_are_separated() {
    // Two disjoint triangles
    let g = Graph::new(
        6,
        vec![0, 2, 4, 6, 8, 10, 12],
        vec![1, 2, 0, 2, 0, 1, 4, 5, 3, 5, 3, 4],
    );
    let (cut, part) = partition(&g, 2);
    assert_eq!(cut, 0);
    assert_ne!(part[0], part[3]);
}

#[test]
fn coarsen_once_matches_heavy_edges() {
    let g = path(4);
    let level = coarsen_once(&g);
    assert_eq!(level.nc, 2);
    assert_eq!(level.cmap, vec![0, 0, 1, 1]);
    assert_eq!(level.graph.n, 2);
    assert_eq!(level.graph.xadj, vec![0, 1, 2]);
    assert_eq!(level.graph.adjncy, vec![1, 0]);
    assert_eq!(level.graph.adjwgt, vec![1, 1]);
    assert_eq!(level.graph.vwgt, vec![2, 2]);
}

#[test]
fn coarse_neighbors_are_sorted() {
    // 0 is joined to 3, 2, 1 (listed in that order); 0 and 3 are matched.
    let g = Graph::new(4, vec![0, 3, 4, 5, 6], vec![3, 2, 1, 0, 0, 0]);
    let level = coarsen_once(&g);
    assert_eq!(level.cmap, vec![0, 1, 2, 0]);
    assert_eq!(level.graph.xadj, vec![0, 2, 3, 4]);
    assert_eq!(level.graph.adjncy, vec![1, 2, 0, 0]);
    assert_eq!(level.graph.vwgt, vec![2, 1, 1]);
}

#[test]
fn coarse_edges_add_up() {
    // Square 0-1-2-3-0 with weights; 0-1 and 2-3 are matched.
    let g = Graph::new(4, vec![0, 2, 4, 6, 8], vec![1, 3, 0, 2, 1, 3, 2, 0])
        .with_adjwgt(vec![9, 2, 9, 4, 4, 9, 9, 2]);
    let level = coarsen_once(&g);
    assert_eq!(level.cmap, vec![0, 0, 1, 1]);
    assert_eq!(level.graph.adjncy, vec![1, 0]);
    assert_eq!(level.graph.adjwgt, vec![6, 6]);
}

#[test]
fn multilevel_coarsen_stack() {
    let g = path(100);
    let levels = multilevel_coarsen(&g, 20);
    assert!(!levels.is_empty());
    assert_eq!(levels[0].cmap.len(), 100);
    for i in 1..levels.len() {
        assert_eq!(levels[i].cmap.len(), levels[i - 1].graph.n);
        assert!(levels[i].nc < levels[i - 1].nc);
    }
    assert!(levels[levels.len() - 1].nc <= 20);
    assert!(multilevel_coarsen(&g, 100).is_empty());
}

#[test]
fn bisection_of_two_triangles() {
    let g = two_triangles();
    let part = initial_bisection(&g);
    assert_eq!(part.len(), 6);
    assert!(part.iter().all(|&p| p < 2));
    assert_eq!(g.edge_cut(&part), 1);
    assert_eq!(initial_bisection(&path(1)), vec![0]);
    assert!(initial_bisection(&path(0)).is_empty());
}

#[test]
fn recursive_bisection_labels() {
    let g = grid(4, 4);
    let part = initial_partition(&g, 4);
    assert_eq!(part.len(), 16);
    assert!(part.iter().all(|&p| p < 4));
    assert_eq!(initial_partition(&g, 1), vec![0; 16]);
    let part = initial_partition(&g, 3);
    assert!(part.iter().all(|&p| p < 3));
}

#[test]
fn refinement_does_not_worsen_the_cut() {
    let g = two_triangles();
    let mut part = vec![0, 0, 1, 1, 1, 1];
    let before = g.edge_cut(&part);
    fm_refine(&g, &mut part, 2, 10);
    assert!(g.edge_cut(&part) <= before);
    assert!(part.iter().all(|&p| p < 2));
    let mut one = vec![0, 1, 0, 1, 0, 1];
    fm_refine(&g, &mut one, 1, 10);
    assert_eq!(one, vec![0, 1, 0, 1, 0, 1]);
}

#[test]
fn refinement_moves_a_misplaced_vertex() {
    // Vertex 2 belongs with 0 and 1; moving it lowers the cut from 2 to 1.
    let g = two_triangles();
    let mut part = vec![0, 0, 1, 1, 1, 1];
    fm_refine(&g, &mut part, 2, 10);
    assert_eq!(part, vec![0, 0, 0, 1, 1, 1]);
    assert_eq!(g.edge_cut(&part), 1);
}

fn triangle_with_tail(vwgt: Vec<i64>) -> Graph {
    // Triangle 0-1-2 and the edge 2-3
    Graph::new(4, vec![0, 2, 4, 7, 8], vec![1, 2, 0, 2, 0, 1, 3, 2]).with_vwgt(vwgt)
}

#[test]
fn balance_cap_admits_a_move_up_to_the_cap() {
    // total 20, cap = ceil(20 * 1.05 / 2) = 11; part 0 would weigh 10 + 1 = 11
    let g = triangle_with_tail(vec![5, 5, 1, 9]);
    let mut part = vec![0, 0, 1, 1];
    fm_refine(&g, &mut part, 2, 10);
    assert_eq!(part, vec![0, 0, 0, 1]);
    assert_eq!(g.edge_cut(&part), 1);
}

#[test]
fn balance_cap_blocks_a_move_past_the_cap() {
    // total 20, cap = 11; part 0 would weigh 11 + 1 = 12
    let g = triangle_with_tail(vec![5, 6, 1, 8]);
    let mut part = vec![0, 0, 1, 1];
    fm_refine(&g, &mut part, 2, 10);
    assert_eq!(part, vec![0, 0, 1, 1]);
    assert_eq!(g.edge_cut(&part), 2);
}

#[test]
fn bisection_reaches_half_the_weight() {
    let g = path(6).with_vwgt(vec![1, 1, 1, 1, 1, 7]);
    let part = initial_bisection(&g);
    let w0: i64 = (0..6).filter(|&u| part[u] == 0).map(|u| g.vertex_weight(u)).sum();
    assert!(w0 >= 12 / 2);
    let g = path(5);
    let part = initial_bisection(&g);
    let w0 = part.iter().filter(|&&p| p == 0).count();
    assert!(w0 >= 2);
    assert!(w0 < 5);
}

#[test]
fn coarse_weights_add_up() {
    let g = path(5).with_vwgt(vec![3, 4, 5, 6, 7]);
    let level = coarsen_once(&g);
    assert_eq!(level.cmap, vec![0, 0, 1, 1, 2]);
    assert_eq!(level.graph.vwgt, vec![7, 11, 7]);
    assert_eq!(level.graph.xadj, vec![0, 1, 3, 4]);
    assert_eq!(level.graph.adjncy, vec![1, 0, 2, 1]);
}

#[test]
fn recursive_split_follows_the_bisection() {
    let g = grid(4, 4);
    let bisect = initial_bisection(&g);
    for k in [3usize, 4, 5] {
        let part = initial_partition(&g, k);
        for u in 0..16 {
            assert_eq!(part[u] < k / 2, bisect[u] == 0);
        }
    }
    assert_eq!(initial_partition(&g, 2), bisect);
}

#[test]
fn small_graph_result_is_refined_bisection() {
    // Two triangles joined by a bridge: the best seed's growth already admits
    // no improving move, so the result is that bisection itself.
    let g = two_triangles();
    let (cut, part) = partition(&g, 2);
    assert_eq!(part, initial_bisection(&g));
    assert_eq!(cut, 1);
}
