use squareknot::coloring::{TABLE_THRESHOLD, UNCOLORED};
use squareknot::{greedy_coloring, AbstractGraph, SimpleGraph, UnionFind};

fn graph_of(n: usize, edges: &[(usize, usize)]) -> SimpleGraph {
    let mut g = SimpleGraph::empty(n);
    for &(u, v) in edges {
        assert!(g.add_edge(u, v));
    }
    g
}

fn assert_proper(g: &SimpleGraph, chrom: usize, coloring: &[usize]) {
    for (u, v) in g.edge_iterator() {
        if u != v && coloring[u] != UNCOLORED && coloring[v] != UNCOLORED {
            assert_ne!(coloring[u], coloring[v]);
        }
    }
    for &c in coloring {
        assert!(c == UNCOLORED || c < chrom);
    }
}

#[test]
fn coloring_a_path_takes_two_colors() {
    let g = graph_of(5, &[(0, 1), (1, 2), (2, 3), (3, 4)]);
    let (chrom, coloring) = greedy_coloring(&g, &[0, 1, 2, 3, 4]);
    assert_eq!(chrom, 2);
    assert_eq!(coloring, vec![0, 1, 0, 1, 0]);
}

#[test]
fn coloring_depends_on_the_order() {
    let g = graph_of(4, &[(0, 1), (1, 2), (2, 3)]);
    let (chrom, coloring) = greedy_coloring(&g, &[0, 3, 1, 2]);
    assert_eq!(chrom, 3);
    assert_eq!(coloring, vec![0, 1, 2, 0]);
    assert_proper(&g, chrom, &coloring);
}

#[test]
fn coloring_a_complete_graph_takes_a_color_per_vertex() {
    let g = SimpleGraph::complete_graph(4);
    let (chrom, coloring) = greedy_coloring(&g, &[2, 0, 3, 1]);
    assert_eq!(chrom, 4);
    assert_eq!(coloring, vec![1, 3, 0, 2]);
}

#[test]
fn coloring_leaves_other_vertices_uncolored() {
    let g = graph_of(4, &[(0, 1), (1, 2)]);
    let (chrom, coloring) = greedy_coloring(&g, &[1, 2]);
    assert_eq!(chrom, 2);
    assert_eq!(coloring, vec![UNCOLORED, 0, 1, UNCOLORED]);
    let (none, blank) = greedy_coloring(&g, &[]);
    assert_eq!(none, 0);
    assert_eq!(blank, vec![UNCOLORED; 4]);
}

#[test]
fn coloring_a_vertex_again_gives_it_the_least_free_color() {
    let g = graph_of(3, &[(0, 1), (1, 2)]);
    let (chrom, coloring) = greedy_coloring(&g, &[0, 1, 2, 1, 1]);
    assert_eq!(chrom, 2);
    assert_eq!(coloring, vec![0, 1, 0]);
    assert_proper(&g, chrom, &coloring);
}

#[test]
fn coloring_with_a_large_neighborhood() {
    let leaves = TABLE_THRESHOLD + 100;
    let edges: Vec<(usize, usize)> = (1..=leaves).map(|v| (0, v)).collect();
    let g = graph_of(leaves + 1, &edges);
    let mut order: Vec<usize> = (1..=leaves).collect();
    order.push(0);
    let (chrom, coloring) = greedy_coloring(&g, &order);
    assert_eq!(chrom, 2);
    assert_eq!(coloring[0], 1);
    assert!(coloring[1..].iter().all(|c| *c == 0));

    let mut wheel = edges.clone();
    for v in 1..leaves {
        wheel.push((v, v + 1));
    }
    let g = graph_of(leaves + 1, &wheel);
    let (chrom, coloring) = greedy_coloring(&g, &order);
    assert_eq!(chrom, 3);
    assert_eq!(coloring[0], 2);
    assert_eq!(coloring[1], 0);
    assert_eq!(coloring[2], 1);
    assert_proper(&g, chrom, &coloring);
    let back: Vec<usize> = (0..=leaves).collect();
    let (chrom, coloring) = greedy_coloring(&g, &back);
    assert_eq!(chrom, 3);
    assert_eq!(&coloring[..4], &[0, 1, 2, 1]);
    assert_proper(&g, chrom, &coloring);
}

#[test]
fn union_find_starts_with_sets_of_one() {
    let uf = UnionFind::new(4);
    for v in 0..4 {
        assert_eq!(uf.find(v), v);
    }
}

#[test]
fn union_find_merges_by_size() {
    let mut uf = UnionFind::new(6);
    uf.union(0, 1);
    assert_eq!(uf.find(0), 0);
    assert_eq!(uf.find(1), 0);
    uf.union(2, 1);
    assert_eq!(uf.find(2), 0);
    uf.union(3, 4);
    assert_eq!(uf.find(4), 3);
    uf.union(4, 0);
    assert_eq!(uf.find(3), 0);
    assert_eq!(uf.find(4), 3);
    uf.union(4, 5);
    assert_eq!(uf.find(4), 0);
    assert_eq!(uf.find(5), 0);
    uf.union(5, 5);
    uf.union(1, 2);
    for v in [0usize, 1, 2, 3, 4, 5] {
        assert_eq!(uf.find(v), 0);
    }
}

#[test]
fn union_find_keeps_sets_apart() {
    let mut uf = UnionFind::new(5);
    uf.union(3, 1);
    uf.union(4, 2);
    assert_eq!(uf.find(1), 3);
    assert_eq!(uf.find(2), 4);
    assert_eq!(uf.find(0), 0);
    assert_eq!(uf.find(3), 3);
    assert_eq!(uf.find(4), 4);
}
