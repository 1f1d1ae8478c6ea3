use squareknot::graph::undirected::UnGraph;
use squareknot::{
    AbstractGraph, AdjacencyList, AdjacencyMatrix, AsView, FastGraph, Neighbors, SimpleGraph,
    Storage, TraversalView, ViewCombinator,
};

#[test]
fn neighbors_as_a_slice() {
    let owned = Neighbors::Owned(vec![3, 1, 2]);
    assert_eq!(owned.as_slice(), &[3, 1, 2]);
    let labels = [5usize, 4];
    let borrowed = Neighbors::Referenced(&labels);
    assert_eq!(borrowed.as_slice(), &[5, 4]);
    assert_eq!(Neighbors::Owned(vec![]).as_slice(), &[] as &[usize]);
}

#[test]
fn list_starts_without_edges() {
    let s = AdjacencyList::empty(3);
    assert_eq!(s.num_v_labels(), 3);
    assert_eq!(s.vertex_iterator(), vec![0, 1, 2]);
    assert_eq!(s.edge_iterator(), vec![]);
    for v in 0..3 {
        assert!(s.has_vertex(v));
        assert_eq!(s.neighbor_iterator(v), Some(vec![]));
        assert_eq!(s.out_degree(v), 0);
    }
    assert!(!s.has_vertex(3));
    assert_eq!(AdjacencyList::max_labels(), usize::MAX);
}

#[test]
fn list_keeps_entries_in_insertion_order() {
    let mut s = AdjacencyList::empty(4);
    s.add_edge(0, 3);
    s.add_edge(0, 1);
    s.add_edge(2, 0);
    s.add_edge(0, 3);
    assert!(s.has_edge(0, 3));
    assert!(s.has_edge(0, 1));
    assert!(s.has_edge(2, 0));
    assert!(!s.has_edge(3, 0));
    assert!(!s.has_edge(1, 0));
    assert_eq!(s.neighbor_iterator(0), Some(vec![3, 1, 3]));
    assert_eq!(s.out_degree(0), 3);
    assert_eq!(s.edge_iterator(), vec![(0, 3), (0, 1), (0, 3), (2, 0)]);
}

#[test]
fn list_removes_every_copy_of_an_entry() {
    let mut s = AdjacencyList::empty(4);
    s.add_edge(0, 3);
    s.add_edge(0, 1);
    s.add_edge(0, 3);
    s.add_edge(0, 2);
    s.add_edge(3, 0);
    s.rem_edge(0, 3);
    assert_eq!(s.neighbor_iterator(0), Some(vec![1, 2]));
    assert!(!s.has_edge(0, 3));
    assert!(s.has_edge(3, 0));
    s.rem_edge(0, 3);
    assert_eq!(s.neighbor_iterator(0), Some(vec![1, 2]));
    s.add_edge(1, 0);
    s.rem_undirected_edge(0, 1);
    assert_eq!(s.neighbor_iterator(0), Some(vec![2]));
    assert_eq!(s.neighbor_iterator(1), Some(vec![]));
    assert_eq!(s.edge_iterator(), vec![(0, 2), (3, 0)]);
}

#[test]
fn list_grows_by_vertices() {
    let mut s = AdjacencyList::empty(1);
    s.add_edge(0, 0);
    assert_eq!(s.add_vertex(), 1);
    assert_eq!(s.add_vertex(), 2);
    s.add_vertices(3);
    assert_eq!(s.num_v_labels(), 6);
    assert_eq!(s.vertex_iterator(), vec![0, 1, 2, 3, 4, 5]);
    assert_eq!(s.neighbor_iterator(0), Some(vec![0]));
    assert_eq!(s.neighbor_iterator(5), Some(vec![]));
    s.add_vertices(0);
    assert_eq!(s.num_v_labels(), 6);
}

#[test]
fn list_removal_of_a_vertex_leaves_the_other_labels_alone() {
    let mut s = AdjacencyList::empty(4);
    s.add_edge(0, 1);
    s.add_edge(1, 2);
    s.add_edge(2, 1);
    s.add_edge(3, 1);
    s.rem_vertex(1);
    assert_eq!(s.num_v_labels(), 4);
    assert!(!s.has_vertex(1));
    assert!(s.has_vertex(0) && s.has_vertex(2) && s.has_vertex(3));
    assert_eq!(s.vertex_iterator(), vec![0, 2, 3]);
    assert_eq!(s.neighbor_iterator(1), None);
    assert_eq!(s.neighbor_iterator(0), Some(vec![1]));
    assert_eq!(s.edge_iterator(), vec![(0, 1), (2, 1), (3, 1)]);
    assert!(!s.has_edge(1, 2));
    s.add_edge(1, 3);
    assert_eq!(s.neighbor_iterator(1), None);
    assert_eq!(s.add_vertex(), 4);
    assert_eq!(s.vertex_iterator(), vec![0, 2, 3, 4]);
}

#[test]
fn matrix_starts_without_edges() {
    let s = AdjacencyMatrix::empty(3);
    assert_eq!(s.num_v_labels(), 3);
    assert_eq!(s.vertex_iterator(), vec![0, 1, 2]);
    assert_eq!(s.edge_iterator(), vec![]);
    for u in 0..3 {
        assert!(s.has_vertex(u));
        assert_eq!(s.neighbor_iterator(u), Some(vec![]));
        for v in 0..3 {
            assert!(!s.has_edge(u, v));
        }
    }
    assert!(!s.has_vertex(3));
    let none = AdjacencyMatrix::empty(0);
    assert_eq!(none.num_v_labels(), 0);
    assert_eq!(none.vertex_iterator(), vec![]);
}

#[test]
fn matrix_stores_an_entry_once_and_lists_targets_ascending() {
    let mut s = AdjacencyMatrix::empty(4);
    s.add_edge(0, 3);
    s.add_edge(0, 1);
    s.add_edge(2, 0);
    s.add_edge(0, 3);
    assert!(s.has_edge(0, 3));
    assert!(s.has_edge(0, 1));
    assert!(s.has_edge(2, 0));
    assert!(!s.has_edge(3, 0));
    assert!(!s.has_edge(0, 2));
    assert_eq!(s.neighbor_iterator(0), Some(vec![1, 3]));
    assert_eq!(s.neighbor_iterator(2), Some(vec![0]));
    assert_eq!(s.edge_iterator(), vec![(0, 1), (0, 3), (2, 0)]);
    s.rem_edge(0, 3);
    assert!(!s.has_edge(0, 3));
    assert_eq!(s.neighbor_iterator(0), Some(vec![1]));
    s.add_edge(1, 0);
    s.rem_undirected_edge(1, 0);
    assert_eq!(s.edge_iterator(), vec![(2, 0)]);
}

#[test]
fn matrix_keeps_its_entries_when_it_grows() {
    let mut s = AdjacencyMatrix::empty(2);
    s.add_edge(0, 1);
    s.add_edge(1, 1);
    assert_eq!(s.add_vertex(), 2);
    assert_eq!(s.num_v_labels(), 3);
    assert_eq!(s.edge_iterator(), vec![(0, 1), (1, 1)]);
    assert_eq!(s.neighbor_iterator(2), Some(vec![]));
    s.add_edge(2, 0);
    s.add_vertices(2);
    assert_eq!(s.num_v_labels(), 5);
    assert_eq!(s.vertex_iterator(), vec![0, 1, 2, 3, 4]);
    assert_eq!(s.edge_iterator(), vec![(0, 1), (1, 1), (2, 0)]);
    s.add_edge(4, 3);
    assert_eq!(s.neighbor_iterator(4), Some(vec![3]));
    assert!(!s.has_edge(3, 4));
}

#[test]
fn matrix_capacity_is_the_root_of_the_vector_range() {
    let cap = AdjacencyMatrix::max_labels();
    let most = isize::MAX as usize;
    assert!(cap.checked_mul(cap).unwrap() <= most);
    assert!((cap + 1).checked_mul(cap + 1).unwrap() > most);
}

#[test]
fn duplicate_edges_are_not_added() {
    let mut g = SimpleGraph::empty(3);
    assert_eq!(g.size(), 0);
    assert_eq!(g.order(), 3);
    assert!(g.add_edge(0, 1));
    assert!(!g.add_edge(0, 1));
    assert!(!g.add_edge(1, 0));
    assert_eq!(g.size(), 1);
    assert!(g.has_edge(0, 1));
    assert!(g.has_edge(1, 0));
    assert!(!g.has_edge(0, 2));
    assert_eq!(g.neighbor_iterator(0), Some(vec![1]));
    assert_eq!(g.neighbor_iterator(1), Some(vec![0]));
    assert_eq!(g.edge_iterator(), vec![(0, 1), (1, 0)]);
}

#[test]
fn graph_counts_vertices_and_edges() {
    let mut g = SimpleGraph::empty(2);
    assert_eq!(g.add_vertex(), 2);
    g.add_vertices(2);
    assert_eq!(g.order(), 5);
    assert_eq!(g.num_v_labels(), 5);
    assert!(g.add_edge(0, 4));
    assert!(g.add_edge(4, 3));
    assert!(g.add_edge(2, 2));
    assert_eq!(g.size(), 3);
    assert_eq!(g.degree(4), 2);
    assert_eq!(g.degree(2), 2);
    assert_eq!(g.degree(1), 0);
    assert!(g.rem_edge(4, 0));
    assert!(!g.rem_edge(4, 0));
    assert!(!g.rem_edge(0, 1));
    assert_eq!(g.size(), 2);
    assert!(!g.has_edge(0, 4));
    assert!(g.has_edge(3, 4));
    assert!(g.rem_edge(2, 2));
    assert_eq!(g.size(), 1);
    assert_eq!(g.neighbor_iterator(2), Some(vec![]));
    for v in 0..5 {
        assert!(g.has_vertex(v));
    }
    assert!(!g.has_vertex(5));
    assert_eq!(g.vertex_iterator(), vec![0, 1, 2, 3, 4]);
    assert_eq!(SimpleGraph::max_labels(), usize::MAX);
}

#[test]
fn unchecked_edges_may_repeat() {
    let mut g = SimpleGraph::empty(2);
    g.add_edge_unchecked(0, 1);
    g.add_edge_unchecked(1, 0);
    assert_eq!(g.size(), 2);
    assert_eq!(g.neighbor_iterator(0), Some(vec![1, 1]));
    assert_eq!(g.neighbor_iterator(1), Some(vec![0, 0]));
    assert!(g.rem_edge(0, 1));
    assert_eq!(g.size(), 1);
    assert!(!g.has_edge(0, 1));
    assert!(!g.has_edge(1, 0));
}

#[test]
fn with_vertices_is_empty() {
    let g = SimpleGraph::with_vertices(4);
    assert_eq!(g.order(), 4);
    assert_eq!(g.size(), 0);
    assert_eq!(g.edge_iterator(), vec![]);
}

#[test]
fn complete_graph_joins_every_pair() {
    let g = SimpleGraph::complete_graph(5);
    assert_eq!(g.order(), 5);
    assert_eq!(g.size(), 10);
    for u in 0..5 {
        let expected: Vec<usize> = (0..5).filter(|v| *v != u).collect();
        assert_eq!(g.neighbor_iterator(u), Some(expected));
        assert_eq!(g.degree(u), 4);
        assert!(!g.has_edge(u, u));
    }
    assert_eq!(SimpleGraph::complete_graph(0).size(), 0);
    assert_eq!(SimpleGraph::complete_graph(1).size(), 0);
    assert_eq!(SimpleGraph::complete_graph(2).size(), 1);
    assert_eq!(g.view().component_count(), 1);
}

#[test]
fn graphs_over_a_matrix_behave_like_graphs_over_lists() {
    let mut g: UnGraph<AdjacencyMatrix> = UnGraph::empty(5);
    assert!(g.add_edge(0, 1));
    assert!(g.add_edge(2, 1));
    assert!(!g.add_edge(1, 2));
    assert!(g.add_edge(3, 4));
    assert_eq!(g.size(), 3);
    assert_eq!(g.neighbor_iterator(1), Some(vec![0, 2]));
    let view = g.view();
    assert_eq!(view.vertex_iterator(), vec![0, 1, 2, 3, 4]);
    assert_eq!(
        view.bfs(0).collect().iter().map(|n| (n.vertex, n.depth)).collect::<Vec<_>>(),
        vec![(0, 0), (1, 1), (2, 2)]
    );
    assert_eq!(view.component_count(), 2);
    let k4: UnGraph<AdjacencyMatrix> = UnGraph::complete_graph(4);
    assert_eq!(k4.size(), 6);
    assert_eq!(k4.edge_iterator().len(), 12);
    assert!(UnGraph::<AdjacencyMatrix>::max_labels() < usize::MAX);
}

#[test]
fn a_new_edge_raises_two_degrees_by_one() {
    let mut list = SimpleGraph::empty(4);
    let mut matrix: UnGraph<AdjacencyMatrix> = UnGraph::empty(4);
    let edges = [(0, 1), (1, 2), (3, 1), (0, 2)];
    let mut expected = [0usize; 4];
    for &(u, v) in edges.iter() {
        assert!(list.add_edge(u, v));
        assert!(matrix.add_edge(u, v));
        expected[u] += 1;
        expected[v] += 1;
        for x in 0..4 {
            assert_eq!(list.degree(x), expected[x]);
            assert_eq!(matrix.degree(x), expected[x]);
        }
    }
    assert!(!list.add_edge(1, 0));
    assert!(!matrix.add_edge(1, 0));
    assert_eq!(list.degree(1), 3);
    assert_eq!(matrix.degree(1), 3);
    let complete: UnGraph<AdjacencyMatrix> = UnGraph::complete_graph(6);
    for x in 0..6 {
        assert_eq!(complete.degree(x), 5);
    }
}
