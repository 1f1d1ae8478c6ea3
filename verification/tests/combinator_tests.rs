use squareknot::{
    AbstractGraph, AsView, Compose, EdgeFilter, ExactCombinator, FakeDimacs, GraphFormat,
    GraphView, SimpleGraph, TraversalView, VertexCompactor, VertexFilter, VertexMap,
    ViewCombinator,
};

#[test]
fn quotient_map() {
    let g = "10 5\n0 1\n1 2\n2 3\n3 4\n5 6";
    let graph: SimpleGraph = FakeDimacs::parse_graph(g.as_bytes()).expect("Could not parse graph.");

    let relation = [(0, 1), (2, 3)];

    let mut map = (0..graph.num_v_labels()).collect::<Vec<_>>();

    for (u, v) in relation {
        map[v] = map[u];
    }

    let quotient = graph.view().map_vertices(|v: &usize| map[*v]);

    let r = quotient.edge_iterator();
    let v = quotient.vertex_iterator();

    assert!(!v.contains(&1));
    assert!(!v.contains(&3));
    assert!(r.contains(&(0, 2)) || r.contains(&(2, 0)));
    assert!(r.contains(&(2, 4)) || r.contains(&(4, 2)));
    assert!(!r.contains(&(0, 0)));
    assert!(!r.contains(&(2, 2)));
}

fn graph_of(n: usize, edges: &[(usize, usize)]) -> SimpleGraph {
    let mut g = SimpleGraph::empty(n);
    for &(u, v) in edges {
        assert!(g.add_edge(u, v));
    }
    g
}

#[test]
fn graph_view_shows_the_graph() {
    let g = graph_of(4, &[(0, 1), (2, 1), (1, 3)]);
    let view = GraphView::build(&g);
    assert_eq!(view.num_v_labels(), 4);
    assert_eq!(view.vertex_iterator(), vec![0, 1, 2, 3]);
    assert_eq!(
        view.edge_iterator(),
        vec![(0, 1), (1, 0), (1, 2), (1, 3), (2, 1), (3, 1)]
    );
    assert_eq!(view.neighbor_iterator(1), Some(vec![0, 2, 3]));
    assert_eq!(view.neighbor_iterator(3), Some(vec![1]));
}

#[test]
fn vertex_filter_keeps_what_passes() {
    let g = graph_of(6, &[(0, 1), (0, 2), (2, 4), (4, 5), (1, 3)]);
    let even = g.view().filter_vertices(|v: &usize| *v % 2 == 0);
    assert_eq!(even.vertex_iterator(), vec![0, 2, 4]);
    assert_eq!(even.edge_iterator(), vec![(0, 2), (2, 0), (2, 4), (4, 2)]);
    assert_eq!(even.neighbor_iterator(0), Some(vec![2]));
    assert_eq!(even.neighbor_iterator(2), Some(vec![0, 4]));
    assert_eq!(even.neighbor_iterator(4), Some(vec![2]));
    assert_eq!(even.neighbor_iterator(1), None);
    assert_eq!(even.neighbor_iterator(3), None);
    assert_eq!(even.neighbor_iterator(5), None);
    assert_eq!(even.num_v_labels(), 6);
}

#[test]
fn vertex_filter_matches_the_predicate_on_every_vertex() {
    let g = graph_of(7, &[(0, 1), (1, 2), (2, 3), (3, 4), (4, 5), (5, 6), (6, 0), (0, 3)]);
    let keep = |v: &usize| *v != 3 && *v != 6;
    let view = VertexFilter::build(g.view(), keep);
    let vertices = view.vertex_iterator();
    for v in 0..7 {
        assert_eq!(vertices.contains(&v), keep(&v));
        assert_eq!(view.neighbor_iterator(v).is_none(), !keep(&v));
    }
    for (u, v) in view.edge_iterator() {
        assert!(keep(&u) && keep(&v));
    }
    for (u, v) in g.edge_iterator() {
        assert_eq!(view.edge_iterator().contains(&(u, v)), keep(&u) && keep(&v));
    }
}

#[test]
fn an_isolated_vertex_has_neighbors_to_enumerate() {
    let g = graph_of(3, &[(0, 1)]);
    let view = g.view().filter_vertices(|v: &usize| *v != 0);
    assert_eq!(view.neighbor_iterator(1), Some(vec![]));
    assert_eq!(view.neighbor_iterator(2), Some(vec![]));
    assert_eq!(view.neighbor_iterator(0), None);
}

#[test]
fn edge_filter_keeps_what_passes() {
    let g = graph_of(4, &[(0, 1), (1, 2), (2, 3), (3, 0)]);
    let view = EdgeFilter::build(g.view(), |e: &(usize, usize)| e.0 + e.1 != 3);
    assert_eq!(view.vertex_iterator(), vec![0, 1, 2, 3]);
    assert_eq!(view.edge_iterator(), vec![(0, 1), (1, 0), (2, 3), (3, 2)]);
    assert_eq!(view.neighbor_iterator(0), Some(vec![1]));
    assert_eq!(view.neighbor_iterator(3), Some(vec![2]));
    assert_eq!(view.num_v_labels(), 4);
    let one_way = g.view().filter_edges(|e: &(usize, usize)| e.0 < e.1);
    assert_eq!(one_way.edge_iterator(), vec![(0, 1), (0, 3), (1, 2), (2, 3)]);
    assert_eq!(one_way.neighbor_iterator(3), Some(vec![]));
}

#[test]
fn vertex_map_drops_loops_and_gathers_neighbors() {
    let g = graph_of(5, &[(0, 1), (1, 2), (2, 3), (3, 4)]);
    let map = vec![0usize, 0, 2, 2, 4];
    let view = VertexMap::build(g.view(), |v: &usize| map[*v]);
    assert_eq!(view.vertex_iterator(), vec![0, 0, 2, 2, 4]);
    assert_eq!(view.edge_iterator(), vec![(0, 2), (2, 0), (2, 4), (4, 2)]);
    for (u, v) in view.edge_iterator() {
        assert_ne!(u, v);
    }
    assert_eq!(view.neighbor_iterator(0), Some(vec![2]));
    assert_eq!(view.neighbor_iterator(2), Some(vec![0, 4]));
    assert_eq!(view.neighbor_iterator(4), Some(vec![2]));
    assert_eq!(view.neighbor_iterator(1), None);
    assert_eq!(view.neighbor_iterator(3), None);
    assert_eq!(view.neighbor_iterator(7), None);
    assert_eq!(view.num_v_labels(), 5);
}

#[test]
fn vertex_map_to_one_label_has_no_edges() {
    let g = graph_of(3, &[(0, 1), (1, 2), (2, 0)]);
    let view = g.view().map_vertices(|_v: &usize| 1usize);
    assert_eq!(view.vertex_iterator(), vec![1, 1, 1]);
    assert_eq!(view.edge_iterator(), vec![]);
    assert_eq!(view.neighbor_iterator(1), Some(vec![]));
    assert_eq!(view.neighbor_iterator(0), None);
}

#[test]
fn compactor_numbers_in_first_seen_order() {
    let g = graph_of(8, &[(7, 5), (5, 2), (2, 7), (1, 6)]);
    let sparse = g
        .view()
        .filter_vertices(|v: &usize| *v == 7 || *v == 5 || *v == 2 || *v == 6)
        .map_vertices(|v: &usize| 100 - *v);
    assert_eq!(sparse.vertex_iterator(), vec![98, 95, 94, 93]);
    let dense = VertexCompactor::build(sparse);
    assert_eq!(dense.num_v_labels(), 4);
    assert_eq!(dense.vertex_iterator(), vec![0, 1, 2, 3]);
    assert_eq!(
        dense.edge_iterator(),
        vec![(0, 1), (0, 3), (1, 3), (1, 0), (3, 1), (3, 0)]
    );
    assert_eq!(dense.neighbor_iterator(0), Some(vec![1, 3]));
    assert_eq!(dense.neighbor_iterator(1), Some(vec![3, 0]));
    assert_eq!(dense.neighbor_iterator(2), Some(vec![]));
    assert_eq!(dense.neighbor_iterator(3), Some(vec![1, 0]));
    assert_eq!(dense.neighbor_iterator(4), None);
}

#[test]
fn compactor_merges_repeated_vertices() {
    let g = graph_of(4, &[(0, 1), (1, 2), (2, 3)]);
    let dense = g.view().map_vertices(|v: &usize| (*v / 2) * 10).compact();
    assert_eq!(dense.num_v_labels(), 2);
    assert_eq!(dense.vertex_iterator(), vec![0, 1]);
    assert_eq!(dense.edge_iterator(), vec![(0, 1), (1, 0)]);
}

#[test]
fn traversals_run_over_composed_views() {
    let g = graph_of(8, &[(0, 1), (1, 2), (2, 3), (3, 4), (4, 5), (5, 6), (6, 7)]);
    let view = g.view().filter_vertices(|v: &usize| *v != 4);
    let low: Vec<usize> = view.bfs(0).collect().iter().map(|n| n.vertex).collect();
    assert_eq!(low, vec![0, 1, 2, 3]);
    let high: Vec<usize> = view.dfs(7).collect().iter().map(|n| n.vertex).collect();
    assert_eq!(high, vec![7, 6, 5]);
    assert_eq!(view.full_bfs().component_count(), 2);
    assert_eq!(view.component_count(), 2);

    let cut = g.view().filter_edges(|e: &(usize, usize)| !(e.0 + e.1 == 5 && e.0 * e.1 == 6));
    assert_eq!(cut.component_count(), 2);

    let dense = g
        .view()
        .filter_vertices(|v: &usize| *v % 4 != 3)
        .compact();
    assert_eq!(dense.num_v_labels(), 6);
    let nodes: Vec<(usize, usize)> = dense
        .full_dfs_post_order()
        .collect()
        .iter()
        .map(|n| (n.vertex, n.depth))
        .collect();
    assert_eq!(nodes, vec![(2, 2), (1, 1), (0, 0), (5, 2), (4, 1), (3, 0)]);

    let halves = g.view().map_vertices(|v: &usize| *v / 2);
    let merged: Vec<(usize, usize)> =
        halves.bfs(0).collect().iter().map(|n| (n.vertex, n.depth)).collect();
    assert_eq!(merged, vec![(0, 0), (1, 1), (2, 2), (3, 3)]);
}
