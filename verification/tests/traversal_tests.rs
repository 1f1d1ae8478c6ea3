use squareknot::{
    AbstractGraph, AsView, BFSTraversal, DFSTraversal, FakeDimacs, GraphFormat, GraphView,
    SimpleGraph, TraversalNode, TraversalView,
};

#[test]
fn bfs_comp_count() {
    let g = "10 5\n0 1\n1 2\n2 3\n3 4\n5 6";
    let graph: SimpleGraph = FakeDimacs::parse_graph(g.as_bytes()).expect("Could not parse graph.");

    let view = graph.view();
    let mut bfs = view.full_bfs();
    let ncomp = bfs
        .collect()
        .into_iter()
        .map(|x| {
            println!("{}", x.depth);
            x
        })
        .filter(|n| n.depth == 0)
        .count();
    println!("{}", graph.order());
    println!("Component Count: {ncomp}");
    assert_eq!(ncomp, 5);
}

#[test]
fn dfs_comp_count() {
    let g = "10 5\n0 1\n1 2\n2 3\n3 4\n5 6";
    let graph: SimpleGraph = FakeDimacs::parse_graph(g.as_bytes()).expect("Could not parse graph.");

    let view = graph.view();
    let mut dfs = view.full_dfs();
    let ncomp = dfs
        .collect()
        .into_iter()
        .map(|x| {
            println!("{}", x.depth);
            x
        })
        .filter(|n| n.depth == 0)
        .count();
    println!("{}", graph.order());
    println!("Component Count: {ncomp}");
    assert_eq!(ncomp, 5);
}

fn graph_of(n: usize, edges: &[(usize, usize)]) -> SimpleGraph {
    let mut g = SimpleGraph::empty(n);
    for &(u, v) in edges {
        assert!(g.add_edge(u, v));
    }
    g
}

fn path_graph(n: usize) -> SimpleGraph {
    let edges: Vec<(usize, usize)> = (1..n).map(|v| (v - 1, v)).collect();
    graph_of(n, &edges)
}

fn star_graph(leaves: usize) -> SimpleGraph {
    let edges: Vec<(usize, usize)> = (1..=leaves).map(|v| (0, v)).collect();
    graph_of(leaves + 1, &edges)
}

/// Two triangles joined by a bridge, a separate edge and a lone vertex.
fn sample_graph() -> SimpleGraph {
    graph_of(9, &[(0, 1), (1, 2), (2, 0), (2, 3), (3, 4), (4, 5), (5, 3), (6, 7)])
}

fn triples(nodes: &[TraversalNode]) -> Vec<(usize, usize, usize)> {
    nodes.iter().map(|n| (n.vertex, n.depth, n.parent)).collect()
}

fn sorted_vertices(nodes: &[TraversalNode]) -> Vec<usize> {
    let mut vs: Vec<usize> = nodes.iter().map(|n| n.vertex).collect();
    vs.sort();
    vs
}

#[test]
fn bfs_on_a_path_emits_in_order() {
    let g = path_graph(5);
    let view = GraphView::build(&g);
    let mut bfs = BFSTraversal::new(&view, 0);
    let nodes = bfs.collect();
    let vertices: Vec<usize> = nodes.iter().map(|n| n.vertex).collect();
    let depths: Vec<usize> = nodes.iter().map(|n| n.depth).collect();
    assert_eq!(vertices, vec![0, 1, 2, 3, 4]);
    assert_eq!(depths, vec![0, 1, 2, 3, 4]);
    assert!(bfs.next().is_none());
}

#[test]
fn bfs_emits_level_by_level_with_parents() {
    let g = sample_graph();
    let view = g.view();
    let nodes = view.bfs(0).collect();
    assert_eq!(
        triples(&nodes),
        vec![(0, 0, 0), (1, 1, 0), (2, 1, 0), (3, 2, 2), (4, 3, 3), (5, 3, 3)]
    );
}

#[test]
fn bfs_step_by_step() {
    let g = path_graph(3);
    let view = g.view();
    let mut bfs = view.bfs(1);
    let first = bfs.next().unwrap();
    assert_eq!((first.vertex, first.depth, first.parent), (1, 0, 1));
    assert_eq!(bfs.traversed_iter(), vec![0, 1, 2]);
    let second = bfs.next().unwrap();
    assert_eq!((second.vertex, second.depth, second.parent), (0, 1, 1));
    let third = bfs.next().unwrap();
    assert_eq!((third.vertex, third.depth, third.parent), (2, 1, 1));
    assert!(bfs.next().is_none());
    assert!(bfs.next().is_none());
}

#[test]
fn bfs_depths_never_go_down() {
    let g = sample_graph();
    let view = g.view();
    for root in 0..9 {
        let nodes = view.bfs(root).collect();
        for pair in nodes.windows(2) {
            assert!(pair[0].depth <= pair[1].depth);
        }
    }
}

#[test]
fn bfs_and_dfs_emit_the_reachable_set() {
    let g = sample_graph();
    let view = g.view();
    let reach: Vec<Vec<usize>> = vec![
        vec![0, 1, 2, 3, 4, 5],
        vec![0, 1, 2, 3, 4, 5],
        vec![0, 1, 2, 3, 4, 5],
        vec![0, 1, 2, 3, 4, 5],
        vec![0, 1, 2, 3, 4, 5],
        vec![0, 1, 2, 3, 4, 5],
        vec![6, 7],
        vec![6, 7],
        vec![8],
    ];
    for root in 0..9 {
        let by_bfs = view.bfs(root).collect();
        let by_dfs = view.dfs(root).collect();
        let by_post = view.dfs_post_order(root).collect();
        assert_eq!(sorted_vertices(&by_bfs), reach[root]);
        assert_eq!(sorted_vertices(&by_dfs), reach[root]);
        assert_eq!(sorted_vertices(&by_post), reach[root]);
    }
}

#[test]
fn dfs_pre_order_takes_the_last_neighbor_first() {
    let g = graph_of(5, &[(0, 1), (0, 2), (1, 3), (2, 4)]);
    let view = g.view();
    let nodes = view.dfs(0).collect();
    assert_eq!(
        triples(&nodes),
        vec![(0, 0, 0), (2, 1, 0), (4, 2, 2), (1, 1, 0), (3, 2, 1)]
    );
}

#[test]
fn dfs_pre_order_on_a_cycle() {
    let g = graph_of(4, &[(0, 1), (1, 2), (2, 3), (3, 0)]);
    let view = g.view();
    let mut dfs = view.dfs(0);
    let nodes = dfs.collect();
    assert_eq!(triples(&nodes), vec![(0, 0, 0), (3, 1, 0), (2, 2, 3), (1, 3, 2)]);
    assert!(dfs.next().is_none());
    assert_eq!(dfs.traversed_iter(), vec![0, 1, 2, 3]);
}

#[test]
fn dfs_post_order_emits_children_first() {
    let g = graph_of(5, &[(0, 1), (0, 2), (1, 3), (2, 4)]);
    let view = g.view();
    let nodes = view.dfs_post_order(0).collect();
    assert_eq!(
        triples(&nodes),
        vec![(4, 2, 2), (2, 1, 0), (3, 2, 1), (1, 1, 0), (0, 0, 0)]
    );
}

#[test]
fn dfs_post_order_on_a_star_ends_with_the_center() {
    let g = star_graph(6);
    let view = g.view();
    let nodes = view.dfs_post_order(0).collect();
    assert_eq!(nodes.len(), 7);
    assert_eq!(nodes[6].vertex, 0);
    assert_eq!(nodes[6].depth, 0);
    for leaf in &nodes[..6] {
        assert!(leaf.vertex >= 1 && leaf.vertex <= 6);
        assert_eq!(leaf.depth, 1);
        assert_eq!(leaf.parent, 0);
    }
    assert_eq!(sorted_vertices(&nodes), vec![0, 1, 2, 3, 4, 5, 6]);
}

#[test]
fn dfs_post_order_with_a_triangle() {
    let g = graph_of(3, &[(0, 1), (1, 2), (2, 0)]);
    let view = g.view();
    let mut dfs = view.dfs_post_order(0);
    let nodes = dfs.collect();
    assert_eq!(triples(&nodes), vec![(1, 2, 2), (2, 1, 0), (0, 0, 0)]);
    assert!(dfs.next().is_none());
}

#[test]
fn triangle_and_edge_have_two_components() {
    let g = graph_of(5, &[(0, 1), (1, 2), (2, 0), (3, 4)]);
    let view = g.view();
    assert_eq!(view.full_bfs().component_count(), 2);
    assert_eq!(view.full_dfs().component_count(), 2);
    assert_eq!(view.full_dfs_post_order().component_count(), 2);
    assert_eq!(view.component_count(), 2);
}

#[test]
fn component_count_of_a_traversal_under_way_counts_what_is_left() {
    let g = graph_of(5, &[(0, 1), (1, 2), (2, 0), (3, 4)]);
    let view = g.view();
    let mut bfs = view.full_bfs();
    bfs.next();
    assert_eq!(bfs.component_count(), 1);
    assert_eq!(bfs.component_count(), 0);
    let mut post = view.full_dfs_post_order();
    for _ in 0..3 {
        post.next();
    }
    assert_eq!(post.component_count(), 1);
}

#[test]
fn post_order_emits_every_vertex_before_its_parent() {
    let g = sample_graph();
    let view = g.view();
    let nodes = view.full_dfs_post_order().collect();
    for (j, child) in nodes.iter().enumerate() {
        if child.depth > 0 {
            let i = nodes.iter().position(|n| n.vertex == child.parent).unwrap();
            assert!(j < i);
            assert_eq!(nodes[i].depth + 1, child.depth);
            assert!(g.has_edge(child.parent, child.vertex));
        } else {
            assert_eq!(child.parent, child.vertex);
        }
    }
}

#[test]
fn full_traversals_emit_every_vertex_once() {
    let g = sample_graph();
    let view = g.view();
    let all: Vec<usize> = (0..9).collect();
    let by_bfs = view.full_bfs().collect();
    let by_dfs = view.full_dfs().collect();
    let by_post = view.full_dfs_post_order().collect();
    assert_eq!(by_bfs.len(), 9);
    assert_eq!(by_dfs.len(), 9);
    assert_eq!(by_post.len(), 9);
    assert_eq!(sorted_vertices(&by_bfs), all);
    assert_eq!(sorted_vertices(&by_dfs), all);
    assert_eq!(sorted_vertices(&by_post), all);
    assert_eq!(by_bfs.iter().filter(|n| n.depth == 0).count(), 3);
    assert_eq!(by_dfs.iter().filter(|n| n.depth == 0).count(), 3);
    assert_eq!(by_post.iter().filter(|n| n.depth == 0).count(), 3);
    assert_eq!(view.component_count(), 3);
}

#[test]
fn full_bfs_starts_components_in_vertex_order() {
    let g = graph_of(6, &[(1, 4), (2, 3)]);
    let view = g.view();
    let nodes = view.full_bfs().collect();
    assert_eq!(
        triples(&nodes),
        vec![(0, 0, 0), (1, 0, 1), (4, 1, 1), (2, 0, 2), (3, 1, 2), (5, 0, 5)]
    );
}

#[test]
fn full_dfs_starts_components_in_vertex_order() {
    let g = graph_of(6, &[(1, 4), (2, 3)]);
    let view = g.view();
    let nodes = view.full_dfs().collect();
    assert_eq!(
        triples(&nodes),
        vec![(0, 0, 0), (1, 0, 1), (4, 1, 1), (2, 0, 2), (3, 1, 2), (5, 0, 5)]
    );
    let post = view.full_dfs_post_order().collect();
    assert_eq!(
        triples(&post),
        vec![(0, 0, 0), (4, 1, 1), (1, 0, 1), (3, 1, 2), (2, 0, 2), (5, 0, 5)]
    );
}

#[test]
fn full_traversal_of_nothing_emits_nothing() {
    let g = SimpleGraph::empty(0);
    let view = g.view();
    assert!(view.full_bfs().next().is_none());
    assert!(view.full_dfs().next().is_none());
    assert!(view.full_dfs_post_order().next().is_none());
    assert_eq!(view.component_count(), 0);
}

#[test]
fn traversal_of_a_lone_vertex() {
    let g = SimpleGraph::empty(1);
    let view = g.view();
    assert_eq!(triples(&view.bfs(0).collect()), vec![(0, 0, 0)]);
    assert_eq!(triples(&view.dfs(0).collect()), vec![(0, 0, 0)]);
    assert_eq!(triples(&view.dfs_post_order(0).collect()), vec![(0, 0, 0)]);
}

#[test]
fn loops_and_parallel_edges_do_not_repeat_vertices() {
    let mut g = SimpleGraph::empty(3);
    assert!(g.add_edge(0, 0));
    assert!(g.add_edge(0, 1));
    assert!(g.add_edge(1, 2));
    let view = g.view();
    assert_eq!(triples(&view.bfs(0).collect()), vec![(0, 0, 0), (1, 1, 0), (2, 2, 1)]);
    assert_eq!(triples(&view.dfs(0).collect()), vec![(0, 0, 0), (1, 1, 0), (2, 2, 1)]);
    assert_eq!(
        triples(&view.dfs_post_order(0).collect()),
        vec![(2, 2, 1), (1, 1, 0), (0, 0, 0)]
    );
}

#[test]
fn extract_path_follows_the_tree() {
    let g = sample_graph();
    let view = g.view();
    let mut bfs = view.bfs(0);
    assert_eq!(bfs.extract_path(0), Some(vec![0]));
    assert_eq!(bfs.extract_path(5), None);
    let nodes = bfs.collect();
    assert_eq!(bfs.extract_path(0), Some(vec![0]));
    assert_eq!(bfs.extract_path(5), Some(vec![0, 2, 3, 5]));
    assert_eq!(bfs.extract_path(4), Some(vec![0, 2, 3, 4]));
    assert_eq!(bfs.extract_path(6), None);
    assert_eq!(bfs.extract_path(8), None);
    for node in &nodes {
        let path = bfs.extract_path(node.vertex).unwrap();
        assert_eq!(path.len(), node.depth + 1);
        assert_eq!(path[0], 0);
        assert_eq!(*path.last().unwrap(), node.vertex);
        for pair in path.windows(2) {
            assert!(g.has_edge(pair[0], pair[1]));
        }
    }
}

#[test]
fn extract_path_of_depth_first_traversals() {
    let g = graph_of(4, &[(0, 1), (1, 2), (2, 3), (3, 0)]);
    let view = g.view();
    let mut dfs = view.dfs(0);
    assert_eq!(dfs.extract_path(0), None);
    dfs.exhaust();
    assert_eq!(dfs.extract_path(1), Some(vec![0, 3, 2, 1]));
    let mut post = view.dfs_post_order(0);
    assert_eq!(post.extract_path(3), None);
    post.exhaust();
    assert_eq!(post.extract_path(1), Some(vec![0, 3, 2, 1]));
    assert_eq!(post.extract_path(0), Some(vec![0]));
}

#[test]
fn extract_path_does_not_change_once_found() {
    let g = sample_graph();
    let view = g.view();
    let mut bfs = view.bfs(0);
    let mut found: Vec<Option<Vec<usize>>> = vec![None; 9];
    loop {
        for v in 0..9 {
            let now = bfs.extract_path(v);
            if found[v].is_some() {
                assert_eq!(now, found[v]);
            }
            found[v] = now;
        }
        if bfs.next().is_none() {
            break;
        }
    }
}

#[test]
fn restart_is_like_a_new_traversal() {
    let g = sample_graph();
    let view = g.view();
    for first in [0usize, 6, 8] {
        for second in 0..9 {
            let mut bfs = view.bfs(first);
            bfs.next();
            bfs.restart_at(second);
            assert_eq!(triples(&bfs.collect()), triples(&view.bfs(second).collect()));
            assert_eq!(bfs.traversed_iter(), view_traversed_bfs(&view, second));

            let mut dfs = view.dfs(first);
            dfs.exhaust();
            dfs.restart_at(second);
            assert_eq!(triples(&dfs.collect()), triples(&view.dfs(second).collect()));

            let mut post = view.dfs_post_order(first);
            post.next();
            post.restart_at(second);
            assert_eq!(
                triples(&post.collect()),
                triples(&view.dfs_post_order(second).collect())
            );
        }
    }
}

fn view_traversed_bfs(view: &GraphView<SimpleGraph>, root: usize) -> Vec<usize> {
    let mut bfs = view.bfs(root);
    bfs.exhaust();
    bfs.traversed_iter()
}

#[test]
fn recycled_buffers_give_the_same_traversals() {
    let g = sample_graph();
    let view = g.view();
    let small = path_graph(3);
    let small_view = small.view();

    let mut bfs = small_view.bfs(2);
    bfs.exhaust();
    let mut again = bfs.extract_resources().bfs(&view, 3);
    assert_eq!(triples(&again.collect()), triples(&view.bfs(3).collect()));
    let mut full = again.extract_resources().full_bfs(&view, 6);
    assert_eq!(
        triples(&full.collect()),
        vec![
            (6, 0, 6),
            (7, 1, 6),
            (0, 0, 0),
            (1, 1, 0),
            (2, 1, 0),
            (3, 2, 2),
            (4, 3, 3),
            (5, 3, 3),
            (8, 0, 8)
        ]
    );
    let mut back = full.extract_resources().bfs(&small_view, 0);
    assert_eq!(triples(&back.collect()), vec![(0, 0, 0), (1, 1, 0), (2, 2, 1)]);

    let mut dfs = small_view.dfs_post_order(1);
    dfs.exhaust();
    let mut pre = dfs.extract_resources().dfs(&view, 3);
    assert_eq!(triples(&pre.collect()), triples(&view.dfs(3).collect()));
    let mut post = pre.extract_resources().dfs_post_order(&view, 3);
    assert_eq!(
        triples(&post.collect()),
        triples(&view.dfs_post_order(3).collect())
    );
    let mut full_pre = post.extract_resources().full_dfs(&view, 8);
    let nodes = full_pre.collect();
    assert_eq!(nodes[0].vertex, 8);
    assert_eq!(sorted_vertices(&nodes), (0..9).collect::<Vec<usize>>());
    assert_eq!(nodes.iter().filter(|n| n.depth == 0).count(), 3);
    let mut full_post = full_pre.extract_resources().full_dfs_post_order(&view, 7);
    let nodes = full_post.collect();
    assert_eq!(triples(&nodes[..2]), vec![(6, 1, 7), (7, 0, 7)]);
    assert_eq!(sorted_vertices(&nodes), (0..9).collect::<Vec<usize>>());
}

#[test]
fn constructors_by_their_other_names() {
    let g = path_graph(4);
    let view = g.view();
    assert_eq!(
        triples(&BFSTraversal::from_root(&view, 3).collect()),
        triples(&view.bfs(3).collect())
    );
    assert_eq!(
        triples(&DFSTraversal::<_, false>::from_root(&view, 3).collect()),
        triples(&view.dfs(3).collect())
    );
    assert_eq!(
        triples(&BFSTraversal::full_traversal(&view).collect()),
        triples(&view.full_bfs().collect())
    );
    assert_eq!(
        triples(&DFSTraversal::<_, false>::full_traversal(&view).collect()),
        triples(&view.full_dfs().collect())
    );
    assert_eq!(
        triples(&DFSTraversal::<_, true>::full_traversal(&view).collect()),
        triples(&view.full_dfs_post_order().collect())
    );
    let mut bfs = view.bfs(0);
    bfs.exhaust();
    assert_eq!(bfs.extract_parents(), vec![0, 0, 1, 2]);
    let mut dfs = view.dfs(3);
    dfs.next();
    assert_eq!(dfs.extract_parents(), vec![usize::MAX, usize::MAX, usize::MAX, 3]);
}

#[test]
fn traversed_iter_lists_what_is_discovered() {
    let g = sample_graph();
    let view = g.view();
    let mut bfs = view.bfs(6);
    assert_eq!(bfs.traversed_iter(), vec![6]);
    bfs.exhaust();
    assert_eq!(bfs.traversed_iter(), vec![6, 7]);
    let mut dfs = view.dfs(6);
    assert_eq!(dfs.traversed_iter(), Vec::<usize>::new());
    dfs.next();
    assert_eq!(dfs.traversed_iter(), vec![6]);
    let mut full = view.full_bfs();
    assert_eq!(full.traversed_iter(), Vec::<usize>::new());
    full.next();
    assert_eq!(full.traversed_iter(), vec![0, 1, 2]);
    let mut full_dfs = view.full_dfs_post_order();
    full_dfs.collect();
    assert_eq!(full_dfs.traversed_iter(), (0..9).collect::<Vec<usize>>());
}

/// The vertices of `nodes` in stretches, each from one node of depth 0 up
/// to the next, every stretch sorted.
fn stretches(nodes: &[TraversalNode]) -> Vec<Vec<usize>> {
    let mut out: Vec<Vec<usize>> = Vec::new();
    for n in nodes {
        if n.depth == 0 {
            out.push(Vec::new());
        }
        out.last_mut().unwrap().push(n.vertex);
    }
    for stretch in out.iter_mut() {
        stretch.sort();
    }
    out
}

#[test]
fn full_traversals_emit_one_component_after_the_other() {
    let g = sample_graph();
    let view = g.view();
    let components = vec![vec![0, 1, 2, 3, 4, 5], vec![6, 7], vec![8]];
    assert_eq!(stretches(&view.full_bfs().collect()), components);
    assert_eq!(stretches(&view.full_dfs().collect()), components);

    let h = graph_of(7, &[(5, 1), (6, 0), (2, 4), (4, 3)]);
    let view = h.view();
    let components = vec![vec![0, 6], vec![1, 5], vec![2, 3, 4]];
    assert_eq!(stretches(&view.full_bfs().collect()), components);
    assert_eq!(stretches(&view.full_dfs().collect()), components);
}

#[test]
fn later_roots_come_in_vertex_order_after_a_chosen_start() {
    let g = sample_graph();
    let view = g.view();
    let mut bfs = view.bfs(0);
    bfs.exhaust();
    let mut full = bfs.extract_resources().full_bfs(&view, 8);
    let roots: Vec<usize> =
        full.collect().iter().filter(|n| n.depth == 0).map(|n| n.vertex).collect();
    assert_eq!(roots, vec![8, 0, 6]);
    let mut dfs = view.dfs(0);
    dfs.exhaust();
    let mut full = dfs.extract_resources().full_dfs(&view, 6);
    let roots: Vec<usize> =
        full.collect().iter().filter(|n| n.depth == 0).map(|n| n.vertex).collect();
    assert_eq!(roots, vec![6, 0, 8]);
}
