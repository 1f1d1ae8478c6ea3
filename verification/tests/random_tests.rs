use squareknot::graph::undirected::UnGraph;
use squareknot::{
    greedy_coloring, shortest_path, AbstractGraph, AdjacencyMatrix, AsView, Compose, SimpleGraph,
    TraversalView, UnionFind, ViewCombinator,
};

struct Lcg(u64);

impl Lcg {
    fn next(&mut self) -> u64 {
        self.0 = self.0.wrapping_mul(6364136223846793005).wrapping_add(1442695040888963407);
        self.0 >> 33
    }

    fn below(&mut self, n: usize) -> usize {
        (self.next() % n as u64) as usize
    }
}

fn random_edges(rng: &mut Lcg, n: usize, m: usize) -> Vec<(usize, usize)> {
    let mut edges = Vec::new();
    for _ in 0..m {
        let u = rng.below(n);
        let v = rng.below(n);
        if u != v && !edges.contains(&(u, v)) && !edges.contains(&(v, u)) {
            edges.push((u, v));
        }
    }
    edges
}

fn distances(n: usize, edges: &[(usize, usize)]) -> Vec<Vec<usize>> {
    let far = usize::MAX;
    let mut dist = vec![vec![far; n]; n];
    for v in 0..n {
        dist[v][v] = 0;
    }
    for &(u, v) in edges {
        dist[u][v] = 1;
        dist[v][u] = 1;
    }
    for k in 0..n {
        for i in 0..n {
            for j in 0..n {
                if dist[i][k] != far && dist[k][j] != far && dist[i][k] + dist[k][j] < dist[i][j] {
                    dist[i][j] = dist[i][k] + dist[k][j];
                }
            }
        }
    }
    dist
}

#[test]
fn random_graphs_agree_with_a_plain_reckoning() {
    let mut rng = Lcg(2024);
    for round in 0..40 {
        let n = 1 + rng.below(12);
        let m = rng.below(2 * n + 1);
        let edges = random_edges(&mut rng, n, m);
        let mut g = SimpleGraph::empty(n);
        for &(u, v) in &edges {
            assert!(g.add_edge(u, v));
        }
        assert_eq!(g.size(), edges.len());
        let view = g.view();
        let dist = distances(n, &edges);
        let far = usize::MAX;

        let mut sets = UnionFind::new(n);
        for &(u, v) in &edges {
            sets.union(u, v);
        }
        let mut components = 0;
        for v in 0..n {
            if (0..v).all(|u| dist[u][v] == far) {
                components += 1;
            }
        }
        assert_eq!((0..n).filter(|v| sets.find(*v) == *v).count(), components);
        for u in 0..n {
            for v in 0..n {
                let (mut a, mut b) = (u, v);
                while sets.find(a) != a {
                    a = sets.find(a);
                }
                while sets.find(b) != b {
                    b = sets.find(b);
                }
                assert_eq!(a == b, dist[u][v] != far);
            }
        }
        assert_eq!(view.component_count(), components, "round {round}");
        assert_eq!(view.full_bfs().component_count(), components);
        assert_eq!(view.full_dfs_post_order().component_count(), components);

        for root in 0..n {
            let reach: Vec<usize> = (0..n).filter(|v| dist[root][*v] != far).collect();
            let by_bfs = view.bfs(root).collect();
            for node in &by_bfs {
                assert_eq!(node.depth, dist[root][node.vertex]);
                if node.vertex != root {
                    assert!(g.has_edge(node.parent, node.vertex));
                    assert_eq!(dist[root][node.parent] + 1, node.depth);
                }
            }
            for pair in by_bfs.windows(2) {
                assert!(pair[0].depth <= pair[1].depth);
            }
            for (name, nodes) in [
                ("bfs", by_bfs),
                ("dfs", view.dfs(root).collect()),
                ("post", view.dfs_post_order(root).collect()),
            ] {
                let mut seen: Vec<usize> = nodes.iter().map(|x| x.vertex).collect();
                seen.sort();
                assert_eq!(seen, reach, "{name} from {root} in round {round}");
                for node in &nodes {
                    if node.vertex == root {
                        assert_eq!((node.depth, node.parent), (0, root));
                    } else {
                        assert!(g.has_edge(node.parent, node.vertex));
                        let parent = nodes.iter().find(|x| x.vertex == node.parent).unwrap();
                        assert_eq!(parent.depth + 1, node.depth);
                    }
                }
            }
            for target in 0..n {
                match shortest_path(&view, root, target) {
                    None => assert_eq!(dist[root][target], far),
                    Some(path) => assert_eq!(path.len(), dist[root][target] + 1),
                }
            }
        }

        let order: Vec<usize> = (0..n).collect();
        let (chrom, coloring) = greedy_coloring(&g, &order);
        for &(u, v) in &edges {
            assert_ne!(coloring[u], coloring[v]);
        }
        assert!(coloring.iter().all(|c| *c < chrom));
        assert_eq!(chrom, coloring.iter().max().map_or(0, |c| c + 1));
    }
}

#[test]
fn matrix_and_list_graphs_agree() {
    let mut rng = Lcg(7);
    for _ in 0..30 {
        let n = 1 + rng.below(10);
        let m = rng.below(2 * n + 1);
        let mut edges = random_edges(&mut rng, n, m);
        let mut both_ways: Vec<(usize, usize)> =
            edges.iter().flat_map(|&(u, v)| [(u, v), (v, u)]).collect();
        both_ways.sort();
        edges.sort();
        let mut list = SimpleGraph::empty(n);
        let mut matrix: UnGraph<AdjacencyMatrix> = UnGraph::empty(n);
        for &(u, v) in &edges {
            assert!(list.add_edge(u, v));
            assert!(matrix.add_edge(u, v));
        }
        assert_eq!(list.size(), matrix.size());
        assert_eq!(matrix.edge_iterator(), both_ways);
        let mut listed = list.edge_iterator();
        listed.sort();
        assert_eq!(listed, both_ways);
        for u in 0..n {
            let mut targets = list.neighbor_iterator(u).unwrap();
            targets.sort();
            assert_eq!(matrix.neighbor_iterator(u).unwrap(), targets);
            for v in 0..n {
                assert_eq!(list.has_edge(u, v), matrix.has_edge(u, v));
            }
        }
        assert_eq!(list.view().component_count(), matrix.view().component_count());
        if let Some(&(u, v)) = edges.first() {
            assert!(list.rem_edge(v, u));
            assert!(matrix.rem_edge(u, v));
            assert!(!matrix.has_edge(v, u) && !list.has_edge(u, v));
            assert_eq!(list.size(), matrix.size());
        }
    }
}

#[test]
fn filtered_and_compacted_views_agree_with_the_graph_they_stand_for() {
    let mut rng = Lcg(99);
    for _ in 0..30 {
        let n = 2 + rng.below(10);
        let m = rng.below(2 * n + 1);
        let edges = random_edges(&mut rng, n, m);
        let dropped = rng.below(n);
        let mut g = SimpleGraph::empty(n);
        for &(u, v) in &edges {
            g.add_edge(u, v);
        }
        let kept: Vec<(usize, usize)> = edges
            .iter()
            .filter(|(u, v)| *u != dropped && *v != dropped)
            .map(|&(u, v)| (u - (u > dropped) as usize, v - (v > dropped) as usize))
            .collect();
        let mut smaller = SimpleGraph::empty(n - 1);
        for &(u, v) in &kept {
            assert!(smaller.add_edge(u, v));
        }
        let filtered = g.view().filter_vertices(|v: &usize| *v != dropped);
        assert_eq!(filtered.component_count(), smaller.view().component_count());
        let dense = filtered.compact();
        assert_eq!(dense.vertex_iterator(), smaller.view().vertex_iterator());
        for u in 0..n - 1 {
            assert_eq!(dense.neighbor_iterator(u), smaller.view().neighbor_iterator(u));
        }
        assert_eq!(dense.edge_iterator(), smaller.view().edge_iterator());
        let a: Vec<(usize, usize, usize)> = dense
            .full_bfs()
            .collect()
            .iter()
            .map(|x| (x.vertex, x.depth, x.parent))
            .collect();
        let b: Vec<(usize, usize, usize)> = smaller
            .view()
            .full_bfs()
            .collect()
            .iter()
            .map(|x| (x.vertex, x.depth, x.parent))
            .collect();
        assert_eq!(a, b);
    }
}
