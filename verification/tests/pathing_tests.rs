use squareknot::{
    shortest_path, APSPIterator, AbstractGraph, AsView, GraphView, PathingGraph, SimpleGraph,
};

fn graph_of(n: usize, edges: &[(usize, usize)]) -> SimpleGraph {
    let mut g = SimpleGraph::empty(n);
    for &(u, v) in edges {
        assert!(g.add_edge(u, v));
    }
    g
}

#[test]
fn no_path_between_two_lone_vertices() {
    let g = SimpleGraph::empty(2);
    let view = g.view();
    assert_eq!(shortest_path(&view, 0, 1), None);
    assert_eq!(shortest_path(&view, 1, 0), None);
    assert_eq!(GraphView::shortest_path(&view, 0, 1), Err(()));
}

#[test]
fn a_vertex_reaches_itself() {
    let g = SimpleGraph::empty(2);
    let view = g.view();
    assert_eq!(shortest_path(&view, 1, 1), Some(vec![1]));
    assert_eq!(GraphView::shortest_path(&view, 0, 0), Ok(vec![0]));
}

#[test]
fn shortest_path_takes_the_shortcut() {
    let g = graph_of(7, &[(0, 1), (1, 2), (2, 3), (3, 4), (0, 5), (5, 4), (4, 6)]);
    let view = g.view();
    assert_eq!(shortest_path(&view, 0, 4), Some(vec![0, 5, 4]));
    assert_eq!(shortest_path(&view, 0, 6), Some(vec![0, 5, 4, 6]));
    assert_eq!(shortest_path(&view, 0, 3), Some(vec![0, 1, 2, 3]));
    assert_eq!(shortest_path(&view, 6, 0), Some(vec![6, 4, 5, 0]));
    assert_eq!(GraphView::shortest_path(&view, 2, 5), Ok(vec![2, 1, 0, 5]));
}

#[test]
fn shortest_paths_are_as_short_as_possible() {
    let edges = [(0, 1), (1, 2), (2, 3), (3, 0), (3, 4), (4, 5), (5, 0), (6, 7)];
    let g = graph_of(8, &edges);
    let view = g.view();
    let far = usize::MAX;
    let mut dist = vec![vec![far; 8]; 8];
    for v in 0..8 {
        dist[v][v] = 0;
    }
    for &(u, v) in &edges {
        dist[u][v] = 1;
        dist[v][u] = 1;
    }
    for k in 0..8 {
        for i in 0..8 {
            for j in 0..8 {
                if dist[i][k] != far && dist[k][j] != far && dist[i][k] + dist[k][j] < dist[i][j] {
                    dist[i][j] = dist[i][k] + dist[k][j];
                }
            }
        }
    }
    for u in 0..8 {
        for v in 0..8 {
            match shortest_path(&view, u, v) {
                None => assert_eq!(dist[u][v], far),
                Some(path) => {
                    assert_eq!(path.len(), dist[u][v] + 1);
                    assert_eq!(path[0], u);
                    assert_eq!(*path.last().unwrap(), v);
                    for pair in path.windows(2) {
                        assert!(g.has_edge(pair[0], pair[1]));
                    }
                },
            }
        }
    }
}

#[test]
fn all_pairs_in_order() {
    let g = graph_of(5, &[(0, 1), (1, 2), (3, 4)]);
    let view = g.view();
    let mut pairs = APSPIterator::new(&view);
    assert_eq!(pairs.next(), Some((0, 0, vec![0])));
    assert_eq!(pairs.next(), Some((1, 0, vec![1, 0])));
    assert_eq!(pairs.next(), Some((1, 1, vec![1])));
    assert_eq!(pairs.next(), Some((2, 0, vec![2, 1, 0])));
    assert_eq!(pairs.next(), Some((2, 1, vec![2, 1])));
    assert_eq!(pairs.next(), Some((2, 2, vec![2])));
    assert_eq!(pairs.next(), Some((3, 3, vec![3])));
    assert_eq!(pairs.next(), Some((4, 3, vec![4, 3])));
    assert_eq!(pairs.next(), Some((4, 4, vec![4])));
    assert_eq!(pairs.next(), None);
    assert_eq!(pairs.next(), None);
}

#[test]
fn all_pairs_collected() {
    let g = graph_of(4, &[(0, 3), (3, 2)]);
    let view = g.view();
    let all = APSPIterator::new(&view).collect();
    assert_eq!(
        all,
        vec![
            (0, 0, vec![0]),
            (1, 1, vec![1]),
            (2, 0, vec![2, 3, 0]),
            (2, 2, vec![2]),
            (3, 0, vec![3, 0]),
            (3, 2, vec![3, 2]),
            (3, 3, vec![3]),
        ]
    );
    let mut rest = APSPIterator::new(&view);
    rest.next();
    rest.next();
    rest.next();
    assert_eq!(rest.collect().len(), 4);
}

#[test]
fn all_pairs_of_one_vertex() {
    let g = SimpleGraph::empty(1);
    let view = g.view();
    assert_eq!(APSPIterator::new(&view).collect(), vec![(0, 0, vec![0])]);
}
