use exact_paths::exact::fixed_length_search;
use exact_paths::graph::Graph;
use exact_paths::search::shortest_path;
use exact_paths::uniform::UniformRng;
use exact_paths::yen::yen;

fn graph_of(size: usize, edges: &[(usize, usize)]) -> Graph {
    let mut g = Graph::new(size);
    for &(a, b) in edges {
        g.add_edge(a, b);
    }
    g
}

fn sorted_lists(g: &Graph) -> Vec<Vec<usize>> {
    (0..g.size())
        .map(|v| {
            let mut l = g.get_neighbors(v).clone();
            l.sort();
            l
        })
        .collect()
}

fn is_valid(g: &Graph, p: &[usize], start: usize, end: usize, length: usize) -> bool {
    let mut unique = p.to_vec();
    unique.sort();
    unique.dedup();
    p.len() == length
        && unique.len() == p.len()
        && p[0] == start
        && p[p.len() - 1] == end
        && p.windows(2).all(|w| g.has_edge(w[0], w[1]))
}

fn square() -> Graph {
    graph_of(4, &[(0, 1), (1, 2), (2, 3), (0, 3)])
}

fn pentagon() -> Graph {
    graph_of(5, &[(0, 1), (1, 2), (2, 3), (3, 4), (4, 0)])
}

#[test]
fn add_edge_appends_both_ways() {
    let g = graph_of(3, &[(0, 1), (0, 2), (0, 1)]);
    assert_eq!(g.get_neighbors(0), &vec![1, 2, 1]);
    assert_eq!(g.get_neighbors(1), &vec![0, 0]);
    assert_eq!(g.get_neighbors(2), &vec![0]);
    assert!(g.has_edge(1, 0));
    assert!(!g.has_edge(1, 2));
    assert_eq!(g.size(), 3);
}

#[test]
fn new_graph_has_no_edges() {
    let g = Graph::new(4);
    for v in 0..4 {
        assert!(g.get_neighbors(v).is_empty());
    }
}

#[test]
fn loop_is_listed_twice() {
    let mut g = graph_of(2, &[(1, 1)]);
    assert_eq!(g.get_neighbors(1), &vec![1, 1]);
    g.remove_edge(1, 1);
    assert!(g.get_neighbors(1).is_empty());
}

#[test]
fn remove_edge_takes_one_copy() {
    let mut g = graph_of(3, &[(0, 1), (0, 2), (0, 1)]);
    g.remove_edge(1, 0);
    let lists = sorted_lists(&g);
    assert_eq!(lists[0], vec![1, 2]);
    assert_eq!(lists[1], vec![0]);
    assert_eq!(lists[2], vec![0]);
}

#[test]
fn pop_and_restore_edges() {
    let mut g = graph_of(4, &[(0, 1), (0, 2), (1, 2), (0, 0), (2, 3)]);
    let before = sorted_lists(&g);
    let snapshot = g.pop_edges(0);
    let mut taken = snapshot.clone();
    taken.sort();
    assert_eq!(taken, vec![0, 0, 1, 2]);
    assert!(g.get_neighbors(0).is_empty());
    assert_eq!(g.get_neighbors(1), &vec![2]);
    let mut two = g.get_neighbors(2).clone();
    two.sort();
    assert_eq!(two, vec![1, 3]);
    g.restore_edges(0, &snapshot);
    assert_eq!(sorted_lists(&g), before);
}

#[test]
fn shortest_path_on_square() {
    let g = square();
    assert_eq!(shortest_path(&g, 0, 2), Some(vec![0, 1, 2]));
    assert_eq!(shortest_path(&g, 3, 3), Some(vec![3]));
}

#[test]
fn shortest_path_unreachable() {
    let g = graph_of(3, &[(0, 1)]);
    assert_eq!(shortest_path(&g, 0, 2), None);
}

#[test]
fn fixed_length_on_square() {
    let g = square();
    let p = fixed_length_search(&g, 0, 2, 3).unwrap();
    assert!(p == vec![0, 1, 2] || p == vec![0, 3, 2]);
}

#[test]
fn fixed_length_too_short() {
    let g = square();
    assert_eq!(fixed_length_search(&g, 0, 2, 2), None);
}

#[test]
fn disconnected_not_found() {
    let mut g = graph_of(3, &[(0, 1)]);
    for length in 1..=2 {
        assert_eq!(fixed_length_search(&g, 0, 2, length), None);
        assert_eq!(yen(&mut g, 0, 2, length), None);
    }
}

#[test]
fn single_vertex_path() {
    let mut g = square();
    assert_eq!(fixed_length_search(&g, 2, 2, 1), Some(vec![2]));
    assert_eq!(yen(&mut g, 2, 2, 1), Some(vec![2]));
    let lonely = Graph::new(1);
    assert_eq!(fixed_length_search(&lonely, 0, 0, 1), Some(vec![0]));
}

#[test]
fn yen_on_pentagon() {
    let mut g = pentagon();
    assert_eq!(yen(&mut g, 0, 2, 3), Some(vec![0, 1, 2]));
}

#[test]
fn yen_finds_the_long_way_round() {
    let mut g = pentagon();
    let before = sorted_lists(&g);
    assert_eq!(yen(&mut g, 0, 2, 4), Some(vec![0, 4, 3, 2]));
    assert_eq!(sorted_lists(&g), before);
}

#[test]
fn yen_too_long_is_not_found() {
    let mut g = pentagon();
    let before = sorted_lists(&g);
    assert_eq!(yen(&mut g, 0, 2, 5), None);
    assert_eq!(sorted_lists(&g), before);
}

#[test]
fn yen_restores_graph() {
    let mut g = graph_of(
        7,
        &[(0, 1), (1, 2), (2, 3), (0, 4), (4, 5), (5, 3), (1, 5), (2, 6), (6, 3), (4, 4)],
    );
    let before = sorted_lists(&g);
    for length in 1..=7 {
        if let Some(p) = yen(&mut g, 0, 3, length) {
            assert!(is_valid(&g, &p, 0, 3, length));
        }
        assert_eq!(sorted_lists(&g), before);
    }
    // Two rounds only (seven vertices less five): the path of five is not reached.
    assert_eq!(yen(&mut g, 0, 3, 5), None);
}

#[test]
fn yen_rounds_grow_with_vertex_count() {
    let mut g = graph_of(
        9,
        &[(0, 1), (1, 2), (2, 3), (0, 4), (4, 5), (5, 3), (1, 5), (2, 6), (6, 3), (4, 4)],
    );
    let before = sorted_lists(&g);
    assert_eq!(yen(&mut g, 0, 3, 5), Some(vec![0, 1, 2, 6, 3]));
    assert_eq!(sorted_lists(&g), before);
}

#[test]
fn fixed_length_paths_are_valid() {
    let g = graph_of(
        8,
        &[(0, 1), (1, 2), (2, 3), (3, 7), (0, 4), (4, 5), (5, 6), (6, 7), (1, 5), (2, 6), (3, 3)],
    );
    let mut found = 0;
    for length in 1..=8 {
        if let Some(p) = fixed_length_search(&g, 0, 7, length) {
            assert!(is_valid(&g, &p, 0, 7, length));
            found += 1;
        }
    }
    assert!(found > 0);
    assert_eq!(fixed_length_search(&g, 0, 7, 3), None);
}

#[test]
fn fixed_length_on_path_graph() {
    let g = graph_of(3, &[(0, 1), (1, 2)]);
    assert_eq!(fixed_length_search(&g, 0, 2, 3), Some(vec![0, 1, 2]));
    assert_eq!(fixed_length_search(&g, 0, 2, 2), None);
}

#[test]
fn uniform_samples_stay_in_range() {
    let mut rng = UniformRng::new(3, 7);
    for _ in 0..200 {
        let x = rng.sample();
        assert!((3..7).contains(&x));
    }
    let mut one = UniformRng::new(5, 6);
    assert_eq!(one.sample(), 5);
}

#[test]
fn uniform_samples_vary() {
    let mut rng = UniformRng::new(10, 12);
    let draws: Vec<usize> = (0..200).map(|_| rng.sample()).collect();
    assert!(draws.contains(&10));
    assert!(draws.contains(&11));
}

#[test]
fn random_edges_keep_old_lists() {
    let mut g = graph_of(6, &[(0, 1), (2, 3)]);
    let mut rng = UniformRng::new(0, 6);
    g.add_random_edges(&mut rng, 40);
    assert_eq!(g.get_neighbors(0)[0], 1);
    assert_eq!(g.get_neighbors(2)[0], 3);
    let total: usize = (0..6).map(|v| g.get_neighbors(v).len()).sum();
    assert!(total > 4 && total <= 4 + 80);
    for v in 0..6 {
        for &u in g.get_neighbors(v).iter() {
            assert!(u != v);
            assert!(g.has_edge(u, v));
        }
    }
}

#[test]
fn fixed_length_from_far_end() {
    let g = graph_of(3, &[(0, 1), (1, 2)]);
    assert_eq!(fixed_length_search(&g, 0, 0, 1), Some(vec![0]));
    assert_eq!(fixed_length_search(&g, 2, 0, 3), Some(vec![2, 1, 0]));
}
