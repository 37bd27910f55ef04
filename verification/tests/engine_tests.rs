use paradfs::engine::{enumerate_paths, SearchDirection, SearchStrategy};
use paradfs::graph::Graph;

fn seed_graph() -> Graph {
    let mut graph = Graph::empty();
    graph.add_directed_edge(1, 2);
    graph.add_directed_edge(2, 0);
    graph.add_directed_edge(1, 3);
    graph.add_directed_edge(3, 4);
    graph.add_directed_edge(4, 0);
    graph.add_directed_edge(2, 5);
    graph.add_directed_edge(5, 3);
    graph.add_undirected_edge(1, 9);
    graph.add_undirected_edge(9, 10);
    graph.add_directed_edge(9, 0);
    graph.add_directed_edge(1, 100);
    graph.add_directed_edge(100, 200);
    graph.add_directed_edge(200, 300);
    graph.add_directed_edge(300, 0);
    graph.add_directed_edge(1, 1000000);
    graph.add_directed_edge(1000000, 0);
    graph.add_directed_edge(1, 2000);
    graph.add_directed_edge(2000, 2000000);
    graph.add_directed_edge(2000000, 2222);
    graph.add_directed_edge(2222, 0);
    graph
}

fn as_sorted_set(paths: &[Vec<i64>]) -> Vec<Vec<i64>> {
    let mut s: Vec<Vec<i64>> = Vec::new();
    for p in paths.iter() {
        if !s.contains(p) {
            s.push(p.clone());
        }
    }
    s.sort();
    s
}

#[test]
fn test_enumerate_paths_strategies_agree() {
    let graph = seed_graph();
    let seq = enumerate_paths(
        1,
        0,
        4,
        &graph,
        SearchDirection::Forward,
        SearchStrategy::Sequential,
    );
    let part = enumerate_paths(
        1,
        0,
        4,
        &graph,
        SearchDirection::Forward,
        SearchStrategy::StaticPartition,
    );
    let ring = enumerate_paths(
        1,
        0,
        4,
        &graph,
        SearchDirection::Forward,
        SearchStrategy::WorkStealingRing,
    );
    let mutex = enumerate_paths(
        1,
        0,
        4,
        &graph,
        SearchDirection::Forward,
        SearchStrategy::MutexStealing,
    );
    let want = as_sorted_set(&seq);
    assert_eq!(want.len(), 6);
    assert!(want.contains(&vec![2]));
    assert!(want.contains(&vec![3, 4]));
    assert!(want.contains(&vec![9]));
    assert!(want.contains(&vec![100, 200, 300]));
    assert!(want.contains(&vec![1000000]));
    assert!(want.contains(&vec![2000, 2000000, 2222]));
    assert_eq!(as_sorted_set(&part), want);
    assert_eq!(as_sorted_set(&ring), want);
    assert_eq!(as_sorted_set(&mutex), want);
}

#[test]
fn test_enumerate_paths_reverse() {
    let graph = seed_graph();
    let rev = enumerate_paths(
        0,
        1,
        4,
        &graph,
        SearchDirection::Reverse,
        SearchStrategy::Sequential,
    );
    let set = as_sorted_set(&rev);
    assert_eq!(set.len(), 6);
    assert!(set.contains(&vec![4, 3]));
    assert!(set.contains(&vec![300, 200, 100]));
    assert!(set.contains(&vec![2222, 2000000, 2000]));
}

#[test]
fn test_enumerate_paths_no_route() {
    let graph = seed_graph();
    let none = enumerate_paths(
        0,
        10,
        2,
        &graph,
        SearchDirection::Forward,
        SearchStrategy::Sequential,
    );
    assert!(none.is_empty());
}
