use paradfs::dfs::{dfs, dfs_for_continue, dfs_for_temp};
use paradfs::graph::Graph;
use std::collections::HashSet;

fn seed_graph() -> Graph {
    let mut graph = Graph::empty();

    graph.add_directed_edge(1, 1000000);
    graph.add_directed_edge(1, 2000);
    graph.add_directed_edge(2000, 2000000);
    graph.add_directed_edge(2000, 2500);
    graph.add_directed_edge(2500, 3000);
    graph.add_directed_edge(1, 3000);
    graph.add_directed_edge(3000, 300000);
    graph.add_directed_edge(300000, 3000000);
    graph.add_directed_edge(3000000, 3333);
    graph.add_directed_edge(3333, 333);
    graph.add_directed_edge(333, 0);
    graph.add_directed_edge(2000000, 2222);
    graph.add_directed_edge(2222, 0);
    graph.add_directed_edge(1000000, 0);
    graph.add_directed_edge(333, 2233);
    graph.add_directed_edge(2233, 2222);

    graph.add_directed_edge(1, 2);
    graph.add_directed_edge(2, 0);
    graph.add_directed_edge(1, 3);
    graph.add_directed_edge(3, 4);
    graph.add_directed_edge(4, 0);
    graph.add_directed_edge(2, 5);
    graph.add_directed_edge(5, 3);

    graph.add_undirected_edge(1, 9);
    graph.add_undirected_edge(9, 10);
    graph.add_directed_edge(9, 0);
    graph.add_directed_edge(1, 100);
    graph.add_directed_edge(100, 200);
    graph.add_directed_edge(200, 300);
    graph.add_directed_edge(300, 0);

    graph
}

#[test]
fn test_dfs() {
    let now = 1;
    let target = 0;
    let k = 4;
    let mut graph = Graph::empty();

    graph.add_directed_edge(1, 1000000);
    graph.add_directed_edge(1, 2000);
    graph.add_directed_edge(2000, 2000000);
    graph.add_directed_edge(2000, 2500);
    graph.add_directed_edge(2500, 3000);
    graph.add_directed_edge(1, 3000);
    graph.add_directed_edge(3000, 300000);
    graph.add_directed_edge(300000, 3000000);
    graph.add_directed_edge(3000000, 3333);
    graph.add_directed_edge(3333, 333);
    graph.add_directed_edge(333, 0);
    graph.add_directed_edge(2000000, 2222);
    graph.add_directed_edge(2222, 0);
    graph.add_directed_edge(1000000, 0);
    graph.add_directed_edge(333, 2233);
    graph.add_directed_edge(2233, 2222);

    graph.add_directed_edge(1, 2);
    graph.add_directed_edge(2, 0);
    graph.add_directed_edge(1, 3);
    graph.add_directed_edge(3, 4);
    graph.add_directed_edge(4, 0);
    graph.add_directed_edge(2, 5);
    graph.add_directed_edge(5, 3);

    graph.add_undirected_edge(1, 9);
    graph.add_undirected_edge(9, 10);
    graph.add_directed_edge(9, 0);
    graph.add_directed_edge(1, 100);
    graph.add_directed_edge(100, 200);
    graph.add_directed_edge(200, 300);
    graph.add_directed_edge(300, 0);

    let mut result = Vec::new();
    let mut path = Vec::new();
    let mut visit = HashSet::new();
    dfs(now, target, k, &graph, &mut result, &mut path, false, &mut visit);
    assert!(visit.is_empty());
    assert!(path.is_empty());
    assert_eq!(result.len(), 6);
    assert!(result.contains(&vec![2]));
    assert!(result.contains(&vec![3, 4]));
    assert!(result.contains(&vec![9]));
    assert!(result.contains(&vec![100, 200, 300]));
    assert!(result.contains(&vec![1000000]));
    assert!(result.contains(&vec![2000, 2000000, 2222]));

    let now = 0;
    let target = 1;
    let mut result = Vec::new();
    let mut path = Vec::new();
    let mut visit = HashSet::new();
    dfs(now, target, k, &graph, &mut result, &mut path, true, &mut visit);
    assert!(visit.is_empty());
    assert!(path.is_empty());
    assert_eq!(result.len(), 6);
    assert!(result.contains(&vec![2]));
    assert!(result.contains(&vec![4, 3]));
    assert!(result.contains(&vec![9]));
    assert!(result.contains(&vec![300, 200, 100]));
    assert!(result.contains(&vec![1000000]));
    assert!(result.contains(&vec![2222, 2000000, 2000]));
}

#[test]
fn test_dfs_seprate() {
    let graph = seed_graph();

    let now = 1;
    let target = 0;
    let k = 3;
    let mut result = Vec::new();
    let mut temp_result = Vec::new();
    let mut path = Vec::new();
    let mut visit = HashSet::new();
    visit.insert(now);
    dfs_for_temp(
        &mut path,
        now,
        target,
        k,
        &graph,
        &mut result,
        &mut temp_result,
        false,
        &mut visit,
    );
    visit.remove(&now);

    assert!(visit.is_empty());
    assert!(path.is_empty());
    assert_eq!(result.len(), 3);
    assert!(result.contains(&vec![2]));
    assert!(result.contains(&vec![9]));
    assert!(result.contains(&vec![1000000]));

    assert_eq!(temp_result.len(), 6);
    assert!(temp_result.contains(&vec![2000, 2500, 3000]));
    assert!(temp_result.contains(&vec![2, 5, 3]));
    assert!(temp_result.contains(&vec![3000, 300000, 3000000]));
    assert!(temp_result.contains(&vec![100, 200, 300]));
    assert!(temp_result.contains(&vec![3, 4, 0]));
    assert!(temp_result.contains(&vec![2000, 2000000, 2222]));

    dfs_for_continue(&mut temp_result, 1, 0, 4, &graph, &mut result, false);

    assert_eq!(result.len(), 6);
    assert!(result.contains(&vec![2]));
    assert!(result.contains(&vec![3, 4]));
    assert!(result.contains(&vec![9]));
    assert!(result.contains(&vec![100, 200, 300]));
    assert!(result.contains(&vec![2000, 2000000, 2222]));
    assert!(result.contains(&vec![1000000]));
}

#[test]
fn test_start_equals_target() {
    let graph = seed_graph();
    let mut result = Vec::new();
    let mut path = Vec::new();
    let mut visit = HashSet::new();
    dfs(1, 1, 4, &graph, &mut result, &mut path, false, &mut visit);
    assert!(visit.is_empty());
    assert!(path.is_empty());
    assert_eq!(result.len(), 1);
    assert_eq!(result[0], Vec::<i64>::new());
}

#[test]
fn test_dfs_zero_budget() {
    let graph = seed_graph();
    let mut result = Vec::new();
    let mut path = Vec::new();
    let mut visit = HashSet::new();
    dfs(1, 0, 0, &graph, &mut result, &mut path, false, &mut visit);
    assert!(result.is_empty());
    assert!(visit.is_empty());
    assert!(path.is_empty());
}

#[test]
fn test_dfs_empty_graph() {
    let graph = Graph::empty();
    let mut result = Vec::new();
    let mut path = Vec::new();
    let mut visit = HashSet::new();
    dfs(1, 0, 5, &graph, &mut result, &mut path, false, &mut visit);
    assert!(result.is_empty());
    assert!(visit.is_empty());
    assert!(path.is_empty());
}

#[test]
fn test_dfs_self_loop() {
    let mut graph = Graph::empty();
    graph.add_directed_edge(1, 1);
    graph.add_directed_edge(1, 0);
    let mut result = Vec::new();
    let mut path = Vec::new();
    let mut visit = HashSet::new();
    dfs(1, 0, 3, &graph, &mut result, &mut path, false, &mut visit);
    assert_eq!(result.len(), 1);
    assert!(result.contains(&Vec::<i64>::new()));
    assert!(visit.is_empty());
    assert!(path.is_empty());
}

#[test]
fn test_dfs_duplicate_edges() {
    let mut graph = Graph::empty();
    graph.add_directed_edge(1, 2);
    graph.add_directed_edge(1, 2);
    graph.add_directed_edge(2, 0);
    let mut result = Vec::new();
    let mut path = Vec::new();
    let mut visit = HashSet::new();
    dfs(1, 0, 2, &graph, &mut result, &mut path, false, &mut visit);
    assert_eq!(result.len(), 2);
    assert_eq!(result[0], vec![2]);
    assert_eq!(result[1], vec![2]);
}

#[test]
fn test_dfs_simple_paths_only() {
    let graph = seed_graph();
    let mut result = Vec::new();
    let mut path = Vec::new();
    let mut visit = HashSet::new();
    dfs(1, 0, 4, &graph, &mut result, &mut path, false, &mut visit);
    for p in result.iter() {
        assert!(p.len() + 1 <= 4);
        assert!(!p.contains(&1));
        assert!(!p.contains(&0));
        let mut seen = HashSet::new();
        for node in p.iter() {
            assert!(seen.insert(*node));
        }
    }
}

#[test]
fn test_dfs_last_hop_counts() {
    let mut graph = Graph::empty();
    graph.add_directed_edge(1, 2);
    graph.add_directed_edge(2, 3);
    graph.add_directed_edge(3, 0);
    let mut result = Vec::new();
    let mut path = Vec::new();
    let mut visit = HashSet::new();
    dfs(1, 0, 3, &graph, &mut result, &mut path, false, &mut visit);
    assert_eq!(result.len(), 1);
    assert!(result.contains(&vec![2, 3]));

    let mut short = Vec::new();
    let mut path2 = Vec::new();
    let mut visit2 = HashSet::new();
    dfs(1, 0, 2, &graph, &mut short, &mut path2, false, &mut visit2);
    assert!(short.is_empty());
}
