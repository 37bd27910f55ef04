use paradfs::dfs::{dfs, dfs_for_temp};
use paradfs::dfs_parallel::{
    dfs_donate, dfs_donation_rounds, dfs_for_continue_share, dfs_lock, dfs_parallel, dfs_send_path,
};
use paradfs::graph::Graph;
use std::collections::HashSet;

fn seed_graph() -> Graph {
    let mut graph = Graph::empty();

    graph.add_directed_edge(1, 1000000);
    graph.add_directed_edge(1, 2000);
    graph.add_directed_edge(2000, 2000000);
    graph.add_directed_edge(2000, 2500);
    graph.add_directed_edge(2500, 3000);
    graph.add_directed_edge(1, 3000);
    graph.add_directed_edge(3000, 300000);
    graph.add_directed_edge(300000, 3000000);
    graph.add_directed_edge(3000000, 3333);
    graph.add_directed_edge(3333, 333);
    graph.add_directed_edge(333, 0);
    graph.add_directed_edge(2000000, 2222);
    graph.add_directed_edge(2222, 0);
    graph.add_directed_edge(1000000, 0);
    graph.add_directed_edge(333, 2233);
    graph.add_directed_edge(2233, 2222);

    graph.add_directed_edge(1, 2);
    graph.add_directed_edge(2, 0);
    graph.add_directed_edge(1, 3);
    graph.add_directed_edge(3, 4);
    graph.add_directed_edge(4, 0);
    graph.add_directed_edge(2, 5);
    graph.add_directed_edge(5, 3);

    graph.add_undirected_edge(1, 9);
    graph.add_undirected_edge(9, 10);
    graph.add_directed_edge(9, 0);
    graph.add_directed_edge(1, 100);
    graph.add_directed_edge(100, 200);
    graph.add_directed_edge(200, 300);
    graph.add_directed_edge(300, 0);

    graph
}

fn as_sorted_set(paths: &[Vec<i64>]) -> Vec<Vec<i64>> {
    let mut s: Vec<Vec<i64>> = Vec::new();
    for p in paths.iter() {
        if !s.contains(p) {
            s.push(p.clone());
        }
    }
    s.sort();
    s
}

#[test]
fn test_dfs_parallel() {
    let graph = seed_graph();

    let now = 1;
    let target = 0;
    let k = 3;
    let mut result = Vec::new();
    let mut temp_result = Vec::new();
    let mut path = Vec::new();
    let mut visit = HashSet::new();
    visit.insert(now);
    dfs_for_temp(
        &mut path,
        now,
        target,
        k,
        &graph,
        &mut result,
        &mut temp_result,
        false,
        &mut visit,
    );
    visit.remove(&now);

    assert!(visit.is_empty());
    assert!(path.is_empty());
    assert_eq!(result.len(), 3);
    assert!(result.contains(&vec![1000000]));
    assert!(result.contains(&vec![2]));
    assert!(result.contains(&vec![9]));

    assert_eq!(temp_result.len(), 6);
    assert!(temp_result.contains(&vec![2000, 2500, 3000]));
    assert!(temp_result.contains(&vec![2, 5, 3]));
    assert!(temp_result.contains(&vec![3000, 300000, 3000000]));
    assert!(temp_result.contains(&vec![100, 200, 300]));
    assert!(temp_result.contains(&vec![3, 4, 0]));
    assert!(temp_result.contains(&vec![2000, 2000000, 2222]));

    for share in 0..4 {
        let mut local = dfs_for_continue_share(&temp_result, now, 0, 4, &graph, false, share, 4);
        result.append(&mut local);
    }

    assert_eq!(result.len(), 6);
    assert!(result.contains(&vec![2]));
    assert!(result.contains(&vec![3, 4]));
    assert!(result.contains(&vec![9]));
    assert!(result.contains(&vec![100, 200, 300]));
    assert!(result.contains(&vec![2000, 2000000, 2222]));
    assert!(result.contains(&vec![1000000]));
}

#[test]
fn dfs_parallel_test_dfs_parallel() {
    let graph = seed_graph();

    let now = 1;
    let target = 0;
    let k = 3;
    let mut result = Vec::new();
    let mut temp_result = Vec::new();
    let mut path = Vec::new();
    let mut visit = HashSet::new();
    visit.insert(now);
    dfs_for_temp(
        &mut path,
        now,
        target,
        k,
        &graph,
        &mut result,
        &mut temp_result,
        false,
        &mut visit,
    );
    visit.remove(&now);

    assert!(visit.is_empty());
    assert!(path.is_empty());
    assert_eq!(result.len(), 3);
    assert!(result.contains(&vec![1000000]));
    assert!(result.contains(&vec![2]));
    assert!(result.contains(&vec![9]));

    assert_eq!(temp_result.len(), 6);
    assert!(temp_result.contains(&vec![2000, 2500, 3000]));
    assert!(temp_result.contains(&vec![2, 5, 3]));
    assert!(temp_result.contains(&vec![3000, 300000, 3000000]));
    assert!(temp_result.contains(&vec![100, 200, 300]));
    assert!(temp_result.contains(&vec![3, 4, 0]));
    assert!(temp_result.contains(&vec![2000, 2000000, 2222]));

    for share in 0..4 {
        let mut local = dfs_for_continue_share(&temp_result, now, 0, 4, &graph, false, share, 4);
        result.append(&mut local);
    }

    assert_eq!(result.len(), 6);
    assert!(result.contains(&vec![2]));
    assert!(result.contains(&vec![3, 4]));
    assert!(result.contains(&vec![9]));
    assert!(result.contains(&vec![100, 200, 300]));
    assert!(result.contains(&vec![2000, 2000000, 2222]));
    assert!(result.contains(&vec![1000000]));
}

#[test]
fn test_strategy_independence() {
    let graph = seed_graph();

    let mut sequential = Vec::new();
    let mut path = Vec::new();
    let mut visit = HashSet::new();
    dfs(1, 0, 4, &graph, &mut sequential, &mut path, false, &mut visit);

    let mut partitioned = Vec::new();
    let mut path2 = Vec::new();
    let mut visit2 = HashSet::new();
    dfs_parallel(1, 0, 4, &graph, &mut partitioned, &mut path2, false, &mut visit2);
    assert!(path2.is_empty());
    assert!(visit2.is_empty());

    let mut idle = Vec::new();
    dfs_donation_rounds(1, 0, 4, &graph, &mut idle, false, 0);

    let mut stealing = Vec::new();
    dfs_donation_rounds(1, 0, 4, &graph, &mut stealing, false, 3);

    let mut greedy = Vec::new();
    dfs_donation_rounds(1, 0, 4, &graph, &mut greedy, false, 100);

    let want = as_sorted_set(&sequential);
    assert_eq!(want.len(), 6);
    assert_eq!(as_sorted_set(&partitioned), want);
    assert_eq!(as_sorted_set(&idle), want);
    assert_eq!(as_sorted_set(&stealing), want);
    assert_eq!(as_sorted_set(&greedy), want);
}

#[test]
fn test_dfs_parallel_trivial() {
    let graph = seed_graph();
    let mut result = Vec::new();
    let mut path = Vec::new();
    let mut visit = HashSet::new();
    dfs_parallel(7, 7, 6, &graph, &mut result, &mut path, false, &mut visit);
    assert_eq!(result.len(), 1);
    assert_eq!(result[0], Vec::<i64>::new());
}

#[test]
fn test_dfs_donate_no_demand() {
    let graph = seed_graph();
    let mut demand: usize = 0;
    let mut donated = Vec::new();
    let mut result = Vec::new();
    let mut path = Vec::new();
    let mut visit = HashSet::new();
    dfs_donate(
        &mut demand,
        &mut donated,
        1,
        0,
        4,
        &graph,
        &mut result,
        &mut path,
        false,
        &mut visit,
    );
    assert_eq!(demand, 0);
    assert!(donated.is_empty());
    assert_eq!(as_sorted_set(&result).len(), 6);
}

#[test]
fn test_dfs_send_path_pairs_requests() {
    let graph = seed_graph();
    let mut requests = vec![7, 8];
    let mut donations: Vec<(i64, Vec<i64>)> = Vec::new();
    let mut result = Vec::new();
    let mut path = Vec::new();
    let mut visit = HashSet::new();
    dfs_send_path(
        &mut requests,
        &mut donations,
        1,
        0,
        4,
        &graph,
        &mut result,
        &mut path,
        false,
        &mut visit,
    );
    assert!(visit.is_empty());
    assert!(path.is_empty());
    assert_eq!(donations.len(), 2);
    assert_eq!(donations[0].0, 7);
    assert_eq!(donations[1].0, 8);
    assert!(requests.is_empty());
    // every donated branch starts at a neighbour of the start node
    for (_, branch) in donations.iter() {
        assert!(!branch.is_empty());
        assert!(!branch.contains(&1));
    }
}

#[test]
fn test_dfs_lock_counts_donations() {
    let graph = seed_graph();
    let mut cnt: i64 = 2;
    let mut take_path: Vec<Vec<i64>> = Vec::new();
    let mut result = Vec::new();
    let mut path = Vec::new();
    let mut visit = HashSet::new();
    dfs_lock(
        &mut cnt,
        &mut take_path,
        1,
        0,
        4,
        &graph,
        &mut result,
        &mut path,
        false,
        &mut visit,
    );
    assert_eq!(cnt, 2 - take_path.len() as i64);
    assert_eq!(take_path.len(), 2);

    let mut cnt2: i64 = -5;
    let mut take2: Vec<Vec<i64>> = Vec::new();
    let mut result2 = Vec::new();
    let mut path2 = Vec::new();
    let mut visit2 = HashSet::new();
    dfs_lock(
        &mut cnt2,
        &mut take2,
        1,
        0,
        4,
        &graph,
        &mut result2,
        &mut path2,
        false,
        &mut visit2,
    );
    assert_eq!(cnt2, -5);
    assert!(take2.is_empty());
    assert_eq!(as_sorted_set(&result2).len(), 6);
}

#[test]
fn test_donated_work_reconstructed() {
    // Work conservation: what a donating searcher hands away, resuming the
    // donated branches (with the start node banned) finds again — together
    // they reproduce the direct search's answer set.
    let graph = seed_graph();
    let mut requests = vec![0, 0, 0];
    let mut donations: Vec<(i64, Vec<i64>)> = Vec::new();
    let mut result = Vec::new();
    let mut path = Vec::new();
    let mut visit = HashSet::new();
    dfs_send_path(
        &mut requests,
        &mut donations,
        1,
        0,
        4,
        &graph,
        &mut result,
        &mut path,
        false,
        &mut visit,
    );
    assert_eq!(donations.len(), 3);
    let branches: Vec<Vec<i64>> = donations.into_iter().map(|(_, b)| b).collect();
    let mut resumed = dfs_for_continue_share(&branches, 1, 0, 4, &graph, false, 0, 1);
    result.append(&mut resumed);

    let mut direct = Vec::new();
    let mut path2 = Vec::new();
    let mut visit2 = HashSet::new();
    dfs(1, 0, 4, &graph, &mut direct, &mut path2, false, &mut visit2);
    assert_eq!(as_sorted_set(&result), as_sorted_set(&direct));
}

#[test]
fn test_donation_rounds_reverse() {
    let graph = seed_graph();
    let mut rev_results = Vec::new();
    dfs_donation_rounds(0, 1, 4, &graph, &mut rev_results, true, 2);
    let set = as_sorted_set(&rev_results);
    assert_eq!(set.len(), 6);
    assert!(set.contains(&vec![2]));
    assert!(set.contains(&vec![4, 3]));
    assert!(set.contains(&vec![9]));
    assert!(set.contains(&vec![300, 200, 100]));
    assert!(set.contains(&vec![1000000]));
    assert!(set.contains(&vec![2222, 2000000, 2000]));
}
