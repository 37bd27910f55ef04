use paradfs::graph::Graph;
use paradfs::incremental_dfs::{cal_part, incremental_path, join};
use std::collections::HashSet;

#[test]
fn test_cal_part_forward() {
    let mut graph = Graph::empty();
    graph.add_directed_edge(1, 2);
    graph.add_directed_edge(2, 3);
    graph.add_directed_edge(3, 4);
    graph.add_directed_edge(1, 5);
    graph.add_directed_edge(5, 9);

    let mut total = Vec::new();
    let mut boundary = Vec::new();
    cal_part(1, 9, 2, &graph, &mut total, &mut boundary, false);
    // 1 -> 5 -> 9 connects within two hops
    assert_eq!(total.len(), 1);
    assert!(total.contains(&vec![5]));
    // 1 -> 2 -> 3 runs the budget out short of the target
    assert_eq!(boundary.len(), 1);
    assert!(boundary.contains(&vec![2, 3]));
}

#[test]
fn test_cal_part_reverse() {
    let mut graph = Graph::empty();
    graph.add_directed_edge(2, 9);
    graph.add_directed_edge(1, 2);

    let mut total = Vec::new();
    let mut boundary = Vec::new();
    // walk the edges backwards from 9 looking for 1
    cal_part(9, 1, 2, &graph, &mut total, &mut boundary, true);
    assert_eq!(total.len(), 1);
    assert!(total.contains(&vec![2]));
    assert!(boundary.is_empty());
}

#[test]
fn test_join_stitches_meeting_point() {
    // forward boundary from 1 reaching 3; reverse boundary from 5 reaching 3
    let left = vec![vec![2, 3]];
    let right = vec![vec![4, 3]];
    let out = join(&left, &right, 1, 5, 4);
    assert_eq!(out.len(), 1);
    assert_eq!(out[0], vec![2, 3, 4]);
}

#[test]
fn test_join_rejects_bad_candidates() {
    // different meeting points: nothing to stitch
    let out = join(&vec![vec![2, 3]], &vec![vec![4, 6]], 1, 5, 4);
    assert!(out.is_empty());
    // over budget
    let out2 = join(&vec![vec![2, 3]], &vec![vec![4, 3]], 1, 5, 3);
    assert!(out2.is_empty());
    // repeated interior node across the halves
    let out3 = join(&vec![vec![2, 3]], &vec![vec![2, 3]], 1, 5, 9);
    assert!(out3.is_empty());
    // the start node inside the stitched interior
    let out4 = join(&vec![vec![2, 3]], &vec![vec![1, 3]], 1, 5, 9);
    assert!(out4.is_empty());
}

#[test]
fn test_incremental_path_chain() {
    let mut graph = Graph::empty();
    graph.add_directed_edge(1, 2);
    graph.add_directed_edge(2, 3);
    graph.add_directed_edge(3, 4);
    graph.add_directed_edge(4, 5);

    let mut result = Vec::new();
    incremental_path(1, 5, 4, &graph, &mut result);
    assert_eq!(result.len(), 1);
    assert!(result.contains(&vec![2, 3, 4]));
}

#[test]
fn test_incremental_path_short_answers() {
    let mut graph = Graph::empty();
    graph.add_directed_edge(1, 2);
    graph.add_directed_edge(2, 5);
    graph.add_directed_edge(1, 5);

    let mut result = Vec::new();
    incremental_path(1, 5, 4, &graph, &mut result);
    // both short connections fall inside the forward half budget
    assert!(result.contains(&vec![2]));
    assert!(result.contains(&Vec::<i64>::new()));
    // and everything returned is a simple interior path between the endpoints
    for p in result.iter() {
        assert!(!p.contains(&1));
        assert!(!p.contains(&5));
        let mut seen = HashSet::new();
        for node in p.iter() {
            assert!(seen.insert(*node));
        }
    }
}
