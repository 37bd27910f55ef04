use paradfs::graph::{AdjacentList, Graph};
use paradfs::load::{create_path, LoadError};

#[test]
fn test_cal_degree() {
    let graph = Graph::test();
    assert_eq!(graph.cal_degree(1), 3);
    assert_eq!(graph.cal_degree(2), 2);
    assert_eq!(graph.cal_degree(3), 1);
}

#[test]
fn test_graph_v() {
    let mut graph = Graph::empty();
    graph.add_directed_edge(1, 2);
    graph.add_directed_edge(1, 3);
    graph.add_directed_edge(2, 3);
    let mut nodes = graph.v();
    nodes.sort();
    assert_eq!(nodes, vec![1, 2]);
}

#[test]
fn test_out_v_in_v() {
    let mut graph = Graph::empty();
    graph.add_directed_edge(1, 2);
    graph.add_directed_edge(1, 3);
    graph.add_directed_edge(4, 1);
    assert_eq!(graph.out_v(1), Some(&vec![2, 3]));
    assert_eq!(graph.in_v(1), Some(&vec![4]));
    assert_eq!(graph.out_v(2), None);
    assert_eq!(graph.in_v(2), Some(&vec![1]));
    assert_eq!(graph.out_v(99), None);
    assert_eq!(graph.in_v(99), None);
}

#[test]
fn test_undirected_edge_both_ways() {
    let mut graph = Graph::empty();
    graph.add_undirected_edge(5, 6);
    assert_eq!(graph.out_v(5), Some(&vec![6]));
    assert_eq!(graph.out_v(6), Some(&vec![5]));
    assert_eq!(graph.in_v(5), Some(&vec![6]));
    assert_eq!(graph.in_v(6), Some(&vec![5]));
}

#[test]
fn test_graph_new_from_lists() {
    let mut adj = AdjacentList::new();
    let mut rev = AdjacentList::new();
    adj.push_edge(1, 2);
    rev.push_edge(2, 1);
    let graph = Graph::new(adj, rev);
    assert_eq!(graph.out_v(1), Some(&vec![2]));
    assert_eq!(graph.in_v(2), Some(&vec![1]));
}

#[test]
fn test_graph_test_large() {
    let graph = Graph::test_large();
    // hub 1 carries 1000 undirected plus 11000 directed fan-out edges, one
    // extra directed edge to 5 and an undirected edge to 4
    assert_eq!(graph.cal_degree(5), 2);
    let out1 = graph.out_v(1).unwrap().len() as u64;
    let in1 = graph.in_v(1).unwrap().len() as u64;
    assert_eq!(out1, 1000 + 11000 + 1 + 1);
    assert_eq!(in1, 1000 + 1);
}

#[test]
fn test_load_error_message() {
    let e = LoadError::new(String::from("bad line"));
    assert_eq!(e.message().as_str(), "bad line");
    let e2 = e.clone();
    assert_eq!(e2.message().as_str(), "bad line");
}

#[test]
fn test_create_path() {
    let parts = vec![String::from("test_dir"), String::from("aaa")];
    assert_eq!(create_path(&parts), "test_dir/aaa");
    let single = vec![String::from("alone")];
    assert_eq!(create_path(&single), "alone");
    let none: Vec<String> = Vec::new();
    assert_eq!(create_path(&none), "");
}
