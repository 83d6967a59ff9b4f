use std::collections::HashMap;

use graph_bfs::bfs::bfs;
use graph_bfs::graph::add_edge;

#[test]
fn test_bfs_valid_path() {
    let mut graph = HashMap::new();
    graph.insert(1, vec![2, 3]);
    graph.insert(2, vec![1, 4]);
    graph.insert(3, vec![1]);
    graph.insert(4, vec![2]);
    assert_eq!(bfs(&graph, 1, 4), Some(vec![1, 2, 4]));
}

#[test]
fn test_bfs_no_path() {
    let mut graph = HashMap::new();
    graph.insert(1, vec![2, 3]);
    graph.insert(2, vec![1]);
    graph.insert(3, vec![1]);
    assert_eq!(bfs(&graph, 1, 4), None);
}

#[test]
fn test_shortest_chain() {
    let mut graph: HashMap<usize, Vec<usize>> = HashMap::new();
    add_edge(&mut graph, 1, 2);
    add_edge(&mut graph, 2, 3);
    let path = bfs(&graph, 1, 3);
    assert_eq!(path, Some(vec![1, 2, 3]));
    assert_eq!(path.unwrap().len() - 1, 2);
}

#[test]
fn test_absent_goal() {
    let mut graph: HashMap<usize, Vec<usize>> = HashMap::new();
    add_edge(&mut graph, 1, 2);
    add_edge(&mut graph, 1, 3);
    assert_eq!(bfs(&graph, 2, 4), None);
}

#[test]
fn test_disconnected_components() {
    let mut graph: HashMap<usize, Vec<usize>> = HashMap::new();
    add_edge(&mut graph, 1, 2);
    add_edge(&mut graph, 3, 4);
    assert_eq!(bfs(&graph, 1, 4), None);
    assert_eq!(bfs(&graph, 1, 2), Some(vec![1, 2]));
    assert_eq!(bfs(&graph, 3, 4), Some(vec![3, 4]));
}

#[test]
fn test_self_query_with_edges() {
    let mut graph: HashMap<usize, Vec<usize>> = HashMap::new();
    add_edge(&mut graph, 1, 2);
    assert_eq!(bfs(&graph, 1, 1), Some(vec![1]));
}

#[test]
fn test_self_query_absent_vertex() {
    let graph: HashMap<usize, Vec<usize>> = HashMap::new();
    assert_eq!(bfs(&graph, 7, 7), Some(vec![7]));
}

#[test]
fn test_absent_start_behaves_like_isolated() {
    let mut graph: HashMap<usize, Vec<usize>> = HashMap::new();
    add_edge(&mut graph, 1, 2);
    assert_eq!(bfs(&graph, 9, 1), None);
}

#[test]
fn test_shortest_among_two_routes() {
    // 1-2-4 (two hops) against 1-3-5-4 (three hops).
    let mut graph: HashMap<usize, Vec<usize>> = HashMap::new();
    add_edge(&mut graph, 1, 3);
    add_edge(&mut graph, 3, 5);
    add_edge(&mut graph, 5, 4);
    add_edge(&mut graph, 1, 2);
    add_edge(&mut graph, 2, 4);
    let path = bfs(&graph, 1, 4).unwrap();
    assert_eq!(path.len() - 1, 2);
    assert_eq!(path, vec![1, 2, 4]);
}

#[test]
fn test_parallel_edges_and_self_loops_harmless() {
    let mut graph: HashMap<usize, Vec<usize>> = HashMap::new();
    add_edge(&mut graph, 1, 2);
    add_edge(&mut graph, 1, 2);
    add_edge(&mut graph, 2, 2);
    add_edge(&mut graph, 2, 3);
    assert_eq!(bfs(&graph, 1, 3), Some(vec![1, 2, 3]));
}
