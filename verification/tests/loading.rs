use std::collections::HashMap;

use graph_bfs::parse::{load_line, parse_line, Directive};

fn load_all(lines: &[&str]) -> (usize, HashMap<usize, Vec<usize>>, usize) {
    let mut graph: HashMap<usize, Vec<usize>> = HashMap::new();
    let mut vertices: usize = 0;
    let mut skipped: usize = 0;
    for line in lines {
        if load_line(&mut graph, &mut vertices, line.as_bytes()) {
            skipped += 1;
        }
    }
    (vertices, graph, skipped)
}

#[test]
fn test_read_file_valid_input() {
    let expected_graph = {
        let mut map = HashMap::new();
        map.insert(1, vec![2]);
        map.insert(2, vec![1, 3]);
        map.insert(3, vec![2]);
        map
    };

    let (vertices, graph, skipped) = load_all(&["3", "1 2", "2 3"]);

    assert_eq!(skipped, 0);
    assert_eq!(vertices, 3);
    assert_eq!(graph, expected_graph);
}

#[test]
fn test_symmetric_insertion() {
    let (_, graph, _) = load_all(&["10 20"]);
    assert!(graph[&10].contains(&20));
    assert!(graph[&20].contains(&10));
}

#[test]
fn test_skip_invalid_line_then_load() {
    let mut graph: HashMap<usize, Vec<usize>> = HashMap::new();
    let mut vertices: usize = 0;

    let malformed = load_line(&mut graph, &mut vertices, b"abc 2");
    assert!(malformed);
    assert!(graph.is_empty());
    assert_eq!(vertices, 0);

    let malformed = load_line(&mut graph, &mut vertices, b"1 2");
    assert!(!malformed);
    assert_eq!(graph[&1], vec![2]);
    assert_eq!(graph[&2], vec![1]);
}

#[test]
fn test_self_loop_inserted_twice() {
    let (_, graph, _) = load_all(&["5 5"]);
    assert_eq!(graph[&5], vec![5, 5]);
}

#[test]
fn test_parallel_edges_preserved() {
    let (_, graph, _) = load_all(&["1 2", "1 2"]);
    assert_eq!(graph[&1], vec![2, 2]);
    assert_eq!(graph[&2], vec![1, 1]);
}

#[test]
fn test_vertex_count_last_wins() {
    let (vertices, graph, skipped) = load_all(&["2", "9"]);
    assert_eq!(vertices, 9);
    assert!(graph.is_empty());
    assert_eq!(skipped, 0);
}

#[test]
fn test_blank_lines_not_reported() {
    let (vertices, graph, skipped) = load_all(&["", "   ", "\t \t"]);
    assert_eq!(vertices, 0);
    assert!(graph.is_empty());
    assert_eq!(skipped, 0);
}

#[test]
fn test_parse_line_directives() {
    assert_eq!(parse_line(b"7"), Directive::VertexCount(7));
    assert_eq!(parse_line(b"  007  "), Directive::VertexCount(7));
    assert_eq!(parse_line(b"1 2"), Directive::Edge(1, 2));
    assert_eq!(parse_line(b" 1 \t 2 "), Directive::Edge(1, 2));
    assert_eq!(parse_line(b""), Directive::Blank);
    assert_eq!(parse_line(b"   "), Directive::Blank);
    assert_eq!(parse_line(b"1 2 3"), Directive::Malformed);
    assert_eq!(parse_line(b"abc 2"), Directive::Malformed);
    assert_eq!(parse_line(b"-1 2"), Directive::Malformed);
    assert_eq!(parse_line(b"1 x"), Directive::Malformed);
}

#[test]
fn test_parse_line_value_bounds() {
    let max = usize::MAX.to_string();
    assert_eq!(parse_line(max.as_bytes()), Directive::VertexCount(usize::MAX));
    // one past usize::MAX does not parse as an integer token
    let over = format!("{}0", usize::MAX);
    assert_eq!(parse_line(over.as_bytes()), Directive::Malformed);
}
