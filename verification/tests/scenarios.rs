use trgfa::{add_edge, deserialize, reduce, serialize, successors, Gfa, GfaError};

fn node(name: &str, ori: char) -> (String, char) {
    (name.to_string(), ori)
}

fn record(fields: &[&str]) -> Vec<String> {
    fields.iter().map(|f| f.to_string()).collect()
}

fn joined(graph: &Gfa, from: (&str, char), to: (&str, char)) -> bool {
    match (graph.lookup(from.0, from.1), graph.lookup(to.0, to.1)) {
        (Some(a), Some(b)) => successors(graph, a).contains(&b),
        _ => false,
    }
}

#[test]
fn triangle_drops_the_long_edge() {
    let records = vec![
        record(&["L", "A", "+", "B", "+", "10M"]),
        record(&["L", "B", "+", "C", "+", "10M"]),
        record(&["L", "A", "+", "C", "+", "10M"]),
    ];
    let (graph, passed) = deserialize(&records).unwrap();
    assert!(passed.is_empty());
    assert_eq!(graph.node_count(), 6);
    assert_eq!(graph.edge_count(), 4);
    assert!(joined(&graph, ("A", '+'), ("B", '+')));
    assert!(joined(&graph, ("B", '+'), ("C", '+')));
    assert!(!joined(&graph, ("A", '+'), ("C", '+')));
    assert!(joined(&graph, ("B", '-'), ("A", '-')));
    assert!(joined(&graph, ("C", '-'), ("B", '-')));
    assert!(!joined(&graph, ("C", '-'), ("A", '-')));
}

#[test]
fn header_then_three_links() {
    let records = vec![
        record(&["H", "header"]),
        record(&["L", "1", "+", "2", "+", "10M"]),
        record(&["L", "2", "+", "3", "+", "10M"]),
        record(&["L", "1", "+", "3", "+", "10M"]),
    ];
    let out = reduce(&records).unwrap();
    assert_eq!(
        out,
        vec![
            record(&["H", "header"]),
            record(&["L", "1", "+", "2", "+", "10M"]),
            record(&["L", "2", "+", "3", "+", "10M"]),
        ]
    );
}

#[test]
fn both_directions_exist_after_one_link() {
    let records = vec![record(&["L", "u", "+", "v", "-", "7M"])];
    let (graph, _) = deserialize(&records).unwrap();
    assert_eq!(graph.node_count(), 4);
    assert_eq!(graph.edge_count(), 2);
    assert!(joined(&graph, ("u", '+'), ("v", '-')));
    assert!(joined(&graph, ("v", '+'), ("u", '-')));
}

#[test]
fn chain_without_shortcut_keeps_every_edge() {
    let records = vec![
        record(&["L", "a", "+", "b", "+", "1M"]),
        record(&["L", "b", "+", "c", "-", "2M"]),
        record(&["L", "c", "-", "d", "+", "3M"]),
    ];
    let (graph, _) = deserialize(&records).unwrap();
    assert_eq!(graph.edge_count(), 6);
    let out = serialize(graph);
    assert_eq!(
        out,
        vec![
            record(&["L", "a", "+", "b", "+", "1M"]),
            record(&["L", "b", "+", "c", "-", "2M"]),
            record(&["L", "c", "-", "d", "+", "3M"]),
        ]
    );
}

#[test]
fn shared_successor_prunes_the_source_link() {
    let mut graph = Gfa::new();
    let w = "4M".to_string();
    assert_eq!(add_edge(&mut graph, node("a", '+'), node("c", '+'), &w), Ok(()));
    assert_eq!(add_edge(&mut graph, node("b", '+'), node("c", '+'), &w), Ok(()));
    assert_eq!(add_edge(&mut graph, node("d", '+'), node("e", '+'), &w), Ok(()));
    assert_eq!(graph.edge_count(), 3);
    assert_eq!(add_edge(&mut graph, node("a", '+'), node("b", '+'), &"9M".to_string()), Ok(()));
    assert_eq!(graph.edge_count(), 3);
    assert!(!joined(&graph, ("a", '+'), ("c", '+')));
    assert!(joined(&graph, ("a", '+'), ("b", '+')));
    assert!(joined(&graph, ("b", '+'), ("c", '+')));
    // the last edge took the place of the removed one, the new edge is last
    assert_eq!(
        serialize(graph),
        vec![
            record(&["L", "d", "+", "e", "+", "4M"]),
            record(&["L", "b", "+", "c", "+", "4M"]),
            record(&["L", "a", "+", "b", "+", "9M"]),
        ]
    );
}

#[test]
fn shared_predecessor_prunes_the_link_to_the_target() {
    let mut graph = Gfa::new();
    let w = "4M".to_string();
    assert_eq!(add_edge(&mut graph, node("x", '+'), node("a", '+'), &w), Ok(()));
    assert_eq!(add_edge(&mut graph, node("x", '+'), node("b", '+'), &w), Ok(()));
    assert_eq!(add_edge(&mut graph, node("a", '+'), node("b", '+'), &w), Ok(()));
    assert_eq!(graph.edge_count(), 2);
    assert!(joined(&graph, ("x", '+'), ("a", '+')));
    assert!(!joined(&graph, ("x", '+'), ("b", '+')));
    assert!(joined(&graph, ("a", '+'), ("b", '+')));
}

#[test]
fn shared_successor_is_looked_at_before_shared_predecessor() {
    let mut graph = Gfa::new();
    let w = "4M".to_string();
    assert_eq!(add_edge(&mut graph, node("x", '+'), node("a", '+'), &w), Ok(()));
    assert_eq!(add_edge(&mut graph, node("x", '+'), node("b", '+'), &w), Ok(()));
    assert_eq!(add_edge(&mut graph, node("a", '+'), node("z", '+'), &w), Ok(()));
    assert_eq!(add_edge(&mut graph, node("b", '+'), node("z", '+'), &w), Ok(()));
    assert_eq!(graph.edge_count(), 4);
    assert_eq!(add_edge(&mut graph, node("a", '+'), node("b", '+'), &w), Ok(()));
    assert_eq!(graph.edge_count(), 4);
    assert!(!joined(&graph, ("a", '+'), ("z", '+')));
    assert!(joined(&graph, ("x", '+'), ("b", '+')));
    assert!(joined(&graph, ("a", '+'), ("b", '+')));
}

#[test]
fn two_hop_path_keeps_the_overlap_out() {
    let mut graph = Gfa::new();
    let w = "4M".to_string();
    assert_eq!(add_edge(&mut graph, node("a", '+'), node("m", '-'), &w), Ok(()));
    assert_eq!(add_edge(&mut graph, node("m", '-'), node("b", '+'), &w), Ok(()));
    assert_eq!(add_edge(&mut graph, node("a", '+'), node("b", '+'), &w), Ok(()));
    assert_eq!(graph.edge_count(), 2);
    assert!(!joined(&graph, ("a", '+'), ("b", '+')));
}

#[test]
fn repeated_link_record_gives_parallel_edges() {
    let records = vec![
        record(&["L", "a", "+", "b", "+", "1M"]),
        record(&["L", "a", "+", "b", "+", "1M"]),
    ];
    let (graph, _) = deserialize(&records).unwrap();
    assert_eq!(graph.node_count(), 4);
    assert_eq!(graph.edge_count(), 4);
    assert_eq!(
        serialize(graph),
        vec![
            record(&["L", "a", "+", "b", "+", "1M"]),
            record(&["L", "a", "+", "b", "+", "1M"]),
        ]
    );
}

#[test]
fn serialize_writes_one_record_per_pair() {
    let mut graph = Gfa::new();
    let w = "5M".to_string();
    assert_eq!(add_edge(&mut graph, node("x", '+'), node("y", '-'), &w), Ok(()));
    assert_eq!(add_edge(&mut graph, node("y", '+'), node("x", '-'), &w), Ok(()));
    assert_eq!(graph.edge_count(), 2);
    let out = serialize(graph);
    assert_eq!(out, vec![record(&["L", "x", "+", "y", "-", "5M"])]);
}

#[test]
fn serialize_writes_an_edge_without_reciprocal() {
    let mut graph = Gfa::new();
    assert_eq!(add_edge(&mut graph, node("x", '-'), node("y", '+'), &"*".to_string()), Ok(()));
    assert_eq!(serialize(graph), vec![record(&["L", "x", "-", "y", "+", "*"])]);
}

#[test]
fn link_that_is_its_own_reverse_is_written_once() {
    let records = vec![record(&["L", "a", "+", "a", "-", "3M"])];
    let (graph, _) = deserialize(&records).unwrap();
    assert_eq!(graph.node_count(), 2);
    assert_eq!(graph.edge_count(), 2);
    assert_eq!(serialize(graph), vec![record(&["L", "a", "+", "a", "-", "3M"])]);
}

#[test]
fn record_count_is_half_the_edge_count() {
    let records = vec![
        record(&["L", "1", "+", "2", "+", "1M"]),
        record(&["L", "2", "+", "3", "-", "1M"]),
        record(&["L", "3", "-", "4", "-", "1M"]),
        record(&["L", "4", "-", "5", "+", "1M"]),
        record(&["L", "9", "+", "9", "-", "1M"]),
    ];
    let (graph, _) = deserialize(&records).unwrap();
    // four pairs of two edges, and one link that is its own reverse, twice
    assert_eq!(graph.edge_count(), 10);
    assert_eq!(serialize(graph).len(), 5);
}

#[test]
fn records_that_are_no_links_come_first_in_their_order() {
    let records = vec![
        record(&["H", "VN:Z:1.0"]),
        record(&["L", "1", "+", "2", "+", "10M"]),
        record(&["S", "1", "ACGT"]),
        record(&["L", "2", "+", "3", "+", "10M"]),
        record(&["S", "2", "GG", "extra", "fields"]),
        record(&["l", "lower", "case", "tag"]),
    ];
    let out = reduce(&records).unwrap();
    assert_eq!(
        out,
        vec![
            record(&["H", "VN:Z:1.0"]),
            record(&["S", "1", "ACGT"]),
            record(&["S", "2", "GG", "extra", "fields"]),
            record(&["l", "lower", "case", "tag"]),
            record(&["L", "1", "+", "2", "+", "10M"]),
            record(&["L", "2", "+", "3", "+", "10M"]),
        ]
    );
}

#[test]
fn nothing_in_nothing_out() {
    let records: Vec<Vec<String>> = Vec::new();
    assert_eq!(reduce(&records), Ok(Vec::new()));
    let (graph, passed) = deserialize(&records).unwrap();
    assert_eq!(graph.node_count(), 0);
    assert_eq!(graph.edge_count(), 0);
    assert!(passed.is_empty());
}

#[test]
fn short_link_record_is_rejected() {
    let records = vec![record(&["S", "1", "ACGT"]), record(&["L", "1", "+", "2", "+"])];
    assert_eq!(
        deserialize(&records).err(),
        Some(GfaError::TruncatedLink { record: 1, fields: 5 })
    );
    assert_eq!(reduce(&records), Err(GfaError::TruncatedLink { record: 1, fields: 5 }));
}

#[test]
fn first_failing_record_decides_the_error() {
    let records = vec![
        record(&["L", "1", "+", "2", "+", "1M"]),
        record(&["L", "1", "?", "2", "+", "1M"]),
        record(&["L"]),
    ];
    assert_eq!(reduce(&records), Err(GfaError::BadOrientation { record: 1, field: 2 }));
}

#[test]
fn no_pair_of_nodes_is_joined_twice() {
    let records = vec![
        record(&["L", "1", "+", "2", "+", "1M"]),
        record(&["L", "2", "+", "3", "+", "1M"]),
        record(&["L", "1", "+", "3", "+", "1M"]),
        record(&["L", "3", "+", "4", "-", "1M"]),
        record(&["L", "2", "+", "4", "-", "1M"]),
        record(&["L", "4", "-", "1", "+", "1M"]),
    ];
    let (graph, _) = deserialize(&records).unwrap();
    let mut pairs: Vec<(usize, usize)> = Vec::new();
    for edge in 0..graph.edge_count() {
        let pair = graph.endpoints(edge).unwrap();
        assert!(!pairs.contains(&pair));
        pairs.push(pair);
    }
    assert_eq!(pairs.len(), graph.edge_count());
}
