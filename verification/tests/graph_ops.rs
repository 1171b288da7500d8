use trgfa::algo::common;
use trgfa::builder::decide;
use trgfa::{add_edge, get_node, predecessors, successors, Gfa, NodeSet, Verdict};

fn node(name: &str, ori: char) -> (String, char) {
    (name.to_string(), ori)
}

fn set(items: &[usize]) -> NodeSet {
    items.iter().copied().collect()
}

#[test]
fn new_graph_is_empty() {
    let graph = Gfa::new();
    assert_eq!(graph.node_count(), 0);
    assert_eq!(graph.edge_count(), 0);
    assert_eq!(graph.lookup("a", '+'), None);
    assert_eq!(graph.segment(0), None);
    assert_eq!(graph.endpoints(0), None);
    assert_eq!(graph.overlap(0), None);
}

#[test]
fn get_node_creates_on_first_reference() {
    let mut graph = Gfa::new();
    assert_eq!(get_node(&mut graph, node("a", '+')), Ok(0));
    assert_eq!(get_node(&mut graph, node("a", '-')), Ok(1));
    assert_eq!(get_node(&mut graph, node("b", '+')), Ok(2));
    assert_eq!(graph.node_count(), 3);
    assert_eq!(graph.edge_count(), 0);
}

#[test]
fn get_node_gives_the_same_handle_again() {
    let mut graph = Gfa::new();
    assert_eq!(get_node(&mut graph, node("a", '+')), Ok(0));
    assert_eq!(get_node(&mut graph, node("b", '-')), Ok(1));
    assert_eq!(get_node(&mut graph, node("a", '+')), Ok(0));
    assert_eq!(get_node(&mut graph, node("b", '-')), Ok(1));
    assert_eq!(graph.node_count(), 2);
    assert_eq!(graph.lookup("a", '+'), Some(0));
    assert_eq!(graph.lookup("b", '-'), Some(1));
    assert_eq!(graph.lookup("b", '+'), None);
    assert_eq!(graph.lookup("a", '*'), None);
}

#[test]
fn segment_gives_name_and_orientation() {
    let mut graph = Gfa::new();
    assert_eq!(get_node(&mut graph, node("contig_1", '-')), Ok(0));
    assert_eq!(graph.segment(0), Some(&("contig_1".to_string(), '-')));
    assert_eq!(graph.segment(1), None);
    assert_eq!(graph.segment(usize::MAX), None);
}

#[test]
fn add_edge_registers_source_before_target() {
    let mut graph = Gfa::new();
    assert_eq!(add_edge(&mut graph, node("s", '+'), node("t", '-'), &"2M".to_string()), Ok(()));
    assert_eq!(graph.lookup("s", '+'), Some(0));
    assert_eq!(graph.lookup("t", '-'), Some(1));
    assert_eq!(graph.endpoints(0), Some((0, 1)));
    assert_eq!(graph.overlap(0), Some(&"2M".to_string()));
    assert_eq!(graph.endpoints(1), None);
    assert_eq!(graph.overlap(1), None);
    assert_eq!(graph.endpoints(usize::MAX), None);
}

#[test]
fn add_edge_from_a_node_to_itself() {
    let mut graph = Gfa::new();
    assert_eq!(add_edge(&mut graph, node("s", '+'), node("s", '+'), &"2M".to_string()), Ok(()));
    assert_eq!(graph.node_count(), 1);
    assert_eq!(graph.endpoints(0), Some((0, 0)));
    assert_eq!(successors(&graph, 0), set(&[0]));
    assert_eq!(predecessors(&graph, 0), set(&[0]));
}

#[test]
fn successors_and_predecessors_follow_the_edges() {
    let mut graph = Gfa::new();
    let w = "1M".to_string();
    assert_eq!(add_edge(&mut graph, node("a", '+'), node("b", '+'), &w), Ok(()));
    assert_eq!(add_edge(&mut graph, node("a", '+'), node("c", '+'), &w), Ok(()));
    assert_eq!(add_edge(&mut graph, node("d", '+'), node("c", '+'), &w), Ok(()));
    assert_eq!(successors(&graph, 0), set(&[1, 2]));
    assert_eq!(successors(&graph, 1), set(&[]));
    assert_eq!(successors(&graph, 3), set(&[2]));
    assert_eq!(predecessors(&graph, 0), set(&[]));
    assert_eq!(predecessors(&graph, 1), set(&[0]));
    assert_eq!(predecessors(&graph, 2), set(&[0, 3]));
}

#[test]
fn a_handle_that_is_no_node_has_no_neighbours() {
    let mut graph = Gfa::new();
    assert_eq!(add_edge(&mut graph, node("a", '+'), node("b", '+'), &"1M".to_string()), Ok(()));
    assert_eq!(successors(&graph, 2), set(&[]));
    assert_eq!(predecessors(&graph, 2), set(&[]));
    assert_eq!(successors(&graph, usize::MAX), set(&[]));
    assert_eq!(predecessors(&graph, usize::MAX), set(&[]));
}

#[test]
fn common_keeps_the_order_of_the_list() {
    assert_eq!(common(&vec![5, 1, 9, 3, 1], &set(&[1, 3, 4])), vec![1, 3, 1]);
    assert_eq!(common(&vec![5, 1], &set(&[])), Vec::<usize>::new());
    assert_eq!(common(&Vec::new(), &set(&[1])), Vec::<usize>::new());
}

#[test]
fn decide_names_the_step_that_applies() {
    let mut graph = Gfa::new();
    let w = "1M".to_string();
    // a is node 0, c is node 1, b is node 2: both a and b lead to c
    assert_eq!(add_edge(&mut graph, node("a", '+'), node("c", '+'), &w), Ok(()));
    assert_eq!(add_edge(&mut graph, node("b", '+'), node("c", '+'), &w), Ok(()));
    assert_eq!(decide(&graph, 0, 2), (Verdict::PruneSuccessors, vec![1]));
    assert_eq!(decide(&graph, 2, 0), (Verdict::PruneSuccessors, vec![1]));
    // seen from c, the two share nothing with it
    assert_eq!(decide(&graph, 1, 0), (Verdict::Insert, Vec::new()));
}

#[test]
fn decide_finds_shared_predecessors_and_bridges() {
    let mut graph = Gfa::new();
    let w = "1M".to_string();
    assert_eq!(add_edge(&mut graph, node("x", '+'), node("a", '+'), &w), Ok(()));
    assert_eq!(add_edge(&mut graph, node("x", '+'), node("b", '+'), &w), Ok(()));
    assert_eq!(decide(&graph, 1, 2), (Verdict::PrunePredecessors, vec![0]));
    let mut path = Gfa::new();
    assert_eq!(add_edge(&mut path, node("a", '+'), node("m", '+'), &w), Ok(()));
    assert_eq!(add_edge(&mut path, node("m", '+'), node("b", '+'), &w), Ok(()));
    assert_eq!(decide(&path, 0, 2), (Verdict::Skip, Vec::new()));
    assert_eq!(decide(&path, 2, 0), (Verdict::Insert, Vec::new()));
}

#[test]
fn all_parallel_links_to_a_shared_successor_go() {
    let mut graph = Gfa::new();
    let w = "1M".to_string();
    assert_eq!(add_edge(&mut graph, node("a", '+'), node("c", '+'), &w), Ok(()));
    assert_eq!(add_edge(&mut graph, node("a", '+'), node("c", '+'), &w), Ok(()));
    assert_eq!(graph.edge_count(), 2);
    assert_eq!(add_edge(&mut graph, node("b", '+'), node("c", '+'), &w), Ok(()));
    assert_eq!(add_edge(&mut graph, node("a", '+'), node("b", '+'), &w), Ok(()));
    assert_eq!(graph.edge_count(), 2);
    assert_eq!(successors(&graph, 0), set(&[2]));
    assert_eq!(successors(&graph, 2), set(&[1]));
}
