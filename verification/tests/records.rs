use trgfa::reader::{add_link, clone_record, is_link_record, parse_link, LinkRecord};
use trgfa::writer::link_fields;
use trgfa::{read_record, rev_ori, Gfa, GfaError};

fn fields(parts: &[&str]) -> Vec<String> {
    parts.iter().map(|f| f.to_string()).collect()
}

#[test]
fn rev_ori_swaps_the_two_symbols() {
    assert_eq!(rev_ori('+'), '-');
    assert_eq!(rev_ori('-'), '+');
}

#[test]
fn rev_ori_twice_is_the_identity() {
    assert_eq!(rev_ori(rev_ori('+')), '+');
    assert_eq!(rev_ori(rev_ori('-')), '-');
}

#[test]
fn is_orientation_knows_two_symbols() {
    assert!(trgfa::orientation::is_orientation('+'));
    assert!(trgfa::orientation::is_orientation('-'));
    assert!(!trgfa::orientation::is_orientation('*'));
    assert!(!trgfa::orientation::is_orientation(' '));
}

#[test]
fn link_tag_is_the_whole_first_field() {
    assert!(is_link_record(&fields(&["L", "1", "+", "2", "+", "0M"])));
    assert!(is_link_record(&fields(&["L"])));
    assert!(!is_link_record(&fields(&["S", "L"])));
    assert!(!is_link_record(&fields(&["LL", "1"])));
    assert!(!is_link_record(&fields(&["l", "1"])));
    assert!(!is_link_record(&fields(&[""])));
    assert!(!is_link_record(&fields(&[])));
}

#[test]
fn parse_link_reads_the_five_values() {
    let link = parse_link(&fields(&["L", "s1", "+", "s2", "-", "12M"]), 3).ok().unwrap();
    assert_eq!(link.segment1, "s1");
    assert_eq!(link.orientation1, '+');
    assert_eq!(link.segment2, "s2");
    assert_eq!(link.orientation2, '-');
    assert_eq!(link.overlap, "12M");
}

#[test]
fn parse_link_takes_the_first_character_of_an_orientation() {
    let link = parse_link(&fields(&["L", "s1", "-x", "s2", "+?", "*", "tag"]), 0).ok().unwrap();
    assert_eq!(link.orientation1, '-');
    assert_eq!(link.orientation2, '+');
    assert_eq!(link.overlap, "*");
}

#[test]
fn parse_link_accepts_empty_names_and_tokens() {
    let link = parse_link(&fields(&["L", "", "+", "", "+", ""]), 0).ok().unwrap();
    assert_eq!(link.segment1, "");
    assert_eq!(link.segment2, "");
    assert_eq!(link.overlap, "");
}

#[test]
fn parse_link_counts_the_fields() {
    assert_eq!(
        parse_link(&fields(&["L"]), 7).err(),
        Some(GfaError::TruncatedLink { record: 7, fields: 1 })
    );
    assert_eq!(
        parse_link(&fields(&["L", "a", "+", "b", "+"]), 0).err(),
        Some(GfaError::TruncatedLink { record: 0, fields: 5 })
    );
}

#[test]
fn parse_link_rejects_other_orientations() {
    assert_eq!(
        parse_link(&fields(&["L", "a", "x", "b", "+", "1M"]), 2).err(),
        Some(GfaError::BadOrientation { record: 2, field: 2 })
    );
    assert_eq!(
        parse_link(&fields(&["L", "a", "+", "b", "", "1M"]), 2).err(),
        Some(GfaError::BadOrientation { record: 2, field: 4 })
    );
    assert_eq!(
        parse_link(&fields(&["L", "a", "", "b", "?", "1M"]), 5).err(),
        Some(GfaError::BadOrientation { record: 5, field: 2 })
    );
    assert_eq!(
        parse_link(&fields(&["L", "a", " +", "b", "+", "1M"]), 5).err(),
        Some(GfaError::BadOrientation { record: 5, field: 2 })
    );
}

#[test]
fn read_record_hands_other_records_back() {
    let mut graph = Gfa::new();
    let segment = fields(&["S", "1", "ACGT"]);
    assert_eq!(read_record(&mut graph, segment.clone(), 0), Ok(Some(segment)));
    let empty: Vec<String> = Vec::new();
    assert_eq!(read_record(&mut graph, empty.clone(), 1), Ok(Some(empty)));
    assert_eq!(graph.node_count(), 0);
    assert_eq!(graph.edge_count(), 0);
}

#[test]
fn read_record_folds_a_link_into_the_graph() {
    let mut graph = Gfa::new();
    assert_eq!(read_record(&mut graph, fields(&["L", "1", "+", "2", "-", "3M"]), 0), Ok(None));
    assert_eq!(graph.node_count(), 4);
    assert_eq!(graph.edge_count(), 2);
    assert_eq!(graph.lookup("1", '+'), Some(0));
    assert_eq!(graph.lookup("2", '-'), Some(1));
    assert_eq!(graph.lookup("2", '+'), Some(2));
    assert_eq!(graph.lookup("1", '-'), Some(3));
    assert_eq!(graph.endpoints(0), Some((0, 1)));
    assert_eq!(graph.endpoints(1), Some((2, 3)));
    assert_eq!(graph.overlap(0), Some(&"3M".to_string()));
    assert_eq!(graph.overlap(1), Some(&"3M".to_string()));
}

#[test]
fn read_record_leaves_the_graph_on_a_parse_error() {
    let mut graph = Gfa::new();
    assert_eq!(read_record(&mut graph, fields(&["L", "1", "+", "2", "-", "3M"]), 0), Ok(None));
    assert_eq!(
        read_record(&mut graph, fields(&["L", "5", "+", "6", "/", "3M"]), 1),
        Err(GfaError::BadOrientation { record: 1, field: 4 })
    );
    assert_eq!(graph.node_count(), 4);
    assert_eq!(graph.edge_count(), 2);
}

#[test]
fn add_link_inserts_the_overlap_and_its_reverse() {
    let mut graph = Gfa::new();
    let link = LinkRecord {
        segment1: "p".to_string(),
        orientation1: '-',
        segment2: "q".to_string(),
        orientation2: '-',
        overlap: "8M".to_string(),
    };
    assert_eq!(add_link(&mut graph, link), Ok(()));
    assert_eq!(graph.segment(0), Some(&("p".to_string(), '-')));
    assert_eq!(graph.segment(1), Some(&("q".to_string(), '-')));
    assert_eq!(graph.segment(2), Some(&("q".to_string(), '+')));
    assert_eq!(graph.segment(3), Some(&("p".to_string(), '+')));
    assert_eq!(graph.endpoints(0), Some((0, 1)));
    assert_eq!(graph.endpoints(1), Some((2, 3)));
}

#[test]
fn clone_record_copies_every_field() {
    let record = fields(&["S", "", "ACGT", "x\ty"]);
    assert_eq!(clone_record(&record), record);
    let empty: Vec<String> = Vec::new();
    assert_eq!(clone_record(&empty), empty);
}

#[test]
fn link_fields_are_the_six_fields() {
    let out = link_fields(&("s".to_string(), '+'), &("t".to_string(), '-'), &"11M".to_string());
    assert_eq!(out, fields(&["L", "s", "+", "t", "-", "11M"]));
}
