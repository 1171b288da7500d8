//! The graph serializer: writes the surviving edges back as link records, one
//! record per reciprocal pair.
//!
//! The edges are visited once, in the order of their indices. An edge is
//! written unless an edge written before it was its reverse complement.

use crate::gfa::Gfa;
use crate::graph::{Link, NodeId};
use crate::orientation::{is_ori, rev_ori};
use crate::reader::{reversed, Fields};
use std::collections::HashSet;
use vstd::prelude::*;
use vstd::string::StringExecFns;

verus! {

broadcast use vstd::std_specs::hash::group_hash_axioms;

/// What tells one reciprocal direction from the other: source and target of
/// an edge as oriented segments.
pub type Key = (NodeId, NodeId);

/// The key of the edge `l`.
pub open spec fn link_key(nodes: Seq<NodeId>, l: Link) -> Key {
    (nodes[l.0 as int], nodes[l.1 as int])
}

/// The key of the reverse complement of the edge `l`: from the reverse of its
/// target to the reverse of its source.
pub open spec fn reverse_key(nodes: Seq<NodeId>, l: Link) -> Key {
    (reversed(nodes[l.1 as int]), reversed(nodes[l.0 as int]))
}

/// The keys that are marked as seen once the edges of the list were visited:
/// the reverse-complement key of every edge that was written.
pub open spec fn seen_after(nodes: Seq<NodeId>, edges: Seq<Link>) -> Set<Key>
    decreases edges.len(),
{
    if edges.len() == 0 {
        Set::empty()
    } else {
        let before = seen_after(nodes, edges.drop_last());
        if before.contains(link_key(nodes, edges.last())) {
            before
        } else {
            before.insert(reverse_key(nodes, edges.last()))
        }
    }
}

/// Whether the edge with index `i` is written: its key was not marked by the
/// edges before it.
pub open spec fn emits(nodes: Seq<NodeId>, edges: Seq<Link>, i: int) -> bool {
    !seen_after(nodes, edges.take(i)).contains(link_key(nodes, edges[i]))
}

/// The link record of the edge `l`.
pub open spec fn link_record(nodes: Seq<NodeId>, l: Link) -> Fields {
    seq![
        seq!['L'],
        nodes[l.0 as int].0,
        seq![nodes[l.0 as int].1],
        nodes[l.1 as int].0,
        seq![nodes[l.1 as int].1],
        l.2,
    ]
}

/// The records that the edges of the list give, in the order of the edges.
pub open spec fn emitted(nodes: Seq<NodeId>, edges: Seq<Link>) -> Seq<Fields>
    decreases edges.len(),
{
    if edges.len() == 0 {
        Seq::empty()
    } else {
        let before = emitted(nodes, edges.drop_last());
        if seen_after(nodes, edges.drop_last()).contains(link_key(nodes, edges.last())) {
            before
        } else {
            before.push(link_record(nodes, edges.last()))
        }
    }
}

/// One number for a pair of node handles.
pub open spec fn packed(source: usize, target: usize) -> u64 {
    (source * 0x1_0000_0000 + target) as u64
}

/// Packs two node handles into one number; different pairs give different
/// numbers.
fn pack(source: usize, target: usize) -> (r: u64)
    requires
        source <= u32::MAX,
        target <= u32::MAX,
    ensures
        r == packed(source, target),
        r == source * 0x1_0000_0000 + target,
{
    let high: u64 = source as u64;
    let low: u64 = target as u64;
    high * 0x1_0000_0000 + low
}

/// The orientation symbol as a field of its own.
fn orientation_field(ori: char) -> (r: String)
    requires
        is_ori(ori),
    ensures
        r@ == seq![ori],
{
    proof {
        reveal_strlit("+");
        reveal_strlit("-");
        assert("+"@ =~= seq!['+']);
        assert("-"@ =~= seq!['-']);
    }
    if ori == '+' {
        String::from_str("+")
    } else {
        String::from_str("-")
    }
}

/// The fields of the link record from `source` to `target` with the overlap
/// token `overlap`.
pub fn link_fields(source: &(String, char), target: &(String, char), overlap: &String) -> (r: Vec<
    String,
>)
    requires
        is_ori(source.1),
        is_ori(target.1),
    ensures
        r.deep_view() == seq![
            seq!['L'],
            source.0@,
            seq![source.1],
            target.0@,
            seq![target.1],
            overlap@,
        ],
{
    proof {
        reveal_strlit("L");
        assert("L"@ =~= seq!['L']);
    }
    let mut fields: Vec<String> = Vec::new();
    fields.push(String::from_str("L"));
    fields.push(source.0.clone());
    fields.push(orientation_field(source.1));
    fields.push(target.0.clone());
    fields.push(orientation_field(target.1));
    fields.push(overlap.clone());
    proof {
        assert(fields.deep_view() =~= seq![
            seq!['L'],
            source.0@,
            seq![source.1],
            target.0@,
            seq![target.1],
            overlap@,
        ]);
    }
    fields
}

/// Walks the edges of the finished graph once, in the order of their indices,
/// and gives one link record for each edge whose key no earlier record has
/// marked; each record marks the key of its reverse complement.
pub fn serialize(graph: Gfa) -> (records: Vec<Vec<String>>)
    requires
        graph.wf(),
    ensures
        records.deep_view() == emitted(graph.nodes(), graph.edges()),
{
    let mut records: Vec<Vec<String>> = Vec::new();
    let mut rev_write: HashSet<u64> = HashSet::new();
    let count = graph.edge_count();
    let ghost nodes = graph.nodes();
    let ghost edges = graph.edges();
    proof {
        assert(edges.take(0) =~= Seq::<Link>::empty());
        assert(records.deep_view() =~= emitted(nodes, edges.take(0)));
    }
    for edge in 0..count
        invariant
            graph.wf(),
            nodes == graph.nodes(),
            edges == graph.edges(),
            count == edges.len(),
            records.deep_view() == emitted(nodes, edges.take(edge as int)),
            forall|s: usize, t: usize|
                s < nodes.len() && t < nodes.len() ==> (rev_write@.contains(#[trigger] packed(s, t))
                    <==> seen_after(nodes, edges.take(edge as int)).contains(
                    (nodes[s as int], nodes[t as int]),
                )),
    {
        let ghost written = records.deep_view();
        let ghost seen = seen_after(nodes, edges.take(edge as int));
        proof {
            assert(edges.take(edge + 1).drop_last() == edges.take(edge as int));
            assert(edges.take(edge + 1).last() == edges[edge as int]);
        }
        if let Some((source, target)) = graph.endpoints(edge) {
            if let Some(overlap) = graph.overlap(edge) {
                if let Some(src) = graph.segment(source) {
                    if let Some(tgt) = graph.segment(target) {
                        let key = pack(source, target);
                        if !rev_write.contains(&key) {
                            records.push(link_fields(src, tgt, overlap));
                            let back = graph.lookup(tgt.0.as_str(), rev_ori(tgt.1));
                            let forth = graph.lookup(src.0.as_str(), rev_ori(src.1));
                            if back.is_some() && forth.is_some() {
                                let marked = pack(back.unwrap(), forth.unwrap());
                                rev_write.insert(marked);
                            }
                            proof {
                                let l = edges[edge as int];
                                assert(records.deep_view() =~= written.push(link_record(nodes, l)));
                                let rc = reverse_key(nodes, l);
                                assert forall|s: usize, t: usize|
                                    s < nodes.len() && t < nodes.len() implies (rev_write@.contains(
                                    #[trigger] packed(s, t),
                                ) <==> seen.insert(rc).contains(
                                    (nodes[s as int], nodes[t as int]),
                                )) by {
                                    if back.is_some() && forth.is_some() {
                                        let a = back.unwrap();
                                        let b = forth.unwrap();
                                        if (nodes[s as int], nodes[t as int]) == rc {
                                            assert(nodes[s as int] == nodes[a as int]);
                                            assert(nodes[t as int] == nodes[b as int]);
                                        }
                                    } else {
                                        if (nodes[s as int], nodes[t as int]) == rc {
                                            assert(nodes.contains(nodes[s as int]));
                                            assert(nodes.contains(nodes[t as int]));
                                        }
                                    }
                                }
                            }
                        }
                    }
                }
            }
        }
    }
    proof {
        assert(edges.take(count as int) == edges);
    }
    records
}

} // verus!
