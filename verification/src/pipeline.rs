//! The whole run on records held in memory: read, build, write.

use crate::gfa::GfaError;
use crate::graph::{Link, NodeId};
use crate::model::Overlaps;
use crate::reader::{deserialize, is_link, no_link, passed_through, replay, Fields};
use crate::writer::{emitted, link_record, serialize};
use vstd::prelude::*;

verus! {

/// Whether `out` is what a run over a graph with these nodes and links gives:
/// first the records that passed through, then the link records of the
/// graph's edges in some order of the links.
pub open spec fn is_reduction(passed: Seq<Fields>, g: Overlaps, out: Seq<Fields>) -> bool {
    exists|edges: Seq<Link>|
        edges.to_multiset() == g.links && out == passed + #[trigger] emitted(g.nodes, edges)
}

/// Reduces a stream of records: every record that is no link record comes
/// first, in the place it had among them and unchanged; the link records of
/// the reduced graph follow, one per reciprocal pair.
///
/// Fails with the error of the first record that cannot be handled.
pub fn reduce(records: &Vec<Vec<String>>) -> (r: Result<Vec<Vec<String>>, GfaError>)
    ensures
        match r {
            Ok(out) => replay(records.deep_view()) matches Ok(g) && is_reduction(
                passed_through(records.deep_view()),
                g,
                out.deep_view(),
            ),
            Err(e) => replay(records.deep_view()) == Err::<Overlaps, _>(e),
        },
{
    match deserialize(records) {
        Err(e) => Err(e),
        Ok((graph, passed)) => {
            let ghost nodes = graph.nodes();
            let ghost edges = graph.edges();
            let ghost first = passed.deep_view();
            let mut out = passed;
            let mut links = serialize(graph);
            let ghost second = links.deep_view();
            out.append(&mut links);
            proof {
                assert(out.deep_view() =~= first + second);
                assert(second == emitted(nodes, edges));
            }
            Ok(out)
        },
    }
}

/// Every record that the serializer gives is a link record.
pub proof fn lemma_emitted_are_links(nodes: Seq<NodeId>, edges: Seq<Link>)
    ensures
        forall|i: int|
            0 <= i < emitted(nodes, edges).len() ==> is_link(#[trigger] emitted(nodes, edges)[i]),
    decreases edges.len(),
{
    if edges.len() > 0 {
        let earlier = emitted(nodes, edges.drop_last());
        lemma_emitted_are_links(nodes, edges.drop_last());
        assert(is_link(link_record(nodes, edges.last())));
        assert forall|i: int| 0 <= i < emitted(nodes, edges).len() implies is_link(
            #[trigger] emitted(nodes, edges)[i],
        ) by {
            if i < earlier.len() {
                assert(emitted(nodes, edges)[i] == earlier[i]);
            }
        }
    }
}

/// A filter keeps a sequence whose elements all pass, and empties one whose
/// elements all fail.
proof fn lemma_filter_all_or_none(s: Seq<Fields>, keep: spec_fn(Fields) -> bool)
    ensures
        (forall|i: int| 0 <= i < s.len() ==> keep(#[trigger] s[i])) ==> s.filter(keep) == s,
        (forall|i: int| 0 <= i < s.len() ==> !keep(#[trigger] s[i])) ==> s.filter(keep).len()
            == 0,
    decreases s.len(),
{
    reveal(Seq::filter);
    if s.len() > 0 {
        lemma_filter_all_or_none(s.drop_last(), keep);
        if forall|i: int| 0 <= i < s.len() ==> keep(#[trigger] s[i]) {
            assert forall|i: int| 0 <= i < s.drop_last().len() implies keep(
                #[trigger] s.drop_last()[i],
            ) by {
                assert(s.drop_last()[i] == s[i]);
            }
            assert(s.drop_last().push(s.last()) == s);
        }
        if forall|i: int| 0 <= i < s.len() ==> !keep(#[trigger] s[i]) {
            assert forall|i: int| 0 <= i < s.drop_last().len() implies !keep(
                #[trigger] s.drop_last()[i],
            ) by {
                assert(s.drop_last()[i] == s[i]);
            }
        }
    }
}

/// Pass-through fidelity: in the output of a run the records that are no link
/// records come first; they are the input's records that are no link records,
/// unchanged and in the order in which they came; all records after them are link
/// records.
pub proof fn lemma_pass_through_fidelity(records: Seq<Fields>, g: Overlaps, out: Seq<Fields>)
    requires
        is_reduction(passed_through(records), g, out),
    ensures
        out.filter(no_link()) == passed_through(records),
        passed_through(records).len() <= out.len(),
        out.take(passed_through(records).len() as int) == passed_through(records),
        forall|i: int| 0 <= i < passed_through(records).len() ==> !is_link(#[trigger] out[i]),
        forall|i: int| passed_through(records).len() <= i < out.len() ==> is_link(#[trigger] out[i]),
{
    let passed = passed_through(records);
    let edges = choose|edges: Seq<Link>|
        edges.to_multiset() == g.links && out == passed + #[trigger] emitted(g.nodes, edges);
    let links = emitted(g.nodes, edges);
    lemma_emitted_are_links(g.nodes, edges);
    assert forall|i: int| 0 <= i < passed.len() implies no_link()(#[trigger] passed[i]) by {
        records.lemma_filter_pred(no_link(), i);
    }
    assert forall|i: int| 0 <= i < links.len() implies !no_link()(#[trigger] links[i]) by {}
    lemma_filter_all_or_none(passed, no_link());
    lemma_filter_all_or_none(links, no_link());
    Seq::filter_distributes_over_add(passed, links, no_link());
    assert(passed + links.filter(no_link()) =~= passed);
    assert(out.take(passed.len() as int) =~= passed);
    assert forall|i: int| passed.len() <= i < out.len() implies is_link(#[trigger] out[i]) by {
        assert(out[i] == links[i - passed.len()]);
    }
}

} // verus!
