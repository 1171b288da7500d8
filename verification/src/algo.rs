//! Neighbour queries on the overlap graph.
//!
//! Both queries walk the live edges of the graph on every call; nothing is
//! cached between insertions.

use crate::gfa::Gfa;
use crate::model::linked;
use std::collections::HashSet;
use vstd::prelude::*;

verus! {

broadcast use vstd::std_specs::hash::group_hash_axioms;

/// A set of node handles.
pub type NodeSet = HashSet<usize>;

/// The nodes that `node` has a link to.
pub open spec fn successor_set(links: vstd::multiset::Multiset<crate::graph::Link>, node: usize) -> Set<
    usize,
> {
    Set::new(|z: usize| linked(links, node, z))
}

/// The nodes that have a link to `node`.
pub open spec fn predecessor_set(
    links: vstd::multiset::Multiset<crate::graph::Link>,
    node: usize,
) -> Set<usize> {
    Set::new(|x: usize| linked(links, x, node))
}

/// The handles of `list` as a set.
fn collect(list: &Vec<usize>) -> (r: NodeSet)
    ensures
        forall|z: usize| r@.contains(z) <==> list@.contains(z),
{
    let mut set: NodeSet = HashSet::new();
    for i in 0..list.len()
        invariant
            forall|z: usize| set@.contains(z) <==> list@.take(i as int).contains(z),
    {
        set.insert(list[i]);
        proof {
            assert(list@.take(i + 1) == list@.take(i as int).push(list@[i as int]));
            assert forall|z: usize| set@.contains(z) <==> list@.take(i + 1).contains(z) by {
                if list@.take(i as int).contains(z) {
                    let k = list@.take(i as int).index_of(z);
                    assert(list@.take(i + 1)[k] == z);
                }
                if z == list@[i as int] {
                    assert(list@.take(i + 1)[i as int] == z);
                }
            }
        }
    }
    proof {
        assert(list@.take(list.len() as int) == list@);
    }
    set
}

/// The nodes reachable from `node` by exactly one outgoing edge. A handle that
/// is not a node of the graph has no successors.
pub fn successors(graph: &Gfa, node: usize) -> (r: NodeSet)
    requires
        graph.wf(),
    ensures
        r@ == successor_set(graph.links(), node),
{
    let set = collect(&graph.targets(node));
    proof {
        assert(set@ =~= successor_set(graph.links(), node));
    }
    set
}

/// The nodes from which `node` is reachable by exactly one edge. A handle that
/// is not a node of the graph has no predecessors.
pub fn predecessors(graph: &Gfa, node: usize) -> (r: NodeSet)
    requires
        graph.wf(),
    ensures
        r@ == predecessor_set(graph.links(), node),
{
    let set = collect(&graph.sources(node));
    proof {
        assert(set@ =~= predecessor_set(graph.links(), node));
    }
    set
}

/// The test whether a handle is in `set`.
pub open spec fn member_of(set: Set<usize>) -> spec_fn(usize) -> bool {
    |z: usize| set.contains(z)
}

/// The handles of `list` that are in `set`, in the order of `list`.
pub fn common(list: &Vec<usize>, set: &NodeSet) -> (r: Vec<usize>)
    ensures
        r@ == list@.filter(member_of(set@)),
        forall|z: usize| r@.contains(z) <==> list@.contains(z) && set@.contains(z),
{
    let mut out: Vec<usize> = Vec::new();
    for i in 0..list.len()
        invariant
            out@ == list@.take(i as int).filter(member_of(set@)),
    {
        proof {
            reveal(Seq::filter);
            assert(list@.take(i + 1).drop_last() == list@.take(i as int));
        }
        if set.contains(&list[i]) {
            out.push(list[i]);
        }
    }
    proof {
        assert(list@.take(list.len() as int) == list@);
        let keep = member_of(set@);
        assert forall|z: usize| out@.contains(z) <==> list@.contains(z) && set@.contains(z) by {
            if out@.contains(z) {
                let k = out@.index_of(z);
                list@.lemma_filter_pred(keep, k);
                list@.lemma_filter_contains_rev(keep, z);
            }
            if list@.contains(z) && set@.contains(z) {
                let i = list@.index_of(z);
                list@.lemma_filter_contains(keep, i);
            }
        }
    }
    out
}

} // verus!
