//! The graph builder: folds one overlap at a time into the graph and prunes
//! the edges that the new overlap makes redundant.

use crate::algo::{common, predecessors, successors};
use crate::gfa::{get_node, Gfa, GfaError, CAPACITY};
use crate::graph::Link;
use crate::lemmas::{lemma_handle, lemma_insert_plain, lemma_new_node_insert, lemma_register};
use crate::model::{
    bridge, common_predecessor, common_successor, pruned, register, verdict, Verdict,
};
use crate::orientation::is_ori;
use vstd::prelude::*;
use vstd::seq_lib::group_to_multiset_ensures;

verus! {

broadcast use vstd::std_specs::hash::group_hash_axioms;

/// Applies the rule to the graph as it stands: the decision for an overlap
/// from `node1` to `node2` and, where the decision is to prune, the shared
/// successors or predecessors whose links go.
pub fn decide(gfa: &Gfa, node1: usize, node2: usize) -> (r: (Verdict, Vec<usize>))
    requires
        gfa.wf(),
    ensures
        r.0 == verdict(gfa.links(), node1, node2),
        r.0 == Verdict::PruneSuccessors ==> forall|z: usize|
            r.1@.contains(z) <==> common_successor(gfa.links(), node1, node2, z),
        r.0 == Verdict::PrunePredecessors ==> forall|x: usize|
            r.1@.contains(x) <==> common_predecessor(gfa.links(), node1, node2, x),
        r.0 == Verdict::Skip || r.0 == Verdict::Insert ==> r.1@.len() == 0,
{
    let node1_succ = gfa.targets(node1);
    let node2_succ = successors(gfa, node2);
    let shared_succ = common(&node1_succ, &node2_succ);
    if shared_succ.len() != 0 {
        proof {
            assert(shared_succ@.contains(shared_succ@[0]));
            assert(common_successor(gfa.links(), node1, node2, shared_succ@[0]));
        }
        return (Verdict::PruneSuccessors, shared_succ);
    }
    proof {
        assert forall|z: usize| !common_successor(gfa.links(), node1, node2, z) by {
            if common_successor(gfa.links(), node1, node2, z) {
                assert(shared_succ@.contains(z));
            }
        }
    }
    let node1_pred = gfa.sources(node1);
    let node2_pred = predecessors(gfa, node2);
    let shared_pred = common(&node1_pred, &node2_pred);
    if shared_pred.len() != 0 {
        proof {
            assert(shared_pred@.contains(shared_pred@[0]));
            assert(common_predecessor(gfa.links(), node1, node2, shared_pred@[0]));
        }
        return (Verdict::PrunePredecessors, shared_pred);
    }
    proof {
        assert forall|x: usize| !common_predecessor(gfa.links(), node1, node2, x) by {
            if common_predecessor(gfa.links(), node1, node2, x) {
                assert(shared_pred@.contains(x));
            }
        }
    }
    let between = common(&node1_succ, &node2_pred);
    if between.len() != 0 {
        proof {
            assert(between@.contains(between@[0]));
            assert(bridge(gfa.links(), node1, node2, between@[0]));
        }
        (Verdict::Skip, Vec::new())
    } else {
        proof {
            assert forall|y: usize| !bridge(gfa.links(), node1, node2, y) by {
                if bridge(gfa.links(), node1, node2, y) {
                    assert(between@.contains(y));
                }
            }
        }
        (Verdict::Insert, Vec::new())
    }
}

/// Removes, for every shared successor `z`, the links from `node1` to `z`.
fn prune_successors(gfa: &mut Gfa, node1: usize, node2: usize, shared: &Vec<usize>)
    requires
        old(gfa).wf(),
        verdict(old(gfa).links(), node1, node2) == Verdict::PruneSuccessors,
        forall|z: usize|
            shared@.contains(z) <==> common_successor(old(gfa).links(), node1, node2, z),
    ensures
        final(gfa).wf(),
        final(gfa).nodes() == old(gfa).nodes(),
        final(gfa).links() == pruned(old(gfa).links(), node1, node2),
        final(gfa).edges().len() < old(gfa).edges().len(),
{
    let ghost start = gfa.links();
    proof {
        let z = choose|z: usize| common_successor(start, node1, node2, z);
        assert(shared@.contains(z));
        assert forall|z: usize| shared@.contains(z) implies node1 < gfa.nodes().len() && z
            < gfa.nodes().len() by {
            gfa.lemma_linked_in_range(node1, z);
        }
    }
    for k in 0..shared.len()
        invariant
            gfa.wf(),
            gfa.nodes() == old(gfa).nodes(),
            start == old(gfa).links(),
            shared@.len() > 0,
            forall|z: usize| shared@.contains(z) <==> common_successor(start, node1, node2, z),
            forall|z: usize|
                shared@.contains(z) ==> node1 < gfa.nodes().len() && z < gfa.nodes().len(),
            forall|l: Link| #[trigger]
                gfa.links().count(l) == if l.0 == node1 && shared@.take(k as int).contains(l.1) {
                    0
                } else {
                    start.count(l)
                },
            gfa.edges().len() <= old(gfa).edges().len(),
            k > 0 ==> gfa.edges().len() < old(gfa).edges().len(),
    {
        let z = shared[k];
        let ghost here = gfa.links();
        proof {
            assert(shared@.contains(z));
            assert(shared@.take(k + 1) == shared@.take(k as int).push(z));
            if k == 0 {
                assert(here =~= start);
            }
        }
        gfa.remove_links(node1, z);
        proof {
            broadcast use vstd::multiset::group_multiset_axioms;

            assert forall|l: Link| #[trigger]
                gfa.links().count(l) == if l.0 == node1 && shared@.take(k + 1).contains(l.1) {
                    0
                } else {
                    start.count(l)
                } by {
                let done = shared@.take(k as int);
                assert(here.count(l) == if l.0 == node1 && done.contains(l.1) {
                    0
                } else {
                    start.count(l)
                });
                if done.contains(l.1) {
                    let i = done.index_of(l.1);
                    assert(shared@.take(k + 1)[i] == l.1);
                }
                if l.1 == z {
                    assert(shared@.take(k + 1)[k as int] == z);
                }
            }
        }
    }
    proof {
        broadcast use vstd::multiset::group_multiset_axioms;

        assert(shared@.take(shared.len() as int) == shared@);
        assert(gfa.links() =~= pruned(start, node1, node2));
    }
}

/// Removes, for every shared predecessor `x`, the links from `x` to `node2`.
fn prune_predecessors(gfa: &mut Gfa, node1: usize, node2: usize, shared: &Vec<usize>)
    requires
        old(gfa).wf(),
        verdict(old(gfa).links(), node1, node2) == Verdict::PrunePredecessors,
        forall|x: usize|
            shared@.contains(x) <==> common_predecessor(old(gfa).links(), node1, node2, x),
    ensures
        final(gfa).wf(),
        final(gfa).nodes() == old(gfa).nodes(),
        final(gfa).links() == pruned(old(gfa).links(), node1, node2),
        final(gfa).edges().len() < old(gfa).edges().len(),
{
    let ghost start = gfa.links();
    proof {
        let x = choose|x: usize| common_predecessor(start, node1, node2, x);
        assert(shared@.contains(x));
        assert forall|x: usize| shared@.contains(x) implies node2 < gfa.nodes().len() && x
            < gfa.nodes().len() by {
            gfa.lemma_linked_in_range(x, node2);
        }
    }
    for k in 0..shared.len()
        invariant
            gfa.wf(),
            gfa.nodes() == old(gfa).nodes(),
            start == old(gfa).links(),
            shared@.len() > 0,
            forall|x: usize| shared@.contains(x) <==> common_predecessor(start, node1, node2, x),
            forall|x: usize|
                shared@.contains(x) ==> node2 < gfa.nodes().len() && x < gfa.nodes().len(),
            forall|l: Link| #[trigger]
                gfa.links().count(l) == if l.1 == node2 && shared@.take(k as int).contains(l.0) {
                    0
                } else {
                    start.count(l)
                },
            gfa.edges().len() <= old(gfa).edges().len(),
            k > 0 ==> gfa.edges().len() < old(gfa).edges().len(),
    {
        let x = shared[k];
        let ghost here = gfa.links();
        proof {
            assert(shared@.contains(x));
            assert(shared@.take(k + 1) == shared@.take(k as int).push(x));
            if k == 0 {
                assert(here =~= start);
            }
        }
        gfa.remove_links(x, node2);
        proof {
            broadcast use vstd::multiset::group_multiset_axioms;

            assert forall|l: Link| #[trigger]
                gfa.links().count(l) == if l.1 == node2 && shared@.take(k + 1).contains(l.0) {
                    0
                } else {
                    start.count(l)
                } by {
                let done = shared@.take(k as int);
                assert(here.count(l) == if l.1 == node2 && done.contains(l.0) {
                    0
                } else {
                    start.count(l)
                });
                if done.contains(l.0) {
                    let i = done.index_of(l.0);
                    assert(shared@.take(k + 1)[i] == l.0);
                }
                if l.0 == x {
                    assert(shared@.take(k + 1)[k as int] == x);
                }
            }
        }
    }
    proof {
        broadcast use vstd::multiset::group_multiset_axioms;

        assert(shared@.take(shared.len() as int) == shared@);
        assert(gfa.links() =~= pruned(start, node1, node2));
    }
}

/// Hands the overlap from `source` to `target` with the token `length` to the
/// rule. Both oriented segments are registered, then:
///
/// - if the two nodes share a successor, the source's links to every shared
///   successor are removed and the overlap is inserted;
/// - otherwise, if they share a predecessor, the links from every shared
///   predecessor to the target are removed and the overlap is inserted;
/// - otherwise, if a successor of the source is a predecessor of the target,
///   nothing changes;
/// - otherwise the overlap is inserted.
///
/// Fails with `GraphFull`, and leaves the graph as it was, exactly when the
/// result would hold more than `CAPACITY` nodes or edges.
pub fn add_edge(
    gfa: &mut Gfa,
    source: (String, char),
    target: (String, char),
    length: &String,
) -> (r: Result<(), GfaError>)
    requires
        old(gfa).wf(),
        is_ori(source.1),
        is_ori(target.1),
    ensures
        final(gfa).wf(),
        ({
            let after = old(gfa).overlaps().insert(
                (source.0@, source.1),
                (target.0@, target.1),
                length@,
            );
            match r {
                Ok(()) => {
                    &&& after.fits()
                    &&& final(gfa).nodes() == after.nodes
                    &&& final(gfa).links() == after.links
                },
                Err(e) => {
                    &&& e == GfaError::GraphFull
                    &&& !after.fits()
                    &&& final(gfa).nodes() == old(gfa).nodes()
                    &&& final(gfa).edges() == old(gfa).edges()
                },
            }
        }),
        r is Ok ==> ({
            let nodes = final(gfa).nodes();
            let a = nodes.index_of((source.0@, source.1)) as usize;
            let b = nodes.index_of((target.0@, target.1)) as usize;
            match verdict(old(gfa).links(), a, b) {
                Verdict::Insert => final(gfa).edges() == old(gfa).edges().push((a, b, length@)),
                Verdict::Skip => final(gfa).edges() == old(gfa).edges(),
                _ => {
                    &&& 0 < final(gfa).edges().len() <= old(gfa).edges().len()
                    &&& final(gfa).edges().last() == (a, b, length@)
                },
            }
        }),
{
    let ghost src = (source.0@, source.1);
    let ghost tgt = (target.0@, target.1);
    let ghost start = gfa.overlaps();
    let ghost after = start.insert(src, tgt, length@);
    proof {
        broadcast use group_to_multiset_ensures;

        gfa.lemma_closed();
        lemma_register(start.nodes, src);
        lemma_register(register(start.nodes, src), tgt);
    }
    let known1 = gfa.lookup(source.0.as_str(), source.1);
    let known2 = gfa.lookup(target.0.as_str(), target.1);
    if known1.is_some() && known2.is_some() {
        let node1 = known1.unwrap();
        let node2 = known2.unwrap();
        proof {
            assert(start.nodes.contains(src));
            assert(start.nodes.contains(tgt));
            assert(after.nodes == start.nodes);
            lemma_handle(start.nodes, node1 as int);
            lemma_handle(start.nodes, node2 as int);
        }
        let (v, shared) = decide(gfa, node1, node2);
        match v {
            Verdict::PruneSuccessors => {
                prune_successors(gfa, node1, node2, &shared);
                gfa.push_link(node1, node2, length.clone());
                Ok(())
            },
            Verdict::PrunePredecessors => {
                prune_predecessors(gfa, node1, node2, &shared);
                gfa.push_link(node1, node2, length.clone());
                Ok(())
            },
            Verdict::Skip => Ok(()),
            Verdict::Insert => {
                proof {
                    lemma_insert_plain(start.links, node1, node2, length@);
                }
                if gfa.edge_count() >= CAPACITY {
                    Err(GfaError::GraphFull)
                } else {
                    gfa.push_link(node1, node2, length.clone());
                    Ok(())
                }
            },
        }
    } else {
        proof {
            lemma_new_node_insert(start, src, tgt, length@);
        }
        let same = source.1 == target.1 && source.0 == target.0;
        let needed: usize = if known1.is_some() || known2.is_some() || same {
            1
        } else {
            2
        };
        if gfa.node_count() > CAPACITY - needed || gfa.edge_count() >= CAPACITY {
            return Err(GfaError::GraphFull);
        }
        let node1 = match get_node(gfa, source) {
            Ok(id) => id,
            Err(e) => {
                return Err(e);
            },
        };
        let node2 = match get_node(gfa, target) {
            Ok(id) => id,
            Err(e) => {
                return Err(e);
            },
        };
        proof {
            assert(gfa.nodes() == after.nodes);
            lemma_handle(after.nodes, node1 as int);
            lemma_handle(after.nodes, node2 as int);
        }
        gfa.push_link(node1, node2, length.clone());
        Ok(())
    }
}

} // verus!
