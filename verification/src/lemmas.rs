//! Facts about sequences of links that connect the graph's edge list with the
//! multiset of links over which the insertion rule is stated.

use crate::graph::{
    enters, leaves, sources_into, swap_removed, targets_from, Link, NodeId,
};
use crate::model::{
    bridge, common_predecessor, common_successor, distinct, insert_link, linked, pruned,
    redundant, register, verdict, Overlaps, Verdict,
};
use vstd::multiset::Multiset;
use vstd::prelude::*;
use vstd::seq_lib::group_to_multiset_ensures;

verus! {

/// Whether some edge of the list leads from `a` to `b`.
pub open spec fn joins(edges: Seq<Link>, a: usize, b: usize) -> bool {
    exists|i: int| 0 <= i < edges.len() && (#[trigger] edges[i]).0 == a && edges[i].1 == b
}

/// A link is in the multiset exactly when an edge of the list carries it.
pub proof fn lemma_linked_joins(edges: Seq<Link>, a: usize, b: usize)
    ensures
        linked(edges.to_multiset(), a, b) <==> joins(edges, a, b),
{
    broadcast use group_to_multiset_ensures;

    if linked(edges.to_multiset(), a, b) {
        let w = choose|w: Seq<char>| #[trigger] edges.to_multiset().contains((a, b, w));
        assert(edges.to_multiset().count((a, b, w)) > 0);
        assert(edges.contains((a, b, w)));
        let i = edges.index_of((a, b, w));
        assert(edges[i].0 == a && edges[i].1 == b);
    }
    if joins(edges, a, b) {
        let i = choose|i: int| 0 <= i < edges.len() && (#[trigger] edges[i]).0 == a && edges[i].1 == b;
        assert(edges.contains(edges[i]));
        assert(edges.to_multiset().count(edges[i]) > 0);
        assert(edges.to_multiset().contains((a, b, edges[i].2)));
    }
}

/// The targets of the edges that leave `a` are the nodes that `a` is joined to.
pub proof fn lemma_targets_contains(edges: Seq<Link>, a: usize, z: usize)
    ensures
        targets_from(edges, a).contains(z) <==> joins(edges, a, z),
{
    let pred = leaves(a);
    let kept = edges.filter(pred);
    let out = targets_from(edges, a);
    if out.contains(z) {
        let k = out.index_of(z);
        edges.lemma_filter_pred(pred, k);
        assert(kept.contains(kept[k]));
        edges.lemma_filter_contains_rev(pred, kept[k]);
        let i = edges.index_of(kept[k]);
        assert(edges[i].0 == a && edges[i].1 == z);
    }
    if joins(edges, a, z) {
        let i = choose|i: int| 0 <= i < edges.len() && (#[trigger] edges[i]).0 == a && edges[i].1 == z;
        edges.lemma_filter_contains(pred, i);
        let k = kept.index_of(edges[i]);
        assert(out[k] == z);
    }
}

/// The sources of the edges that enter `a` are the nodes joined to `a`.
pub proof fn lemma_sources_contains(edges: Seq<Link>, a: usize, x: usize)
    ensures
        sources_into(edges, a).contains(x) <==> joins(edges, x, a),
{
    let pred = enters(a);
    let kept = edges.filter(pred);
    let out = sources_into(edges, a);
    if out.contains(x) {
        let k = out.index_of(x);
        edges.lemma_filter_pred(pred, k);
        assert(kept.contains(kept[k]));
        edges.lemma_filter_contains_rev(pred, kept[k]);
        let i = edges.index_of(kept[k]);
        assert(edges[i].0 == x && edges[i].1 == a);
    }
    if joins(edges, x, a) {
        let i = choose|i: int| 0 <= i < edges.len() && (#[trigger] edges[i]).0 == x && edges[i].1 == a;
        edges.lemma_filter_contains(pred, i);
        let k = kept.index_of(edges[i]);
        assert(out[k] == x);
    }
}

/// Taking the edge at index `e` out of the list takes one instance of it out
/// of the multiset of links.
pub proof fn lemma_swap_removed(edges: Seq<Link>, e: int)
    requires
        0 <= e < edges.len(),
    ensures
        swap_removed(edges, e).to_multiset() == edges.to_multiset().remove(edges[e]),
        swap_removed(edges, e).len() == edges.len() - 1,
{
    broadcast use group_to_multiset_ensures;

    let last = edges.len() - 1;
    assert(edges.drop_last() == edges.remove(last));
    if e == last {
    } else {
        let short = edges.drop_last();
        assert(swap_removed(edges, e) == short.update(e, edges.last()));
        assert(short.update(e, edges.last()) == short.remove(e).insert(e, edges.last()));
        assert(short[e] == edges[e]);
        assert(edges.contains(edges[e]));
        assert(edges.contains(edges[last]));
        assert(short.contains(short[e]));
        assert(short.to_multiset() == edges.to_multiset().remove(edges[last]));
        assert(short.remove(e).to_multiset() == short.to_multiset().remove(edges[e]));
        assert(swap_removed(edges, e).to_multiset() =~= edges.to_multiset().remove(edges[e]));
    }
}

/// Registering a node keeps the earlier handles, keeps the table free of
/// repetitions, and makes the node known.
pub proof fn lemma_register(nodes: Seq<NodeId>, id: NodeId)
    requires
        distinct(nodes),
    ensures
        distinct(register(nodes, id)),
        register(nodes, id).contains(id),
        nodes.len() <= register(nodes, id).len() <= nodes.len() + 1,
        nodes.contains(id) <==> register(nodes, id).len() == nodes.len(),
        forall|i: int| 0 <= i < nodes.len() ==> register(nodes, id)[i] == nodes[i],
        !nodes.contains(id) ==> register(nodes, id)[nodes.len() as int] == id,
{
    let after = register(nodes, id);
    if !nodes.contains(id) {
        assert(after[nodes.len() as int] == id);
        assert forall|i: int, j: int|
            0 <= i < after.len() && 0 <= j < after.len() && after[i] == after[j] implies i == j by {
            if i < nodes.len() {
                assert(nodes[i] == after[i]);
            }
            if j < nodes.len() {
                assert(nodes[j] == after[j]);
            }
        }
    }
}

/// In a table without repetitions a node's handle is its only position.
pub proof fn lemma_handle(nodes: Seq<NodeId>, i: int)
    requires
        distinct(nodes),
        0 <= i < nodes.len(),
    ensures
        nodes.index_of(nodes[i]) == i,
{
    let j = nodes.index_of(nodes[i]);
    assert(0 <= j < nodes.len() && nodes[j] == nodes[i]);
}

/// An overlap one of whose nodes has no link yet is inserted, and nothing is
/// removed for it.
pub proof fn lemma_fresh_node_inserts(links: Multiset<Link>, a: usize, b: usize, fresh: usize)
    requires
        fresh == a || fresh == b,
        forall|l: Link| #[trigger] links.contains(l) ==> l.0 != fresh && l.1 != fresh,
    ensures
        verdict(links, a, b) == Verdict::Insert,
{
    assert forall|x: usize, y: usize| linked(links, x, y) implies x != fresh && y != fresh by {
        let w = choose|w: Seq<char>| #[trigger] links.contains((x, y, w));
        assert(links.contains((x, y, w)));
    }
    assert forall|z: usize| !common_successor(links, a, b, z) by {}
    assert forall|x: usize| !common_predecessor(links, a, b, x) by {}
    assert forall|y: usize| !bridge(links, a, b, y) by {}
}

/// Where the rule removes nothing, the links after the insertion are the
/// links before it and the new one.
pub proof fn lemma_insert_plain(links: Multiset<Link>, a: usize, b: usize, w: Seq<char>)
    requires
        verdict(links, a, b) == Verdict::Insert,
    ensures
        pruned(links, a, b) == links,
        insert_link(links, a, b, w) == links.insert((a, b, w)),
        insert_link(links, a, b, w).len() == links.len() + 1,
{
    broadcast use vstd::multiset::group_multiset_axioms;

    assert forall|l: Link| !redundant(links, a, b, l) by {}
    assert(pruned(links, a, b) =~= links);
}

/// An overlap that brings a new node grows the node table by the nodes that
/// were not known; where the table still fits 32-bit handles, the overlap is
/// inserted without pruning and the links grow by one.
pub proof fn lemma_new_node_insert(g: Overlaps, source: NodeId, target: NodeId, w: Seq<char>)
    requires
        g.closed(),
        !g.nodes.contains(source) || !g.nodes.contains(target),
    ensures
        ({
            let after = g.insert(source, target, w);
            let a = after.nodes.index_of(source) as usize;
            let b = after.nodes.index_of(target) as usize;
            &&& distinct(after.nodes)
            &&& after.nodes.len() == g.nodes.len() + if g.nodes.contains(source)
                || g.nodes.contains(target) || source == target {
                1nat
            } else {
                2nat
            }
            &&& after.nodes.len() <= u32::MAX ==> {
                &&& verdict(g.links, a, b) == Verdict::Insert
                &&& after.links == g.links.insert((a, b, w))
                &&& after.links.len() == g.links.len() + 1
            }
        }),
{
    let first = register(g.nodes, source);
    let after = g.insert(source, target, w);
    lemma_register(g.nodes, source);
    lemma_register(first, target);
    assert(after.nodes == register(first, target));
    let a = after.nodes.index_of(source);
    let b = after.nodes.index_of(target);
    let i = first.index_of(source);
    assert(after.nodes[i] == source);
    assert(0 <= a < after.nodes.len() && after.nodes[a] == source);
    assert(0 <= b < after.nodes.len() && after.nodes[b] == target);
    if g.nodes.contains(source) || g.nodes.contains(target) || source == target {
        if !g.nodes.contains(source) && g.nodes.contains(target) {
            let j = g.nodes.index_of(target);
            assert(first[j] == target);
        }
    } else {
        if first.contains(target) {
            let j = first.index_of(target);
            if j < g.nodes.len() {
                assert(g.nodes[j] == target);
            }
        }
    }
    if after.nodes.len() <= u32::MAX {
        let fresh = if !g.nodes.contains(source) {
            a
        } else {
            b
        };
        assert(fresh >= g.nodes.len()) by {
            if !g.nodes.contains(source) {
                if a < g.nodes.len() {
                    assert(g.nodes[a] == after.nodes[a]);
                    assert(g.nodes.contains(source));
                }
            } else {
                assert(first == g.nodes);
                if b < g.nodes.len() {
                    assert(g.nodes[b] == after.nodes[b]);
                    assert(g.nodes.contains(target));
                }
            }
        }
        lemma_fresh_node_inserts(g.links, a as usize, b as usize, fresh as usize);
        lemma_insert_plain(g.links, a as usize, b as usize, w);
    }
}

} // verus!
