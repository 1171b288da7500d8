//! What holds of the insertion rule, proved from its definition.

use crate::graph::{Link, NodeId};
use crate::lemmas::{lemma_handle, lemma_insert_plain, lemma_register};
use crate::model::{
    bridge, common_predecessor, common_successor, distinct, insert_link, linked, pruned,
    redundant, register, simple, verdict, Overlaps, Verdict,
};
use crate::orientation::{flip, is_ori};
use crate::reader::reversed;
use vstd::multiset::Multiset;
use vstd::prelude::*;
use vstd::seq_lib::group_to_multiset_ensures;

verus! {

/// An overlap that the rule does not skip is a link of the graph right after
/// its insertion.
pub proof fn lemma_inserted_link_present(links: Multiset<Link>, a: usize, b: usize, w: Seq<char>)
    requires
        verdict(links, a, b) != Verdict::Skip,
    ensures
        insert_link(links, a, b, w).contains((a, b, w)),
        linked(insert_link(links, a, b, w), a, b),
{
    broadcast use vstd::multiset::group_multiset_axioms;

    assert(insert_link(links, a, b, w).contains((a, b, w)));
}

/// The rule removes links and adds at most the new one: every link after the
/// insertion is the new link or was a link before.
pub proof fn lemma_insert_adds_only_the_new_link(
    links: Multiset<Link>,
    a: usize,
    b: usize,
    w: Seq<char>,
    l: Link,
)
    ensures
        insert_link(links, a, b, w).count(l) <= links.count(l) + if l == (a, b, w) {
            1nat
        } else {
            0nat
        },
        pruned(links, a, b).count(l) <= links.count(l),
{
    broadcast use vstd::multiset::group_multiset_axioms;

}

/// What the rule finds redundant is gone: after the insertion no link from
/// the source to a shared successor is left, nor any link from a shared
/// predecessor to the target, but for the new link itself.
pub proof fn lemma_redundant_links_removed(
    links: Multiset<Link>,
    a: usize,
    b: usize,
    w: Seq<char>,
    l: Link,
)
    requires
        redundant(links, a, b, l),
    ensures
        !pruned(links, a, b).contains(l),
        l != (a, b, w) ==> !insert_link(links, a, b, w).contains(l),
{
    broadcast use vstd::multiset::group_multiset_axioms;

}

/// A node keeps its handle: an insertion leaves every node of the table where
/// it was.
pub proof fn lemma_handles_are_stable(g: Overlaps, a: NodeId, b: NodeId, w: Seq<char>, i: int)
    requires
        distinct(g.nodes),
        0 <= i < g.nodes.len(),
    ensures
        i < g.insert(a, b, w).nodes.len(),
        g.insert(a, b, w).nodes[i] == g.nodes[i],
        distinct(g.insert(a, b, w).nodes),
{
    lemma_register(g.nodes, a);
    lemma_register(register(g.nodes, a), b);
}

/// Whether an overlap from `a` to `b` leaves a link from `a` to `b` behind:
/// the rule does not skip it, or such a link is there already.
pub open spec fn settles(links: Multiset<Link>, a: usize, b: usize) -> bool {
    verdict(links, a, b) != Verdict::Skip || linked(links, a, b)
}

/// Reciprocity: once an overlap and then its reverse complement were handed
/// to the rule, links in both directions exist, with the overlap's token
/// where the rule did not skip it. The one exception is an overlap that the
/// rule skips, for a two-hop path, while no link joins its two nodes: the
/// links in both directions exist exactly when neither of the two is such
/// an overlap.
pub proof fn lemma_reciprocity(g: Overlaps, a: NodeId, b: NodeId, w: Seq<char>)
    requires
        g.closed(),
        is_ori(a.1),
        is_ori(b.1),
        g.insert(a, b, w).insert(reversed(b), reversed(a), w).nodes.len() <= u32::MAX,
    ensures
        ({
            let first = g.insert(a, b, w);
            let both = first.insert(reversed(b), reversed(a), w);
            let nodes = both.nodes;
            let ha = nodes.index_of(a) as usize;
            let hb = nodes.index_of(b) as usize;
            let hrb = nodes.index_of(reversed(b)) as usize;
            let hra = nodes.index_of(reversed(a)) as usize;
            &&& (linked(both.links, ha, hb) && linked(both.links, hrb, hra)) <==> (settles(
                g.links,
                ha,
                hb,
            ) && settles(first.links, hrb, hra))
            &&& verdict(g.links, ha, hb) != Verdict::Skip ==> both.links.contains((ha, hb, w))
            &&& verdict(first.links, hrb, hra) != Verdict::Skip ==> both.links.contains(
                (hrb, hra, w),
            )
        }),
{
    broadcast use vstd::multiset::group_multiset_axioms;

    let first = g.insert(a, b, w);
    let both = first.insert(reversed(b), reversed(a), w);
    let rb = reversed(b);
    let ra = reversed(a);
    // the four node tables, each an extension of the one before
    let n1 = register(g.nodes, a);
    let n2 = register(n1, b);
    let n3 = register(n2, rb);
    let n4 = register(n3, ra);
    lemma_register(g.nodes, a);
    lemma_register(n1, b);
    lemma_register(n2, rb);
    lemma_register(n3, ra);
    assert(first.nodes == n2);
    assert(both.nodes == n4);
    // handles in the table after the first insertion
    let ia = n2.index_of(a);
    let ib = n2.index_of(b);
    assert(n2[n1.index_of(a)] == a);
    assert(n2.contains(a));
    assert(0 <= ia < n2.len() && n2[ia] == a);
    assert(0 <= ib < n2.len() && n2[ib] == b);
    // the same handles in the final table
    assert(n4[ia] == a && n4[ib] == b) by {
        assert(n3[ia] == n2[ia]);
        assert(n4[ia] == n3[ia]);
        assert(n3[ib] == n2[ib]);
        assert(n4[ib] == n3[ib]);
    }
    lemma_handle(n4, ia);
    lemma_handle(n4, ib);
    let irb = n4.index_of(rb);
    let ira = n4.index_of(ra);
    assert(n4[n3.index_of(rb)] == rb);
    assert(n4.contains(rb));
    assert(0 <= irb < n4.len() && n4[irb] == rb);
    assert(0 <= ira < n4.len() && n4[ira] == ra);
    let ha = ia as usize;
    let hb = ib as usize;
    let hrb = irb as usize;
    let hra = ira as usize;
    assert(first.links == insert_link(g.links, ha, hb, w));
    assert(both.links == insert_link(first.links, hrb, hra, w));
    assert(flip(flip(a.1)) == a.1 && flip(flip(b.1)) == b.1);
    // a link between the nodes of the overlap survives the second insertion
    // or is put back by it
    assert forall|v: Seq<char>|
        first.links.contains((ha, hb, v)) && verdict(first.links, hrb, hra)
            != Verdict::Skip implies both.links.contains((ha, hb, v)) || (ha == hrb && hb == hra) by {
        let l = (ha, hb, v);
        if redundant(first.links, hrb, hra, l) {
            if verdict(first.links, hrb, hra) == Verdict::PruneSuccessors {
                assert(a == rb);
            } else {
                assert(b == ra);
            }
            assert(a == rb && b == ra);
        } else {
            assert(pruned(first.links, hrb, hra).count(l) == first.links.count(l));
        }
    }
    if verdict(g.links, ha, hb) != Verdict::Skip {
        lemma_inserted_link_present(g.links, ha, hb, w);
    }
    if verdict(first.links, hrb, hra) != Verdict::Skip {
        lemma_inserted_link_present(first.links, hrb, hra, w);
    }
    if settles(g.links, ha, hb) && settles(first.links, hrb, hra) {
        assert(linked(first.links, ha, hb));
        let v = choose|v: Seq<char>| #[trigger] first.links.contains((ha, hb, v));
        if verdict(first.links, hrb, hra) != Verdict::Skip {
            if !both.links.contains((ha, hb, v)) {
                assert(both.links.contains((ha, hb, w)));
            }
        }
        assert(linked(both.links, ha, hb));
        assert(linked(both.links, hrb, hra));
    }
    if linked(both.links, ha, hb) && linked(both.links, hrb, hra) {
        if !settles(first.links, hrb, hra) {
            assert(both.links == first.links);
        }
        if !settles(g.links, ha, hb) {
            assert(first.links == g.links);
            let v = choose|v: Seq<char>| #[trigger] both.links.contains((ha, hb, v));
            lemma_insert_adds_only_the_new_link(first.links, hrb, hra, w, (ha, hb, v));
            if verdict(first.links, hrb, hra) != Verdict::Skip {
                if (ha, hb, v) == (hrb, hra, w) {
                    assert(verdict(first.links, hrb, hra) == verdict(g.links, ha, hb));
                } else {
                    assert(first.links.contains((ha, hb, v)));
                }
            } else {
                assert(first.links.contains((ha, hb, v)));
            }
            assert(false);
        }
    }
}

/// At most one edge per ordered pair: a graph without parallel links stays
/// without them, unless the overlap is inserted beside a link between the
/// same two nodes that the rule left in place.
pub proof fn lemma_simple_preserved(links: Multiset<Link>, a: usize, b: usize, w: Seq<char>)
    requires
        simple(links),
    ensures
        simple(insert_link(links, a, b, w)) <==> (verdict(links, a, b) == Verdict::Skip || !linked(
            pruned(links, a, b),
            a,
            b,
        )),
{
    broadcast use vstd::multiset::group_multiset_axioms;

    let after = insert_link(links, a, b, w);
    let rest = pruned(links, a, b);
    if verdict(links, a, b) == Verdict::Skip {
    } else if linked(rest, a, b) {
        let v = choose|v: Seq<char>| #[trigger] rest.contains((a, b, v));
        let here = (a, b, v);
        let new = (a, b, w);
        assert(after.contains(here) && after.contains(new));
        if here == new {
            assert(after.count(new) >= 2);
        }
        assert(!simple(after));
    } else {
        let new = (a, b, w);
        assert forall|l: Link, k: Link|
            after.contains(l) && after.contains(k) && l.0 == k.0 && l.1 == k.1 implies l == k
            && after.count(l) == 1 by {
            if l != new {
                assert(rest.contains(l));
                assert(links.contains(l));
            }
            if k != new {
                assert(rest.contains(k));
                assert(links.contains(k));
            }
            if l != new && k != new {
                assert(links.count(l) == 1);
            }
            if l == new && k != new {
                assert(rest.contains((a, b, k.2)));
            }
            if l != new && k == new {
                assert(rest.contains((a, b, l.2)));
            }
            if l == new {
                if rest.count(new) > 0 {
                    assert(rest.contains((a, b, w)));
                }
            }
        }
    }
}

/// No spurious removal, one insertion: where the two nodes share no
/// successor and no predecessor and no node lies between them, the overlap is
/// added and every link stays.
pub proof fn lemma_no_witness_keeps_all(links: Multiset<Link>, a: usize, b: usize, w: Seq<char>)
    requires
        forall|z: usize| !common_successor(links, a, b, z),
        forall|x: usize| !common_predecessor(links, a, b, x),
        forall|y: usize| !bridge(links, a, b, y),
    ensures
        insert_link(links, a, b, w) == links.insert((a, b, w)),
        insert_link(links, a, b, w).len() == links.len() + 1,
{
    lemma_insert_plain(links, a, b, w);
}

/// The links after the overlaps of `arrivals` were handed to the rule one
/// after the other, first overlap first.
pub open spec fn insert_all(links: Multiset<Link>, arrivals: Seq<Link>) -> Multiset<Link>
    decreases arrivals.len(),
{
    if arrivals.len() == 0 {
        links
    } else {
        let l = arrivals.last();
        insert_link(insert_all(links, arrivals.drop_last()), l.0, l.1, l.2)
    }
}

/// No overlap of the list has a two-hop alternative in the list: there are no
/// three overlaps from `u` to `w`, from `w` to `v` and from `u` to `v`.
pub open spec fn without_shortcuts(arrivals: Seq<Link>) -> bool {
    forall|i: int, j: int, k: int|
        0 <= i < arrivals.len() && 0 <= j < arrivals.len() && 0 <= k < arrivals.len() ==> !((
        #[trigger] arrivals[i]).0 == (#[trigger] arrivals[k]).0 && arrivals[i].1 == (
        #[trigger] arrivals[j]).0 && arrivals[j].1 == arrivals[k].1)
}

/// No spurious removal, whole run: overlaps none of which has a two-hop
/// alternative among them all become links of the graph, and none is removed:
/// as many edges come out as overlaps went in.
pub proof fn lemma_no_spurious_removal(arrivals: Seq<Link>)
    requires
        without_shortcuts(arrivals),
    ensures
        insert_all(Multiset::empty(), arrivals) == arrivals.to_multiset(),
        insert_all(Multiset::empty(), arrivals).len() == arrivals.len(),
    decreases arrivals.len(),
{
    broadcast use group_to_multiset_ensures;
    broadcast use vstd::multiset::group_multiset_axioms;

    if arrivals.len() == 0 {
        assert(arrivals.to_multiset() =~= Multiset::empty());
    } else {
        let earlier = arrivals.drop_last();
        let new = arrivals.last();
        let n = arrivals.len() - 1;
        assert(without_shortcuts(earlier)) by {
            assert forall|i: int, j: int, k: int|
                0 <= i < earlier.len() && 0 <= j < earlier.len() && 0 <= k < earlier.len()
                    implies !((#[trigger] earlier[i]).0 == (#[trigger] earlier[k]).0 && earlier[i].1
                == (#[trigger] earlier[j]).0 && earlier[j].1 == earlier[k].1) by {
                assert(earlier[i] == arrivals[i] && earlier[j] == arrivals[j] && earlier[k]
                    == arrivals[k]);
            }
        }
        lemma_no_spurious_removal(earlier);
        let links = earlier.to_multiset();
        assert forall|x: usize, y: usize| linked(links, x, y) implies exists|i: int|
            0 <= i < n && (#[trigger] arrivals[i]).0 == x && arrivals[i].1 == y by {
            let v = choose|v: Seq<char>| #[trigger] links.contains((x, y, v));
            assert(earlier.contains((x, y, v)));
            let i = earlier.index_of((x, y, v));
            assert(arrivals[i] == earlier[i]);
        }
        assert forall|z: usize| !common_successor(links, new.0, new.1, z) by {
            if common_successor(links, new.0, new.1, z) {
                let k = choose|i: int|
                    0 <= i < n && (#[trigger] arrivals[i]).0 == new.0 && arrivals[i].1 == z;
                let j = choose|i: int|
                    0 <= i < n && (#[trigger] arrivals[i]).0 == new.1 && arrivals[i].1 == z;
                assert(arrivals[n].0 == arrivals[k].0 && arrivals[n].1 == arrivals[j].0
                    && arrivals[j].1 == arrivals[k].1);
            }
        }
        assert forall|x: usize| !common_predecessor(links, new.0, new.1, x) by {
            if common_predecessor(links, new.0, new.1, x) {
                let i = choose|i: int|
                    0 <= i < n && (#[trigger] arrivals[i]).0 == x && arrivals[i].1 == new.0;
                let k = choose|i: int|
                    0 <= i < n && (#[trigger] arrivals[i]).0 == x && arrivals[i].1 == new.1;
                assert(arrivals[i].0 == arrivals[k].0 && arrivals[i].1 == arrivals[n].0
                    && arrivals[n].1 == arrivals[k].1);
            }
        }
        assert forall|y: usize| !bridge(links, new.0, new.1, y) by {
            if bridge(links, new.0, new.1, y) {
                let i = choose|i: int|
                    0 <= i < n && (#[trigger] arrivals[i]).0 == new.0 && arrivals[i].1 == y;
                let j = choose|i: int|
                    0 <= i < n && (#[trigger] arrivals[i]).0 == y && arrivals[i].1 == new.1;
                assert(arrivals[i].0 == arrivals[n].0 && arrivals[i].1 == arrivals[j].0
                    && arrivals[j].1 == arrivals[n].1);
            }
        }
        lemma_no_witness_keeps_all(links, new.0, new.1, new.2);
        assert(arrivals == earlier.push(new));
    }
}

} // verus!
