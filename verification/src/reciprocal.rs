//! What holds of the serializer: which edges are written, and how many.

use crate::graph::{Link, NodeId};
use crate::model::{distinct, simple};
use crate::orientation::{flip, is_ori};
use crate::reader::reversed;
use crate::writer::{emits, emitted, link_key, reverse_key, seen_after, Key};
use vstd::prelude::*;
use vstd::set_lib::{lemma_int_range, lemma_len_subset, lemma_map_size, set_int_range};

verus! {

/// The key of the reverse complement of the edge with key `k`.
pub open spec fn turned(k: Key) -> Key {
    (reversed(k.1), reversed(k.0))
}

/// Every edge joins two nodes of the table, and every node of the table has
/// a valid orientation.
pub open spec fn oriented(nodes: Seq<NodeId>, edges: Seq<Link>) -> bool {
    &&& forall|i: int| 0 <= i < nodes.len() ==> is_ori((#[trigger] nodes[i]).1)
    &&& forall|i: int|
        0 <= i < edges.len() ==> (#[trigger] edges[i]).0 < nodes.len() && edges[i].1 < nodes.len()
}

/// No two edges have the same key: at most one edge per ordered pair.
pub open spec fn one_per_key(nodes: Seq<NodeId>, edges: Seq<Link>) -> bool {
    forall|i: int, j: int|
        0 <= i < edges.len() && 0 <= j < edges.len() && link_key(nodes, edges[i]) == link_key(
            nodes,
            edges[j],
        ) ==> i == j
}

/// Whether the edge with index `j` is the reverse complement of the edge with
/// index `i`.
pub open spec fn mirrors(nodes: Seq<NodeId>, edges: Seq<Link>, i: int, j: int) -> bool {
    0 <= j < edges.len() && link_key(nodes, edges[j]) == reverse_key(nodes, edges[i])
}

/// Whether the reverse complement of the edge with index `i` is among the
/// edges.
pub open spec fn has_mirror(nodes: Seq<NodeId>, edges: Seq<Link>, i: int) -> bool {
    exists|j: int| #[trigger] mirrors(nodes, edges, i, j)
}

/// Every edge has its reverse complement among the edges.
pub open spec fn reciprocal(nodes: Seq<NodeId>, edges: Seq<Link>) -> bool {
    forall|i: int| 0 <= i < edges.len() ==> #[trigger] has_mirror(nodes, edges, i)
}

/// The indices of the edges that are written.
pub open spec fn emitting(nodes: Seq<NodeId>, edges: Seq<Link>) -> Set<int> {
    Set::new(|i: int| 0 <= i < edges.len() && emits(nodes, edges, i))
}

/// The indices of the edges that are their own reverse complement.
pub open spec fn own_mirrors(nodes: Seq<NodeId>, edges: Seq<Link>) -> Set<int> {
    Set::new(|i: int| 0 <= i < edges.len() && mirrors(nodes, edges, i, i))
}

/// Turning a key twice gives the key back.
proof fn lemma_turned_twice(nodes: Seq<NodeId>, edges: Seq<Link>, i: int)
    requires
        oriented(nodes, edges),
        0 <= i < edges.len(),
    ensures
        turned(turned(link_key(nodes, edges[i]))) == link_key(nodes, edges[i]),
        reverse_key(nodes, edges[i]) == turned(link_key(nodes, edges[i])),
{
    let k = link_key(nodes, edges[i]);
    assert(is_ori(nodes[edges[i].0 as int].1));
    assert(is_ori(nodes[edges[i].1 as int].1));
    assert(flip(flip(k.0.1)) == k.0.1);
    assert(flip(flip(k.1.1)) == k.1.1);
}

/// A key is marked after the first `n` edges exactly when one of them was
/// written and has the key as its reverse complement.
proof fn lemma_seen(nodes: Seq<NodeId>, edges: Seq<Link>, n: int, k: Key)
    requires
        0 <= n <= edges.len(),
    ensures
        seen_after(nodes, edges.take(n)).contains(k) <==> exists|m: int|
            0 <= m < n && #[trigger] emits(nodes, edges, m) && reverse_key(nodes, edges[m]) == k,
    decreases n,
{
    if n == 0 {
        assert(edges.take(0).len() == 0);
    } else {
        let prefix = edges.take(n);
        assert(prefix.drop_last() == edges.take(n - 1));
        assert(prefix.last() == edges[n - 1]);
        lemma_seen(nodes, edges, n - 1, k);
        let before = seen_after(nodes, edges.take(n - 1));
        if seen_after(nodes, prefix).contains(k) {
            if before.contains(k) {
                let m = choose|m: int|
                    0 <= m < n - 1 && #[trigger] emits(nodes, edges, m) && reverse_key(
                        nodes,
                        edges[m],
                    ) == k;
                assert(0 <= m < n && emits(nodes, edges, m));
            } else {
                assert(emits(nodes, edges, n - 1));
            }
        }
        if exists|m: int|
            0 <= m < n && #[trigger] emits(nodes, edges, m) && reverse_key(nodes, edges[m]) == k {
            let m = choose|m: int|
                0 <= m < n && #[trigger] emits(nodes, edges, m) && reverse_key(nodes, edges[m])
                    == k;
            if m < n - 1 {
                assert(before.contains(k));
            }
        }
    }
}

/// Single emission per reciprocal pair: once an edge was written, no later
/// edge that is its reverse complement is written.
pub proof fn lemma_never_both_directions(nodes: Seq<NodeId>, edges: Seq<Link>, i: int, j: int)
    requires
        0 <= i < j < edges.len(),
        emits(nodes, edges, i),
        mirrors(nodes, edges, i, j),
    ensures
        !emits(nodes, edges, j),
{
    lemma_seen(nodes, edges, j, link_key(nodes, edges[j]));
}

/// As many records are written as there are edges that are written.
pub proof fn lemma_emitted_len(nodes: Seq<NodeId>, edges: Seq<Link>)
    ensures
        emitting(nodes, edges).finite(),
        emitted(nodes, edges).len() == emitting(nodes, edges).len(),
    decreases edges.len(),
{
    if edges.len() == 0 {
        assert(emitting(nodes, edges) =~= Set::empty());
    } else {
        let n = edges.len() - 1;
        let earlier = edges.drop_last();
        lemma_emitted_len(nodes, earlier);
        assert forall|i: int| 0 <= i < n implies emits(nodes, earlier, i) == emits(
            nodes,
            edges,
            i,
        ) by {
            assert(earlier.take(i) == edges.take(i));
        }
        assert(edges.take(n) == earlier);
        if emits(nodes, edges, n) {
            assert(emitting(nodes, edges) =~= emitting(nodes, earlier).insert(n));
        } else {
            assert(emitting(nodes, edges) =~= emitting(nodes, earlier));
        }
    }
}

/// The index of the reverse complement of the edge with index `i`.
pub open spec fn mirror_of(nodes: Seq<NodeId>, edges: Seq<Link>, i: int) -> int {
    choose|j: int| mirrors(nodes, edges, i, j)
}

/// With one edge per key, an edge is written exactly when its reverse
/// complement does not come before it.
proof fn lemma_written_iff_first(nodes: Seq<NodeId>, edges: Seq<Link>, i: int)
    requires
        oriented(nodes, edges),
        one_per_key(nodes, edges),
        reciprocal(nodes, edges),
        0 <= i < edges.len(),
    ensures
        mirrors(nodes, edges, i, mirror_of(nodes, edges, i)),
        mirror_of(nodes, edges, mirror_of(nodes, edges, i)) == i,
        emits(nodes, edges, i) <==> mirror_of(nodes, edges, i) >= i,
{
    let p = mirror_of(nodes, edges, i);
    assert(has_mirror(nodes, edges, i));
    assert(mirrors(nodes, edges, i, p));
    lemma_turned_twice(nodes, edges, i);
    lemma_turned_twice(nodes, edges, p);
    let q = mirror_of(nodes, edges, p);
    assert(has_mirror(nodes, edges, p));
    assert(mirrors(nodes, edges, p, q));
    assert(link_key(nodes, edges[q]) == link_key(nodes, edges[i]));
    lemma_seen(nodes, edges, i, link_key(nodes, edges[i]));
    if !emits(nodes, edges, i) {
        let m = choose|m: int|
            0 <= m < i && #[trigger] emits(nodes, edges, m) && reverse_key(nodes, edges[m])
                == link_key(nodes, edges[i]);
        lemma_turned_twice(nodes, edges, m);
        assert(link_key(nodes, edges[m]) == link_key(nodes, edges[p]));
        assert(m == p);
    }
    if p < i {
        lemma_seen(nodes, edges, p, link_key(nodes, edges[p]));
        if !emits(nodes, edges, p) {
            let m = choose|m: int|
                0 <= m < p && #[trigger] emits(nodes, edges, m) && reverse_key(nodes, edges[m])
                    == link_key(nodes, edges[p]);
            lemma_turned_twice(nodes, edges, m);
            assert(link_key(nodes, edges[m]) == link_key(nodes, edges[i]));
            assert(m == i);
        }
        assert(emits(nodes, edges, p));
        assert(reverse_key(nodes, edges[p]) == link_key(nodes, edges[i]));
    }
}

/// Single emission per reciprocal pair, counted: where every edge has its
/// reverse complement among the edges and no two edges have the same key,
/// twice the number of records is the number of edges plus the number of
/// edges that are their own reverse complement. With at most one such edge
/// the number of records is half the number of edges, rounded up.
pub proof fn lemma_one_record_per_pair(nodes: Seq<NodeId>, edges: Seq<Link>)
    requires
        oriented(nodes, edges),
        one_per_key(nodes, edges),
        reciprocal(nodes, edges),
    ensures
        own_mirrors(nodes, edges).finite(),
        2 * emitted(nodes, edges).len() == edges.len() + own_mirrors(nodes, edges).len(),
        own_mirrors(nodes, edges).len() <= 1 ==> emitted(nodes, edges).len() == (edges.len() + 1)
            / 2,
{
    broadcast use vstd::set_lib::group_set_properties;

    let n = edges.len() as int;
    let all = set_int_range(0, n);
    lemma_int_range(0, n);
    let p = |i: int| mirror_of(nodes, edges, i);
    let up = Set::new(|i: int| 0 <= i < n && mirror_of(nodes, edges, i) > i);
    let down = Set::new(|i: int| 0 <= i < n && mirror_of(nodes, edges, i) < i);
    let own = own_mirrors(nodes, edges);
    let written = emitting(nodes, edges);
    assert forall|i: int| 0 <= i < n implies {
        let m = #[trigger] mirror_of(nodes, edges, i);
        &&& 0 <= m < n
        &&& mirror_of(nodes, edges, m) == i
        &&& emits(nodes, edges, i) <==> m >= i
        &&& mirrors(nodes, edges, i, i) <==> m == i
    } by {
        lemma_written_iff_first(nodes, edges, i);
        if mirrors(nodes, edges, i, i) {
            let m = mirror_of(nodes, edges, i);
            assert(link_key(nodes, edges[m]) == link_key(nodes, edges[i]));
        }
    }
    assert forall|i: int| p(i) == mirror_of(nodes, edges, i) by {}
    assert(up.subset_of(all) && down.subset_of(all) && own.subset_of(all));
    lemma_len_subset(up, all);
    lemma_len_subset(down, all);
    lemma_len_subset(own, all);
    // the reverse complement of an edge that comes first comes second
    assert(up.map(p) =~= down) by {
        assert forall|j: int| down.contains(j) implies up.map(p).contains(j) by {
            let i = mirror_of(nodes, edges, j);
            assert(mirror_of(nodes, edges, i) == j);
            assert(up.contains(i) && p(i) == j);
        }
        assert forall|j: int| up.map(p).contains(j) implies down.contains(j) by {
            let i = choose|i: int| up.contains(i) && p(i) == j;
            assert(mirror_of(nodes, edges, i) == j);
            assert(mirror_of(nodes, edges, j) == i);
        }
    }
    assert(vstd::relations::injective_on(p, up)) by {
        assert forall|x: int, y: int| up.contains(x) && up.contains(y) && #[trigger] p(x)
            == #[trigger] p(y) implies x == y by {
            assert(mirror_of(nodes, edges, mirror_of(nodes, edges, x)) == x);
            assert(mirror_of(nodes, edges, mirror_of(nodes, edges, y)) == y);
        }
    }
    lemma_map_size(up, down, p);
    assert(up.disjoint(own) && up.disjoint(down) && (up + own).disjoint(down));
    assert forall|i: int| written.contains(i) <==> (up + own).contains(i) by {
        if 0 <= i < n {
            let m = mirror_of(nodes, edges, i);
        }
    }
    assert(written =~= up + own);
    assert forall|i: int| all.contains(i) <==> ((up + own) + down).contains(i) by {
        if 0 <= i < n {
            let m = mirror_of(nodes, edges, i);
        }
    }
    assert(all =~= (up + own) + down);
    vstd::set_lib::lemma_set_disjoint_lens(up, own);
    vstd::set_lib::lemma_set_disjoint_lens(up + own, down);
    lemma_emitted_len(nodes, edges);
}

/// One edge per key is the same as a graph without parallel links, where no
/// node occurs twice in the table and every edge joins two nodes of it.
pub proof fn lemma_one_per_key_is_simple(nodes: Seq<NodeId>, edges: Seq<Link>)
    requires
        distinct(nodes),
        forall|i: int|
            0 <= i < edges.len() ==> (#[trigger] edges[i]).0 < nodes.len() && edges[i].1
                < nodes.len(),
    ensures
        one_per_key(nodes, edges) <==> simple(edges.to_multiset()),
{
    broadcast use vstd::seq_lib::group_to_multiset_ensures;

    let links = edges.to_multiset();
    if one_per_key(nodes, edges) {
        assert(edges.no_duplicates());
        edges.lemma_multiset_has_no_duplicates();
        assert forall|l: Link, k: Link|
            links.contains(l) && links.contains(k) && l.0 == k.0 && l.1 == k.1 implies l == k
            && links.count(l) == 1 by {
            assert(edges.contains(l) && edges.contains(k));
            let i = edges.index_of(l);
            let j = edges.index_of(k);
            assert(link_key(nodes, edges[i]) == link_key(nodes, edges[j]));
        }
    }
    if simple(links) {
        assert forall|x: Link| links.contains(x) implies links.count(x) == 1 by {
            assert(links.contains(x) && links.contains(x) && x.0 == x.0 && x.1 == x.1);
        }
        edges.lemma_multiset_has_no_duplicates_conv();
        assert forall|i: int, j: int|
            0 <= i < edges.len() && 0 <= j < edges.len() && link_key(nodes, edges[i]) == link_key(
                nodes,
                edges[j],
            ) implies i == j by {
            assert(nodes[edges[i].0 as int] == nodes[edges[j].0 as int]);
            assert(nodes[edges[i].1 as int] == nodes[edges[j].1 as int]);
            assert(edges.contains(edges[i]) && edges.contains(edges[j]));
            assert(links.contains(edges[i]) && links.contains(edges[j]));
            assert(links.count(edges[i]) > 0 && links.count(edges[j]) > 0);
        }
    }
}

} // verus!
