//! The overlap graph under construction and the registry of its nodes.

use crate::graph::{
    graph_add_edge, graph_add_node, graph_edge_count, graph_edge_endpoints, graph_edge_weight,
    graph_edges, graph_find_edge, graph_new, graph_node_count, graph_node_weight, graph_nodes,
    graph_predecessors, graph_remove_edge, graph_successors, sources_into, targets_from, Link,
    NodeId, OverlapGraph,
};
use crate::lemmas::{
    lemma_linked_joins, lemma_sources_contains, lemma_swap_removed, lemma_targets_contains,
};
use crate::model::{distinct, linked, register, Overlaps};
use crate::orientation::is_ori;
use vstd::hash_map::StringHashMap;
use vstd::prelude::*;
use vstd::seq_lib::group_to_multiset_ensures;

verus! {

/// The test that a link does not lead from `a` to `b`.
pub open spec fn apart_from(a: usize, b: usize) -> spec_fn(Link) -> bool {
    |l: Link| !(l.0 == a && l.1 == b)
}

/// Why a graph operation or a record could not be carried out.
#[derive(Clone, Copy, PartialEq, Eq, Debug, Structural)]
pub enum GfaError {
    /// A link record has fewer than six fields. `record` counts records from
    /// zero, `fields` is the number of fields found.
    TruncatedLink { record: usize, fields: usize },
    /// An orientation field of a link record is empty or starts with a
    /// character other than `+` and `-`. `field` is the field's position in
    /// the record.
    BadOrientation { record: usize, field: usize },
    /// The graph cannot take another node or edge: its indices are 32 bits
    /// wide.
    GraphFull,
}

/// The largest number of nodes, and of edges, that a graph can hold.
pub const CAPACITY: usize = 0xffff_ffff;

/// An overlap graph together with the registry that maps each oriented segment
/// to its node handle.
pub struct Gfa {
    graph: OverlapGraph,
    forward: StringHashMap<usize>,
    reverse: StringHashMap<usize>,
}

impl Gfa {
    /// The oriented segments registered so far; a node's handle is its
    /// position.
    pub closed spec fn nodes(&self) -> Seq<NodeId> {
        graph_nodes(self.graph)
    }

    /// The edges in the order of their indices.
    pub closed spec fn edges(&self) -> Seq<Link> {
        graph_edges(self.graph)
    }

    /// The edges without their order.
    pub open spec fn links(&self) -> vstd::multiset::Multiset<Link> {
        self.edges().to_multiset()
    }

    /// Node table and links together.
    pub open spec fn overlaps(&self) -> Overlaps {
        Overlaps { nodes: self.nodes(), links: self.links() }
    }

    /// The registry knows exactly the nodes of the graph: a name is a key of
    /// the map of its orientation if and only if that oriented segment is a
    /// node, and the map gives the node's handle.
    pub closed spec fn indexed(&self) -> bool {
        &&& forall|name: Seq<char>| #[trigger]
            self.forward@.contains_key(name) ==> self.forward@[name] < self.nodes().len()
                && self.nodes()[self.forward@[name] as int] == (name, '+')
        &&& forall|name: Seq<char>| #[trigger]
            self.reverse@.contains_key(name) ==> self.reverse@[name] < self.nodes().len()
                && self.nodes()[self.reverse@[name] as int] == (name, '-')
        &&& forall|i: int|
            0 <= i < self.nodes().len() && (#[trigger] self.nodes()[i]).1 == '+'
                ==> self.forward@.contains_key(self.nodes()[i].0) && self.forward@[self.nodes()[i].0]
                == i
        &&& forall|i: int|
            0 <= i < self.nodes().len() && (#[trigger] self.nodes()[i]).1 == '-'
                ==> self.reverse@.contains_key(self.nodes()[i].0) && self.reverse@[self.nodes()[i].0]
                == i
    }

    /// The invariant of the graph: it fits 32-bit indices, every node has a
    /// valid orientation and occurs once, every edge joins two nodes of the
    /// table, and the registry agrees with the table.
    pub open spec fn wf(&self) -> bool {
        &&& self.nodes().len() <= CAPACITY
        &&& self.edges().len() <= CAPACITY
        &&& distinct(self.nodes())
        &&& forall|i: int| 0 <= i < self.nodes().len() ==> is_ori((#[trigger] self.nodes()[i]).1)
        &&& forall|i: int|
            0 <= i < self.edges().len() ==> (#[trigger] self.edges()[i]).0 < self.nodes().len()
                && self.edges()[i].1 < self.nodes().len()
        &&& self.indexed()
    }

    /// A graph without nodes or edges.
    pub fn new() -> (g: Gfa)
        ensures
            g.wf(),
            g.nodes() == Seq::<NodeId>::empty(),
            g.edges() == Seq::<Link>::empty(),
    {
        Gfa { graph: graph_new(), forward: StringHashMap::new(), reverse: StringHashMap::new() }
    }

    /// The number of nodes.
    pub fn node_count(&self) -> (n: usize)
        ensures
            n == self.nodes().len(),
    {
        graph_node_count(&self.graph)
    }

    /// The number of edges.
    pub fn edge_count(&self) -> (n: usize)
        ensures
            n == self.edges().len(),
    {
        graph_edge_count(&self.graph)
    }

    /// The oriented segment that the handle `node` stands for, or `None` where
    /// the handle is not a node.
    pub fn segment(&self, node: usize) -> (r: Option<&(String, char)>)
        requires
            self.wf(),
        ensures
            match r {
                Some(id) => node < self.nodes().len() && (id.0@, id.1) == self.nodes()[node as int],
                None => node >= self.nodes().len(),
            },
    {
        if node < CAPACITY {
            graph_node_weight(&self.graph, node)
        } else {
            None
        }
    }

    /// Source and target of the edge with index `edge`, or `None` past the
    /// last edge.
    pub fn endpoints(&self, edge: usize) -> (r: Option<(usize, usize)>)
        requires
            self.wf(),
        ensures
            match r {
                Some((source, target)) => edge < self.edges().len() && source
                    == self.edges()[edge as int].0 && target == self.edges()[edge as int].1,
                None => edge >= self.edges().len(),
            },
    {
        if edge < CAPACITY {
            graph_edge_endpoints(&self.graph, edge)
        } else {
            None
        }
    }

    /// The overlap token of the edge with index `edge`, or `None` past the
    /// last edge.
    pub fn overlap(&self, edge: usize) -> (r: Option<&String>)
        requires
            self.wf(),
        ensures
            match r {
                Some(w) => edge < self.edges().len() && w@ == self.edges()[edge as int].2,
                None => edge >= self.edges().len(),
            },
    {
        if edge < CAPACITY {
            graph_edge_weight(&self.graph, edge)
        } else {
            None
        }
    }

    /// The handle of the oriented segment `(name, ori)`, if it is a node.
    pub fn lookup(&self, name: &str, ori: char) -> (r: Option<usize>)
        requires
            self.wf(),
        ensures
            match r {
                Some(id) => id < self.nodes().len() && self.nodes()[id as int] == (name@, ori),
                None => !self.nodes().contains((name@, ori)),
            },
    {
        let found = if ori == '+' {
            self.forward.get(name)
        } else if ori == '-' {
            self.reverse.get(name)
        } else {
            None
        };
        match found {
            Some(id) => Some(*id),
            None => {
                assert(!self.nodes().contains((name@, ori))) by {
                    if self.nodes().contains((name@, ori)) {
                        let i = self.nodes().index_of((name@, ori));
                        assert(self.nodes()[i] == (name@, ori));
                        assert(is_ori(self.nodes()[i].1));
                    }
                }
                None
            },
        }
    }

    /// In a well-formed graph every link joins two nodes of the table.
    pub proof fn lemma_linked_in_range(&self, a: usize, b: usize)
        requires
            self.wf(),
            linked(self.links(), a, b),
        ensures
            a < self.nodes().len(),
            b < self.nodes().len(),
    {
        lemma_linked_joins(self.edges(), a, b);
        let i = choose|i: int|
            0 <= i < self.edges().len() && (#[trigger] self.edges()[i]).0 == a && self.edges()[i].1
                == b;
        assert(self.edges()[i].0 < self.nodes().len());
    }

    /// In a well-formed graph the node table and the links are closed: the
    /// table holds no node twice and every link joins two of its nodes.
    pub proof fn lemma_closed(&self)
        requires
            self.wf(),
        ensures
            self.overlaps().closed(),
            self.overlaps().fits(),
    {
        broadcast use group_to_multiset_ensures;

        assert forall|l: Link| #[trigger] self.links().contains(l) implies l.0 < self.nodes().len()
            && l.1 < self.nodes().len() by {
            assert(self.edges().contains(l));
            let i = self.edges().index_of(l);
            assert(self.edges()[i] == l);
        }
    }

    /// The targets of the edges that leave `node`, one entry per edge, in no
    /// stated order. A handle that is not a node has none.
    pub(crate) fn targets(&self, node: usize) -> (r: Vec<usize>)
        requires
            self.wf(),
        ensures
            forall|z: usize| r@.contains(z) <==> linked(self.links(), node, z),
    {
        let r = if node < graph_node_count(&self.graph) {
            graph_successors(&self.graph, node)
        } else {
            Vec::new()
        };
        proof {
            broadcast use group_to_multiset_ensures;

            assert forall|z: usize| r@.contains(z) <==> linked(self.links(), node, z) by {
                lemma_linked_joins(self.edges(), node, z);
                lemma_targets_contains(self.edges(), node, z);
                assert(r@.contains(z) <==> r@.to_multiset().count(z) > 0);
                assert(targets_from(self.edges(), node).contains(z) <==> targets_from(
                    self.edges(),
                    node,
                ).to_multiset().count(z) > 0);
            }
        }
        r
    }

    /// The sources of the edges that enter `node`, one entry per edge, in no
    /// stated order. A handle that is not a node has none.
    pub(crate) fn sources(&self, node: usize) -> (r: Vec<usize>)
        requires
            self.wf(),
        ensures
            forall|x: usize| r@.contains(x) <==> linked(self.links(), x, node),
    {
        let r = if node < graph_node_count(&self.graph) {
            graph_predecessors(&self.graph, node)
        } else {
            Vec::new()
        };
        proof {
            broadcast use group_to_multiset_ensures;

            assert forall|x: usize| r@.contains(x) <==> linked(self.links(), x, node) by {
                lemma_linked_joins(self.edges(), x, node);
                lemma_sources_contains(self.edges(), node, x);
                assert(r@.contains(x) <==> r@.to_multiset().count(x) > 0);
                assert(sources_into(self.edges(), node).contains(x) <==> sources_into(
                    self.edges(),
                    node,
                ).to_multiset().count(x) > 0);
            }
        }
        r
    }

    /// Removes every edge that leads from `a` to `b`.
    pub(crate) fn remove_links(&mut self, a: usize, b: usize)
        requires
            old(self).wf(),
            a < old(self).nodes().len(),
            b < old(self).nodes().len(),
        ensures
            final(self).wf(),
            final(self).nodes() == old(self).nodes(),
            final(self).links() == old(self).links().filter(apart_from(a, b)),
            final(self).edges().len() <= old(self).edges().len(),
            linked(old(self).links(), a, b) ==> final(self).edges().len() < old(self).edges().len(),
            !linked(old(self).links(), a, b) ==> final(self).edges() == old(self).edges(),
    {
        let mut found = graph_find_edge(&self.graph, a, b);
        proof {
            lemma_linked_joins(self.edges(), a, b);
        }
        while found.is_some()
            invariant
                self.wf(),
                self.nodes() == old(self).nodes(),
                a < self.nodes().len(),
                b < self.nodes().len(),
                self.edges().len() <= old(self).edges().len(),
                match found {
                    Some(e) => e < self.edges().len() && self.edges()[e as int].0 == a
                        && self.edges()[e as int].1 == b,
                    None => forall|i: int|
                        0 <= i < self.edges().len() ==> !(#[trigger] self.edges()[i].0 == a
                            && self.edges()[i].1 == b),
                },
                forall|l: Link|
                    apart_from(a, b)(l) ==> #[trigger] self.links().count(l) == old(
                        self,
                    ).links().count(l),
                linked(old(self).links(), a, b) ==> found is Some || self.edges().len() < old(
                    self,
                ).edges().len(),
                !linked(old(self).links(), a, b) ==> self.edges() == old(self).edges(),
            decreases self.edges().len(),
        {
            let e = found.unwrap();
            let ghost before = self.edges();
            proof {
                lemma_swap_removed(before, e as int);
                lemma_linked_joins(old(self).edges(), a, b);
                assert forall|l: Link| apart_from(a, b)(l) implies #[trigger] before.to_multiset().count(
                    l,
                ) == old(self).links().count(l) by {
                    assert(self.links().count(l) == old(self).links().count(l));
                }
            }
            let _ = graph_remove_edge(&mut self.graph, e);
            found = graph_find_edge(&self.graph, a, b);
            proof {
                broadcast use vstd::multiset::group_multiset_axioms;

                assert(self.links() == before.to_multiset().remove(before[e as int]));
                assert forall|l: Link| apart_from(a, b)(l) implies #[trigger] self.links().count(l)
                    == old(self).links().count(l) by {
                    assert(l != before[e as int]);
                    assert(before.to_multiset().count(l) == old(self).links().count(l));
                }
                assert forall|i: int| 0 <= i < self.edges().len() implies (
                #[trigger] self.edges()[i]).0 < self.nodes().len() && self.edges()[i].1
                    < self.nodes().len() by {
                    if i == e {
                        assert(self.edges()[i] == before[before.len() - 1]);
                    } else {
                        assert(self.edges()[i] == before[i]);
                    }
                }
            }
        }
        proof {
            broadcast use vstd::multiset::group_multiset_axioms;
            broadcast use group_to_multiset_ensures;

            assert forall|l: Link| !apart_from(a, b)(l) implies self.links().count(l) == 0 by {
                if self.links().count(l) > 0 {
                    assert(self.edges().contains(l));
                    let i = self.edges().index_of(l);
                    assert(self.edges()[i].0 == a && self.edges()[i].1 == b);
                }
            }
            assert(self.links() =~= old(self).links().filter(apart_from(a, b)));
        }
    }

    /// Appends an edge from `a` to `b` with the overlap token `w`.
    pub(crate) fn push_link(&mut self, a: usize, b: usize, w: String)
        requires
            old(self).wf(),
            a < old(self).nodes().len(),
            b < old(self).nodes().len(),
            old(self).edges().len() < CAPACITY,
        ensures
            final(self).wf(),
            final(self).nodes() == old(self).nodes(),
            final(self).edges() == old(self).edges().push((a, b, w@)),
            final(self).links() == old(self).links().insert((a, b, w@)),
    {
        let _ = graph_add_edge(&mut self.graph, a, b, w);
        proof {
            broadcast use group_to_multiset_ensures;

        }
    }
}

/// Looks the oriented segment `weight` up in the registry and creates its node
/// on first reference. The handle of a segment never changes, and no node is
/// ever removed.
///
/// Fails with `GraphFull`, and changes nothing, when a new node would be the
/// graph's 2^32-th.
pub fn get_node(gfa: &mut Gfa, weight: (String, char)) -> (r: Result<usize, GfaError>)
    requires
        old(gfa).wf(),
        is_ori(weight.1),
    ensures
        final(gfa).wf(),
        final(gfa).edges() == old(gfa).edges(),
        match r {
            Ok(id) => {
                &&& final(gfa).nodes() == register(old(gfa).nodes(), (weight.0@, weight.1))
                &&& id < final(gfa).nodes().len()
                &&& final(gfa).nodes()[id as int] == (weight.0@, weight.1)
            },
            Err(e) => {
                &&& e == GfaError::GraphFull
                &&& final(gfa).nodes() == old(gfa).nodes()
                &&& register(old(gfa).nodes(), (weight.0@, weight.1)).len() > CAPACITY
            },
        },
{
    let (name, ori) = weight;
    match gfa.lookup(name.as_str(), ori) {
        Some(id) => Ok(id),
        None => {
            if graph_node_count(&gfa.graph) >= CAPACITY {
                return Err(GfaError::GraphFull);
            }
            let ghost before = gfa.nodes();
            let id = graph_add_node(&mut gfa.graph, name.clone(), ori);
            if ori == '+' {
                gfa.forward.insert(name, id);
            } else {
                gfa.reverse.insert(name, id);
            }
            proof {
                assert(gfa.nodes() == before.push((name@, ori)));
                assert forall|i: int, j: int|
                    0 <= i < gfa.nodes().len() && 0 <= j < gfa.nodes().len() && gfa.nodes()[i]
                        == gfa.nodes()[j] implies i == j by {
                    if i == before.len() && j < before.len() {
                        assert(before[j] == (name@, ori));
                    }
                    if j == before.len() && i < before.len() {
                        assert(before[i] == (name@, ori));
                    }
                }
            }
            Ok(id)
        },
    }
}

} // verus!
