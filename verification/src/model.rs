//! The insertion rule, stated over a multiset of links.
//!
//! A link is a triple of source handle, target handle and overlap token. The
//! rule looks at the links present when a new overlap arrives and decides
//! whether the overlap is inserted and which links it makes redundant. The
//! executable graph is proved to follow these functions.

use crate::graph::{Link, NodeId};
use vstd::multiset::Multiset;
use vstd::prelude::*;

verus! {

/// Whether some link leads from `a` to `b`.
pub open spec fn linked(links: Multiset<Link>, a: usize, b: usize) -> bool {
    exists|w: Seq<char>| #[trigger] links.contains((a, b, w))
}

/// `z` is a successor of both `a` and `b`.
pub open spec fn common_successor(links: Multiset<Link>, a: usize, b: usize, z: usize) -> bool {
    linked(links, a, z) && linked(links, b, z)
}

/// `x` is a predecessor of both `a` and `b`.
pub open spec fn common_predecessor(links: Multiset<Link>, a: usize, b: usize, x: usize) -> bool {
    linked(links, x, a) && linked(links, x, b)
}

/// `y` is a successor of `a` and a predecessor of `b`: the path `a -> y -> b`
/// already leads from `a` to `b`.
pub open spec fn bridge(links: Multiset<Link>, a: usize, b: usize, y: usize) -> bool {
    linked(links, a, y) && linked(links, y, b)
}

/// What the rule decides for a new overlap.
#[derive(Clone, Copy, PartialEq, Eq, Debug, Structural)]
pub enum Verdict {
    /// The two nodes share a successor: the source's links to every shared
    /// successor go, the overlap is inserted.
    PruneSuccessors,
    /// The two nodes share a predecessor (and no successor): the links from
    /// every shared predecessor to the target go, the overlap is inserted.
    PrunePredecessors,
    /// A two-hop path already leads from source to target: nothing changes.
    Skip,
    /// None of the above: the overlap is inserted and nothing is removed.
    Insert,
}

/// The rule's decision for an overlap from `a` to `b`, given the links present.
pub open spec fn verdict(links: Multiset<Link>, a: usize, b: usize) -> Verdict {
    if exists|z: usize| common_successor(links, a, b, z) {
        Verdict::PruneSuccessors
    } else if exists|x: usize| common_predecessor(links, a, b, x) {
        Verdict::PrunePredecessors
    } else if exists|y: usize| bridge(links, a, b, y) {
        Verdict::Skip
    } else {
        Verdict::Insert
    }
}

/// Whether the rule removes the link `l` when an overlap from `a` to `b`
/// arrives.
pub open spec fn redundant(links: Multiset<Link>, a: usize, b: usize, l: Link) -> bool {
    match verdict(links, a, b) {
        Verdict::PruneSuccessors => l.0 == a && common_successor(links, a, b, l.1),
        Verdict::PrunePredecessors => l.1 == b && common_predecessor(links, a, b, l.0),
        _ => false,
    }
}

/// The links that survive the arrival of an overlap from `a` to `b`.
pub open spec fn pruned(links: Multiset<Link>, a: usize, b: usize) -> Multiset<Link> {
    links.filter(|l: Link| !redundant(links, a, b, l))
}

/// The links after an overlap from `a` to `b` with token `w` was handed to
/// the rule.
pub open spec fn insert_link(links: Multiset<Link>, a: usize, b: usize, w: Seq<char>) -> Multiset<
    Link,
> {
    if verdict(links, a, b) == Verdict::Skip {
        links
    } else {
        pruned(links, a, b).insert((a, b, w))
    }
}

/// No two links share source and target.
pub open spec fn simple(links: Multiset<Link>) -> bool {
    forall|l: Link, k: Link|
        #![trigger links.count(l), links.count(k)]
        links.contains(l) && links.contains(k) && l.0 == k.0 && l.1 == k.1 ==> l == k
            && links.count(l) == 1
}

/// The node table after `id` was looked up: a node that is not yet known is
/// appended, a known one changes nothing.
pub open spec fn register(nodes: Seq<NodeId>, id: NodeId) -> Seq<NodeId> {
    if nodes.contains(id) {
        nodes
    } else {
        nodes.push(id)
    }
}

/// No node occurs twice in the table.
pub open spec fn distinct(nodes: Seq<NodeId>) -> bool {
    forall|i: int, j: int|
        0 <= i < nodes.len() && 0 <= j < nodes.len() && nodes[i] == nodes[j] ==> i == j
}

/// Node table and links of an overlap graph.
pub struct Overlaps {
    pub nodes: Seq<NodeId>,
    pub links: Multiset<Link>,
}

impl Overlaps {
    /// The graph without nodes or links.
    pub open spec fn empty() -> Overlaps {
        Overlaps { nodes: Seq::empty(), links: Multiset::empty() }
    }

    /// Every link joins two nodes of the table, and no node occurs twice.
    pub open spec fn closed(self) -> bool {
        &&& distinct(self.nodes)
        &&& forall|l: Link| #[trigger]
            self.links.contains(l) ==> l.0 < self.nodes.len() && l.1 < self.nodes.len()
    }

    /// Whether node table and links fit 32-bit indices.
    pub open spec fn fits(self) -> bool {
        self.nodes.len() <= u32::MAX && self.links.len() <= u32::MAX
    }

    /// The graph after an overlap from `source` to `target` with token `w`
    /// arrived: both nodes are registered, source first, then the rule is
    /// applied to their handles.
    pub open spec fn insert(self, source: NodeId, target: NodeId, w: Seq<char>) -> Overlaps {
        let nodes = register(register(self.nodes, source), target);
        Overlaps {
            nodes,
            links: insert_link(
                self.links,
                nodes.index_of(source) as usize,
                nodes.index_of(target) as usize,
                w,
            ),
        }
    }
}

} // verus!
