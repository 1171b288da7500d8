//! The record stream reader: tells link records from all others, parses link
//! records and folds them into the graph.
//!
//! A record is the list of its fields. A record whose first field is `L` is a
//! link record `L segment1 orientation1 segment2 orientation2 overlap`; every
//! other record passes through unchanged.

use crate::builder::add_edge;
use crate::gfa::{Gfa, GfaError};
use crate::graph::NodeId;
use crate::model::Overlaps;
use crate::orientation::{flip, is_ori, is_orientation, rev_ori};
use vstd::prelude::*;
use vstd::string::StrSliceExecFns;
use vstd::string::StringExecFns;

verus! {

/// A record as specifications see it: the list of its fields.
pub type Fields = Seq<Seq<char>>;

/// The number of fields that a link record needs.
pub const LINK_FIELDS: usize = 6;

/// Whether the record's first field is the link tag `L`.
pub open spec fn is_link(record: Fields) -> bool {
    record.len() > 0 && record[0] == seq!['L']
}

/// Whether a field starts with an orientation symbol.
pub open spec fn starts_with_ori(field: Seq<char>) -> bool {
    field.len() > 0 && is_ori(field[0])
}

/// The overlap that a link record describes: source, target and overlap
/// token; or the reason why the record is no link record.
pub open spec fn parsed(record: Fields, index: usize) -> Result<(NodeId, NodeId, Seq<char>), GfaError> {
    if record.len() < LINK_FIELDS {
        Err(GfaError::TruncatedLink { record: index, fields: record.len() as usize })
    } else if !starts_with_ori(record[2]) {
        Err(GfaError::BadOrientation { record: index, field: 2 })
    } else if !starts_with_ori(record[4]) {
        Err(GfaError::BadOrientation { record: index, field: 4 })
    } else {
        Ok(((record[1], record[2][0]), (record[3], record[4][0]), record[5]))
    }
}

/// The reverse complement of an oriented segment.
pub open spec fn reversed(id: NodeId) -> NodeId {
    (id.0, flip(id.1))
}

/// The graph after the overlap from `a` to `b` and its reverse complement,
/// from the reverse of `b` to the reverse of `a`, were handed to the rule in
/// this order; `GraphFull` where one of the two does not fit.
pub open spec fn insert_pair(g: Overlaps, a: NodeId, b: NodeId, w: Seq<char>) -> Result<
    Overlaps,
    GfaError,
> {
    let forward = g.insert(a, b, w);
    let both = forward.insert(reversed(b), reversed(a), w);
    if !forward.fits() || !both.fits() {
        Err(GfaError::GraphFull)
    } else {
        Ok(both)
    }
}

/// The graph after one record: a link record is parsed and inserted with its
/// reverse complement, any other record leaves the graph as it is.
pub open spec fn feed(g: Overlaps, record: Fields, index: usize) -> Result<Overlaps, GfaError> {
    if !is_link(record) {
        Ok(g)
    } else {
        match parsed(record, index) {
            Err(e) => Err(e),
            Ok((a, b, w)) => insert_pair(g, a, b, w),
        }
    }
}

/// The graph that a failing record leaves behind: the graph as it was, but
/// for a link record whose overlap fitted and whose reverse complement did
/// not; there the overlap has been inserted.
pub open spec fn left_by_failure(g: Overlaps, record: Fields, index: usize) -> Overlaps {
    match parsed(record, index) {
        Err(_) => g,
        Ok((a, b, w)) => if g.insert(a, b, w).fits() {
            g.insert(a, b, w)
        } else {
            g
        },
    }
}

/// The graph after all records were fed into the empty graph, first record
/// first; the error of the first record that fails.
pub open spec fn replay(records: Seq<Fields>) -> Result<Overlaps, GfaError>
    decreases records.len(),
{
    if records.len() == 0 {
        Ok(Overlaps::empty())
    } else {
        match replay(records.drop_last()) {
            Err(e) => Err(e),
            Ok(g) => feed(g, records.last(), (records.len() - 1) as usize),
        }
    }
}

/// The test whether a record is no link record.
pub open spec fn no_link() -> spec_fn(Fields) -> bool {
    |record: Fields| !is_link(record)
}

/// The records that pass through, in the order in which they came.
pub open spec fn passed_through(records: Seq<Fields>) -> Seq<Fields> {
    records.filter(no_link())
}

/// A link record, parsed.
pub struct LinkRecord {
    pub segment1: String,
    pub orientation1: char,
    pub segment2: String,
    pub orientation2: char,
    pub overlap: String,
}

/// Whether the record is a link record.
pub fn is_link_record(record: &Vec<String>) -> (b: bool)
    ensures
        b == is_link(record.deep_view()),
{
    if record.len() == 0 {
        return false;
    }
    proof {
        reveal_strlit("L");
        assert(record.deep_view()[0] == record@[0]@);
        assert("L"@ =~= seq!['L']);
    }
    let tag = String::from_str("L");
    record[0] == tag
}

/// The orientation symbol that `field` starts with, if it starts with one.
fn leading_orientation(field: &String) -> (r: Option<char>)
    ensures
        match r {
            Some(c) => starts_with_ori(field@) && c == field@[0],
            None => !starts_with_ori(field@),
        },
{
    if field.as_str().is_empty() {
        return None;
    }
    let c = field.as_str().get_char(0);
    if is_orientation(c) {
        Some(c)
    } else {
        None
    }
}

/// Parses the link record that is the `index`-th record of its stream.
///
/// Fails with `TruncatedLink` where the record has fewer than six fields, and
/// with `BadOrientation` where the first character of an orientation field is
/// missing or is neither `+` nor `-`; the first orientation is looked at
/// first. Fields after the sixth are ignored.
pub fn parse_link(record: &Vec<String>, index: usize) -> (r: Result<LinkRecord, GfaError>)
    ensures
        match r {
            Ok(link) => parsed(record.deep_view(), index) == Ok::<_, GfaError>(
                (
                    (link.segment1@, link.orientation1),
                    (link.segment2@, link.orientation2),
                    link.overlap@,
                ),
            ),
            Err(e) => parsed(record.deep_view(), index) == Err::<(NodeId, NodeId, Seq<char>), _>(e),
        },
{
    proof {
        assert forall|i: int| 0 <= i < record@.len() implies #[trigger] record.deep_view()[i]
            == record@[i]@ by {}
    }
    if record.len() < LINK_FIELDS {
        return Err(GfaError::TruncatedLink { record: index, fields: record.len() });
    }
    let orientation1 = match leading_orientation(&record[2]) {
        Some(c) => c,
        None => {
            return Err(GfaError::BadOrientation { record: index, field: 2 });
        },
    };
    let orientation2 = match leading_orientation(&record[4]) {
        Some(c) => c,
        None => {
            return Err(GfaError::BadOrientation { record: index, field: 4 });
        },
    };
    Ok(
        LinkRecord {
            segment1: record[1].clone(),
            orientation1,
            segment2: record[3].clone(),
            orientation2,
            overlap: record[5].clone(),
        },
    )
}

/// Inserts the overlap of a link record and then its reverse complement.
///
/// Fails with `GraphFull` where one of the two insertions does; the graph is
/// then left as the insertions before the failing one made it.
pub fn add_link(gfa: &mut Gfa, link: LinkRecord) -> (r: Result<(), GfaError>)
    requires
        old(gfa).wf(),
        is_ori(link.orientation1),
        is_ori(link.orientation2),
    ensures
        final(gfa).wf(),
        ({
            let a = (link.segment1@, link.orientation1);
            let b = (link.segment2@, link.orientation2);
            let start = old(gfa).overlaps();
            let forward = start.insert(a, b, link.overlap@);
            match r {
                Ok(()) => {
                    &&& insert_pair(start, a, b, link.overlap@) matches Ok(g)
                    &&& final(gfa).nodes() == g.nodes
                    &&& final(gfa).links() == g.links
                },
                Err(e) => {
                    &&& e == GfaError::GraphFull
                    &&& insert_pair(start, a, b, link.overlap@) == Err::<Overlaps, _>(e)
                    &&& if forward.fits() {
                        final(gfa).nodes() == forward.nodes && final(gfa).links() == forward.links
                    } else {
                        final(gfa).nodes() == start.nodes && final(gfa).links() == start.links
                    }
                },
            }
        }),
{
    let LinkRecord { segment1, orientation1, segment2, orientation2, overlap } = link;
    let source = (segment1.clone(), orientation1);
    let target = (segment2.clone(), orientation2);
    match add_edge(gfa, source, target, &overlap) {
        Ok(()) => {},
        Err(e) => {
            return Err(e);
        },
    }
    add_edge(gfa, (segment2, rev_ori(orientation2)), (segment1, rev_ori(orientation1)), &overlap)
}

/// Handles the `index`-th record of the stream: a link record is folded into
/// the graph and `None` comes back; any other record comes back as it is, for
/// the caller to write out at once.
///
/// On a parse error the graph is left as it was.
pub fn read_record(gfa: &mut Gfa, record: Vec<String>, index: usize) -> (r: Result<
    Option<Vec<String>>,
    GfaError,
>)
    requires
        old(gfa).wf(),
    ensures
        final(gfa).wf(),
        match r {
            Ok(out) => {
                &&& feed(old(gfa).overlaps(), record.deep_view(), index) matches Ok(g)
                &&& final(gfa).nodes() == g.nodes
                &&& final(gfa).links() == g.links
                &&& match out {
                    Some(same) => !is_link(record.deep_view()) && same == record,
                    None => is_link(record.deep_view()),
                }
            },
            Err(e) => {
                &&& feed(old(gfa).overlaps(), record.deep_view(), index) == Err::<Overlaps, _>(e)
                &&& final(gfa).overlaps() == left_by_failure(
                    old(gfa).overlaps(),
                    record.deep_view(),
                    index,
                )
            },
        },
{
    if !is_link_record(&record) {
        return Ok(Some(record));
    }
    match parse_link(&record, index) {
        Err(e) => Err(e),
        Ok(link) => match add_link(gfa, link) {
            Ok(()) => Ok(None),
            Err(e) => Err(e),
        },
    }
}

/// A copy of `record`.
pub fn clone_record(record: &Vec<String>) -> (copy: Vec<String>)
    ensures
        copy.deep_view() == record.deep_view(),
{
    let mut copy: Vec<String> = Vec::new();
    for i in 0..record.len()
        invariant
            copy@.len() == i,
            forall|k: int| 0 <= k < i ==> copy@[k]@ == record@[k]@,
    {
        copy.push(record[i].clone());
    }
    proof {
        assert(copy.deep_view() =~= record.deep_view());
    }
    copy
}

/// Once a record has failed, the records after it change nothing.
pub proof fn lemma_replay_error_sticks(records: Seq<Fields>, n: int)
    requires
        0 <= n <= records.len(),
        replay(records.take(n)) is Err,
    ensures
        replay(records) == replay(records.take(n)),
    decreases records.len(),
{
    if n == records.len() {
        assert(records.take(n) == records);
    } else {
        assert(records.drop_last().take(n) == records.take(n));
        lemma_replay_error_sticks(records.drop_last(), n);
    }
}

/// Reads a whole stream of records: link records are folded into a new graph
/// in their order, all other records are handed back in theirs.
///
/// Fails with the error of the first record that cannot be handled; what the
/// records before it passed through is then dropped.
pub fn deserialize(records: &Vec<Vec<String>>) -> (r: Result<(Gfa, Vec<Vec<String>>), GfaError>)
    ensures
        match r {
            Ok((gfa, passed)) => {
                &&& gfa.wf()
                &&& replay(records.deep_view()) matches Ok(g)
                &&& gfa.nodes() == g.nodes
                &&& gfa.links() == g.links
                &&& passed.deep_view() == passed_through(records.deep_view())
            },
            Err(e) => replay(records.deep_view()) == Err::<Overlaps, _>(e),
        },
{
    let mut gfa = Gfa::new();
    let mut passed: Vec<Vec<String>> = Vec::new();
    let ghost all = records.deep_view();
    proof {
        broadcast use vstd::seq_lib::group_to_multiset_ensures;
        broadcast use vstd::multiset::group_multiset_axioms;

        assert(gfa.links() =~= Overlaps::empty().links);
        assert(all.take(0) =~= Seq::<Fields>::empty());
        reveal(Seq::filter);
        assert(passed.deep_view() =~= passed_through(all.take(0)));
    }
    for i in 0..records.len()
        invariant
            all == records.deep_view(),
            gfa.wf(),
            replay(all.take(i as int)) matches Ok(g) && gfa.nodes() == g.nodes && gfa.links()
                == g.links,
            passed.deep_view() == passed_through(all.take(i as int)),
    {
        let ghost before = passed.deep_view();
        proof {
            assert(all.take(i + 1).drop_last() == all.take(i as int));
            assert(all.take(i + 1).last() == records@[i as int].deep_view());
            reveal(Seq::filter);
        }
        match read_record(&mut gfa, clone_record(&records[i]), i) {
            Ok(Some(record)) => {
                passed.push(record);
                proof {
                    assert(passed.deep_view() =~= before.push(record.deep_view()));
                }
            },
            Ok(None) => {},
            Err(e) => {
                proof {
                    lemma_replay_error_sticks(all, i + 1);
                }
                return Err(e);
            },
        }
    }
    proof {
        assert(all.take(records.len() as int) == all);
    }
    Ok((gfa, passed))
}

} // verus!
