//! Transitive-edge reduction of assembly overlap graphs.
//!
//! Link records are folded one at a time into a directed graph over oriented
//! segments; every insertion may prune edges that a two-hop path makes
//! redundant. The reduced graph is then written back as link records, one per
//! reciprocal pair.
//!
//! - [`orientation`]: the two orientation symbols and their reversal.
//! - [`graph`]: the `petgraph` graph behind the library, and what is taken on
//!   trust about it.
//! - [`model`]: the insertion rule over a multiset of links.
//! - [`gfa`]: the graph under construction and the registry of its nodes.
//! - [`algo`]: successors and predecessors of a node.
//! - [`builder`]: the insertion of one overlap.
//! - [`reader`]: link records and all others, one record or a whole stream.
//! - [`writer`]: the link records of the finished graph.
//! - [`pipeline`]: a whole run on records held in memory.
//! - [`laws`], [`reciprocal`]: what is proved of the rule and of the writer.
//! - [`cli`]: the parameters of the command line.

pub mod algo;
pub mod builder;
pub mod cli;
pub mod gfa;
pub mod graph;
pub mod laws;
mod lemmas;
pub mod model;
pub mod orientation;
pub mod pipeline;
pub mod reader;
pub mod reciprocal;
pub mod writer;

pub use crate::algo::{predecessors, successors, NodeSet};
pub use crate::builder::add_edge;
pub use crate::cli::Command;
pub use crate::gfa::{get_node, Gfa, GfaError};
pub use crate::model::Verdict;
pub use crate::orientation::rev_ori;
pub use crate::pipeline::reduce;
pub use crate::reader::{deserialize, read_record};
pub use crate::writer::serialize;
