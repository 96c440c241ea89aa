//! A document tree in a flat arena, built from the tree-mutation commands of
//! an HTML tree-construction algorithm.
//!
//! Every node lives in one growing vector and is named by its position there,
//! its [`NodeHandle`]; handle 0 is the document. Parent and child edges are
//! handles, not pointers. [`FlatSink`] owns the arena and takes the commands:
//! create a node, append it, insert it before a sibling, move a node's
//! children, merge attributes, detach a node. When construction is over,
//! [`flat_sink_to_term`] turns the arena into plain records.
//!
//! - [`handle`], [`name`], [`node`]: the data.
//! - [`tree`]: the arena as a sequence of node views, and each edit as a
//!   function on such sequences. The contracts of the commands speak of
//!   these.
//! - [`arena`]: the store and its primitives.
//! - [`attrs`]: merging attributes, first value wins.
//! - [`sink`]: the commands.
//! - [`shape`]: what stays true of the tree: the root on top, child lists and
//!   parent fields in agreement, attribute names unique.
//! - [`run`]: the same for whole sequences of commands.
//! - [`audit`]: the run-time tests of these properties.
//! - [`export`]: the records of the finished tree.

pub mod handle;
pub mod name;
pub mod node;
pub mod attrs;
pub mod tree;
pub mod shape;
pub mod arena;
pub mod sink;
pub mod audit;
pub mod run;
pub mod export;

pub use crate::arena::FlatSink;
pub use crate::export::{flat_sink_to_term, NodeTerm, SinkTerm};
pub use crate::handle::NodeHandle;
pub use crate::name::{Attribute, QualName};
pub use crate::node::{Node, NodeData};
pub use crate::sink::{node_or_text_to_node, ElementFlags, NodeOrText, QuirksMode, SinkError};
