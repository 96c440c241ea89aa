//! The arena: the store that owns every node and hands out handles.

use vstd::prelude::*;
use crate::handle::NodeHandle;
use crate::node::{Node, NodeData, NodeDataView, NodeView};
use crate::attrs::names_distinct;
use crate::shape::{lemma_grown_shape, links_consistent, names_unique, root_on_top};
use crate::tree::{attrs_of, fresh, grown, lemma_grown_well_formed, well_formed, within};

verus! {

/// A document tree under construction. Every node lives in `nodes`, at the
/// position that its handle gives; `root` is the handle of the document.
#[derive(Debug)]
pub struct FlatSink {
    pub root: NodeHandle,
    pub nodes: Vec<Node>,
}

/// The views of a run of nodes, in order.
pub open spec fn nodes_view(nodes: Seq<Node>) -> Seq<NodeView> {
    Seq::new(nodes.len(), |i: int| nodes[i]@)
}

impl View for FlatSink {
    type V = Seq<NodeView>;

    open spec fn view(&self) -> Seq<NodeView> {
        nodes_view(self.nodes@)
    }
}

impl FlatSink {
    /// The root is the first node, and the arena is well formed.
    pub open spec fn wf(&self) -> bool {
        &&& self.root == NodeHandle(0)
        &&& well_formed(self@)
    }

    /// An arena that holds the document node and nothing else.
    pub fn new() -> (sink: FlatSink)
        ensures
            sink.wf(),
            sink@ == grown(Seq::empty(), NodeDataView::Document),
            root_on_top(sink@),
            links_consistent(sink@),
            names_unique(sink@),
    {
        let mut sink = FlatSink { root: NodeHandle(0), nodes: Vec::with_capacity(200) };
        sink.nodes.push(Node::new(0, NodeData::Document));
        assert(sink@ =~= grown(Seq::empty(), NodeDataView::Document));
        sink
    }

    /// Whether `handle` names a node of this arena.
    pub fn holds(&self, handle: &NodeHandle) -> (held: bool)
        ensures
            held == within(self@, *handle),
    {
        handle.0 < self.nodes.len()
    }

    /// The node that `handle` names, for changing in place.
    pub fn node_mut(&mut self, handle: NodeHandle) -> (node: &mut Node)
        requires
            within(old(self)@, handle),
        ensures
            *node == old(self).nodes[handle.0 as int],
            final(self).nodes@ == old(self).nodes@.update(handle.0 as int, *final(node)),
            final(self).root == old(self).root,
    {
        &mut self.nodes[handle.0]
    }

    /// The node that `handle` names.
    pub fn node(&self, handle: NodeHandle) -> (node: &Node)
        requires
            within(self@, handle),
        ensures
            *node == self.nodes[handle.0 as int],
            node@ == self@[handle.0 as int],
    {
        &self.nodes[handle.0]
    }

    /// Adds a node that holds `data`, with no parent and no children, and
    /// returns its handle.
    pub fn make_node(&mut self, data: NodeData) -> (id: NodeHandle)
        requires
            old(self).wf(),
        ensures
            final(self).wf(),
            id.0 == old(self)@.len(),
            final(self)@ == grown(old(self)@, data@),
            root_on_top(old(self)@) ==> root_on_top(final(self)@),
            links_consistent(old(self)@) ==> links_consistent(final(self)@),
            names_unique(old(self)@) && names_distinct(attrs_of(fresh(old(self)@, data@)))
                ==> names_unique(final(self)@),
    {
        let node = Node::new(self.nodes.len(), data);
        let id = node.id;
        self.nodes.push(node);
        proof {
            assert(self@ =~= grown(old(self)@, data@));
            lemma_grown_well_formed(old(self)@, data@);
            lemma_grown_shape(old(self)@, data@);
        }
        id
    }
}

} // verus!
