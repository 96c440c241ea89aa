//! The finished tree as plain records, one for each node that is handed over.

use vstd::prelude::*;
use crate::arena::FlatSink;
use crate::handle::NodeHandle;
use crate::name::{attrs_view, Attribute, AttributeView, QualName, QualNameView};
use crate::node::{Node, NodeData, NodeDataView, NodeView};

verus! {

/// The record of one node: its handle and its parent's as integers, and what
/// its kind carries. A node without a parent has `None` there.
#[derive(Debug, PartialEq, Eq)]
pub enum NodeTerm {
    Document { id: usize, parent: Option<usize> },
    Element {
        id: usize,
        parent: Option<usize>,
        children: Vec<usize>,
        name: QualName,
        attrs: Vec<(QualName, String)>,
    },
    Text { id: usize, parent: Option<usize>, contents: String },
    DocType { id: usize, parent: Option<usize> },
    Comment { id: usize, parent: Option<usize>, contents: String },
}

/// What a [`NodeTerm`] is in contracts.
pub enum NodeTermView {
    Document { id: usize, parent: Option<usize> },
    Element {
        id: usize,
        parent: Option<usize>,
        children: Seq<usize>,
        name: QualNameView,
        attrs: Seq<(QualNameView, Seq<char>)>,
    },
    Text { id: usize, parent: Option<usize>, contents: Seq<char> },
    DocType { id: usize, parent: Option<usize> },
    Comment { id: usize, parent: Option<usize>, contents: Seq<char> },
}

/// The views of a run of name and value pairs, in order.
pub open spec fn pairs_view(pairs: Seq<(QualName, String)>) -> Seq<(QualNameView, Seq<char>)> {
    Seq::new(pairs.len(), |i: int| (pairs[i].0@, pairs[i].1@))
}

impl View for NodeTerm {
    type V = NodeTermView;

    open spec fn view(&self) -> NodeTermView {
        match *self {
            NodeTerm::Document { id, parent } => NodeTermView::Document { id, parent },
            NodeTerm::Element { id, parent, children, name, attrs } => NodeTermView::Element {
                id,
                parent,
                children: children@,
                name: name@,
                attrs: pairs_view(attrs@),
            },
            NodeTerm::Text { id, parent, contents } => NodeTermView::Text {
                id,
                parent,
                contents: contents@,
            },
            NodeTerm::DocType { id, parent } => NodeTermView::DocType { id, parent },
            NodeTerm::Comment { id, parent, contents } => NodeTermView::Comment {
                id,
                parent,
                contents: contents@,
            },
        }
    }
}

/// The whole tree as records: one entry for each node that is handed over,
/// keyed by the node's handle, and the handle of the root.
#[derive(Debug, PartialEq, Eq)]
pub struct SinkTerm {
    pub nodes: Vec<(usize, NodeTerm)>,
    pub root: usize,
}

/// The views of a run of entries, in order.
pub open spec fn entries_view(entries: Seq<(usize, NodeTerm)>) -> Seq<(usize, NodeTermView)> {
    Seq::new(entries.len(), |i: int| (entries[i].0, entries[i].1@))
}

/// The integers that stand for a run of handles.
pub open spec fn handle_ids(handles: Seq<NodeHandle>) -> Seq<usize> {
    Seq::new(handles.len(), |i: int| handles[i].0)
}

/// A run of attributes as pairs of name and value.
pub open spec fn attr_pairs(attrs: Seq<AttributeView>) -> Seq<(QualNameView, Seq<char>)> {
    Seq::new(attrs.len(), |i: int| (attrs[i].name, attrs[i].value))
}

/// The integer that stands for a parent, if there is one.
pub open spec fn parent_id(parent: Option<NodeHandle>) -> Option<usize> {
    match parent {
        Some(p) => Some(p.0),
        None => None,
    }
}

/// The record of a node. An element's record carries its children, name and
/// attributes, the record of a text or a comment its contents. A processing
/// instruction has no record.
pub open spec fn encoded(node: NodeView) -> Option<NodeTermView> {
    let id = node.id.0;
    let parent = parent_id(node.parent);
    match node.data {
        NodeDataView::Document => Some(NodeTermView::Document { id, parent }),
        NodeDataView::Element { name, attrs, .. } => Some(
            NodeTermView::Element {
                id,
                parent,
                children: handle_ids(node.children),
                name,
                attrs: attr_pairs(attrs),
            },
        ),
        NodeDataView::Text { contents } => Some(NodeTermView::Text { id, parent, contents }),
        NodeDataView::DocType { .. } => Some(NodeTermView::DocType { id, parent }),
        NodeDataView::Comment { contents } => Some(NodeTermView::Comment { id, parent, contents }),
        NodeDataView::ProcessingInstruction { .. } => None,
    }
}

/// The entries of the nodes of `t` that have a record, in the order of their
/// handles, each keyed by the integer of its node's own handle.
pub open spec fn exported(t: Seq<NodeView>) -> Seq<(usize, NodeTermView)>
    decreases t.len(),
{
    if t.len() == 0 {
        Seq::empty()
    } else {
        match encoded(t.last()) {
            Some(term) => exported(t.drop_last()).push((t.last().id.0, term)),
            None => exported(t.drop_last()),
        }
    }
}

/// Every node that has a record has its entry, every entry is that of some
/// node, and where each node carries its position as its handle the keys
/// rise from entry to entry: each key opens one record.
pub proof fn lemma_exported_entries(t: Seq<NodeView>)
    ensures
        exported(t).len() <= t.len(),
        forall|i: int|
            0 <= i < t.len() && encoded(#[trigger] t[i]) is Some ==> exported(t).contains(
                (t[i].id.0, encoded(t[i]).unwrap()),
            ),
        forall|j: int|
            0 <= j < exported(t).len() ==> exists|i: int|
                0 <= i < t.len() && encoded(#[trigger] t[i]) == Some((#[trigger] exported(t)[j]).1)
                    && exported(t)[j].0 == t[i].id.0,
        (forall|i: int| 0 <= i < t.len() ==> (#[trigger] t[i]).id.0 == i) ==> (forall|j: int|
            0 <= j < exported(t).len() ==> (#[trigger] exported(t)[j]).0 < t.len()) && (forall|
            a: int,
            b: int,
        |
            0 <= a < b < exported(t).len() ==> (#[trigger] exported(t)[a]).0 < (#[trigger] exported(
                t,
            )[b]).0),
    decreases t.len(),
{
    if t.len() > 0 {
        let front = t.drop_last();
        let all = exported(t);
        let most = exported(front);
        lemma_exported_entries(front);
        assert forall|i: int| 0 <= i < t.len() && encoded(#[trigger] t[i]) is Some implies all.contains(
            (t[i].id.0, encoded(t[i]).unwrap()),
        ) by {
            if i < front.len() {
                assert(front[i] == t[i]);
                let entry = (t[i].id.0, encoded(t[i]).unwrap());
                let j = choose|j: int| 0 <= j < most.len() && most[j] == entry;
                assert(all[j] == entry);
            } else {
                assert(all[all.len() - 1] == (t[i].id.0, encoded(t[i]).unwrap()));
            }
        }
        assert forall|j: int| 0 <= j < all.len() implies exists|i: int|
            0 <= i < t.len() && encoded(#[trigger] t[i]) == Some((#[trigger] all[j]).1) && all[j].0
                == t[i].id.0 by {
            if j < most.len() {
                let i = choose|i: int|
                    0 <= i < front.len() && encoded(#[trigger] front[i]) == Some(
                        (#[trigger] most[j]).1,
                    ) && most[j].0 == front[i].id.0;
                assert(t[i] == front[i]);
            } else {
                assert(encoded(t[t.len() - 1]) == Some(all[j].1));
            }
        }
        if forall|i: int| 0 <= i < t.len() ==> (#[trigger] t[i]).id.0 == i {
            assert forall|i: int| 0 <= i < front.len() implies (#[trigger] front[i]).id.0 == i by {
                assert(front[i] == t[i]);
            }
            assert forall|j: int| 0 <= j < all.len() implies (#[trigger] all[j]).0 < t.len() by {
                if j < most.len() {
                    assert(most[j].0 < front.len());
                } else {
                    assert(all[j].0 == t[t.len() - 1].id.0);
                }
            }
            assert forall|a: int, b: int| 0 <= a < b < all.len() implies (#[trigger] all[a]).0 < (
            #[trigger] all[b]).0 by {
                if b < most.len() {
                    assert(most[a].0 < most[b].0);
                } else {
                    assert(most[a].0 < front.len());
                    assert(all[b].0 == t[t.len() - 1].id.0);
                }
            }
        }
    }
}

/// The integers that stand for `handles`, in order.
pub fn encode_handles(handles: &Vec<NodeHandle>) -> (ids: Vec<usize>)
    ensures
        ids@ == handle_ids(handles@),
{
    let mut ids: Vec<usize> = Vec::new();
    let mut i: usize = 0;
    while i < handles.len()
        invariant
            i <= handles.len(),
            ids@ == handle_ids(handles@.take(i as int)),
        decreases handles.len() - i,
    {
        ids.push(handles[i].encode());
        assert(ids@ =~= handle_ids(handles@.take(i + 1)));
        i += 1;
    }
    assert(handles@.take(i as int) =~= handles@);
    ids
}

/// `attrs` as pairs of name and value, in order.
pub fn encode_attrs(attrs: &Vec<Attribute>) -> (pairs: Vec<(QualName, String)>)
    ensures
        pairs_view(pairs@) == attr_pairs(attrs_view(attrs@)),
{
    let mut pairs: Vec<(QualName, String)> = Vec::new();
    let mut i: usize = 0;
    while i < attrs.len()
        invariant
            i <= attrs.len(),
            pairs.len() == i,
            pairs_view(pairs@) == attr_pairs(attrs_view(attrs@.take(i as int))),
        decreases attrs.len() - i,
    {
        let ghost done = pairs@;
        pairs.push((attrs[i].name.clone(), attrs[i].value.clone()));
        proof {
            let goal = attr_pairs(attrs_view(attrs@.take(i + 1)));
            assert forall|j: int| 0 <= j < i + 1 implies pairs_view(pairs@)[j] == goal[j] by {
                if j < i {
                    assert(pairs_view(done)[j] == attr_pairs(attrs_view(attrs@.take(i as int)))[j]);
                }
            }
            assert(pairs_view(pairs@) =~= goal);
        }
        i += 1;
    }
    assert(attrs@.take(i as int) =~= attrs@);
    pairs
}

/// The integer that stands for a parent, if there is one.
pub fn encode_parent(parent: &Option<NodeHandle>) -> (id: Option<usize>)
    ensures
        id == parent_id(*parent),
{
    match parent {
        Some(handle) => Some(handle.encode()),
        None => None,
    }
}

impl Node {
    /// The record of this node, or `None` for a processing instruction.
    pub fn encode(&self) -> (term: Option<NodeTerm>)
        ensures
            match term {
                Some(t) => encoded(self@) == Some(t@),
                None => encoded(self@) is None,
            },
    {
        let id = self.id.encode();
        let parent = encode_parent(&self.parent);
        match &self.data {
            NodeData::Document => Some(NodeTerm::Document { id, parent }),
            NodeData::Element { attrs, name, .. } => Some(
                NodeTerm::Element {
                    id,
                    parent,
                    children: encode_handles(&self.children),
                    name: name.clone(),
                    attrs: encode_attrs(attrs),
                },
            ),
            NodeData::Text { contents } => Some(
                NodeTerm::Text { id, parent, contents: contents.clone() },
            ),
            NodeData::DocType { .. } => Some(NodeTerm::DocType { id, parent }),
            NodeData::Comment { contents } => Some(
                NodeTerm::Comment { id, parent, contents: contents.clone() },
            ),
            NodeData::ProcessingInstruction { .. } => None,
        }
    }
}

/// The finished tree as records: an entry for each node but the processing
/// instructions, in the order of the handles, and the root's handle.
pub fn flat_sink_to_term(sink: &FlatSink) -> (term: SinkTerm)
    ensures
        term.root == sink.root.0,
        entries_view(term.nodes@) == exported(sink@),
{
    let mut nodes: Vec<(usize, NodeTerm)> = Vec::new();
    let mut i: usize = 0;
    while i < sink.nodes.len()
        invariant
            i <= sink.nodes.len(),
            entries_view(nodes@) == exported(sink@.take(i as int)),
        decreases sink.nodes.len() - i,
    {
        let node = &sink.nodes[i];
        proof {
            let upto = sink@.take(i + 1);
            assert(upto.drop_last() =~= sink@.take(i as int));
            assert(upto.last() == node@);
        }
        match node.encode() {
            Some(term) => {
                nodes.push((node.id.encode(), term));
                assert(entries_view(nodes@) =~= exported(sink@.take(i + 1)));
            },
            None => {},
        }
        i += 1;
    }
    assert(sink@.take(i as int) =~= sink@);
    SinkTerm { nodes, root: sink.root.encode() }
}

} // verus!
