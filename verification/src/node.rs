//! Nodes and the closed set of node kinds.

use vstd::prelude::*;
use crate::handle::NodeHandle;
use crate::name::{attrs_view, Attribute, AttributeView, QualName, QualNameView};

verus! {

/// What a node holds besides its place in the tree.
#[allow(inconsistent_fields)]
#[derive(Debug, PartialEq, Eq)]
pub enum NodeData {
    /// A document: the root of the tree, or the content fragment of a template.
    Document,
    DocType { name: String, public_id: String, system_id: String },
    Text { contents: String },
    Comment { contents: String },
    Element {
        name: QualName,
        attrs: Vec<Attribute>,
        /// The document node that holds a template element's contents.
        template_contents: Option<NodeHandle>,
        mathml_annotation_xml_integration_point: bool,
    },
    ProcessingInstruction { target: String, contents: String },
}

/// What a [`NodeData`] is in contracts.
#[allow(inconsistent_fields)]
pub enum NodeDataView {
    Document,
    DocType { name: Seq<char>, public_id: Seq<char>, system_id: Seq<char> },
    Text { contents: Seq<char> },
    Comment { contents: Seq<char> },
    Element {
        name: QualNameView,
        attrs: Seq<AttributeView>,
        template_contents: Option<NodeHandle>,
        mathml_annotation_xml_integration_point: bool,
    },
    ProcessingInstruction { target: Seq<char>, contents: Seq<char> },
}

impl View for NodeData {
    type V = NodeDataView;

    open spec fn view(&self) -> NodeDataView {
        match *self {
            NodeData::Document => NodeDataView::Document,
            NodeData::DocType { name, public_id, system_id } => NodeDataView::DocType {
                name: name@,
                public_id: public_id@,
                system_id: system_id@,
            },
            NodeData::Text { contents } => NodeDataView::Text { contents: contents@ },
            NodeData::Comment { contents } => NodeDataView::Comment { contents: contents@ },
            NodeData::Element {
                name,
                attrs,
                template_contents,
                mathml_annotation_xml_integration_point,
            } => NodeDataView::Element {
                name: name@,
                attrs: attrs_view(attrs@),
                template_contents,
                mathml_annotation_xml_integration_point,
            },
            NodeData::ProcessingInstruction { target, contents } => {
                NodeDataView::ProcessingInstruction { target: target@, contents: contents@ }
            },
        }
    }
}

/// One node of the tree: its own handle, its parent, its children in document
/// order, and what it holds.
#[derive(Debug, PartialEq, Eq)]
pub struct Node {
    pub id: NodeHandle,
    pub children: Vec<NodeHandle>,
    pub parent: Option<NodeHandle>,
    pub data: NodeData,
}

/// What a [`Node`] is in contracts.
pub struct NodeView {
    pub id: NodeHandle,
    pub parent: Option<NodeHandle>,
    pub children: Seq<NodeHandle>,
    pub data: NodeDataView,
}

impl View for Node {
    type V = NodeView;

    open spec fn view(&self) -> NodeView {
        NodeView {
            id: self.id,
            parent: self.parent,
            children: self.children@,
            data: self.data@,
        }
    }
}

impl Node {
    /// A node at position `id` with no parent and no children.
    pub fn new(id: usize, data: NodeData) -> (node: Node)
        ensures
            node@ == (NodeView {
                id: NodeHandle(id),
                parent: None,
                children: Seq::empty(),
                data: data@,
            }),
    {
        Node { id: NodeHandle(id), parent: None, children: Vec::with_capacity(10), data }
    }
}

} // verus!
