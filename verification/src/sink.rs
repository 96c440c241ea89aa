//! The tree-mutation commands that a tree-construction algorithm issues, each
//! as an edit of the arena.

use vstd::prelude::*;
use vstd::pervasive::unreached;
use crate::arena::FlatSink;
use crate::handle::NodeHandle;
use crate::name::{attrs_view, Attribute, AttributeView, QualName, QualNameView};
use crate::node::{NodeData, NodeDataView, NodeView};
use crate::run::{applied, Command};
use crate::attrs::{merge_missing, merged, names_distinct};
use crate::shape::{
    attached, lemma_attrs_merged_shape, lemma_children_moved_result, lemma_children_moved_shape,
    lemma_grown_shape, lemma_inserted_before_order, lemma_linked_at_shape, lemma_unlisted_shape,
    links_consistent, names_unique, root_on_top, stale,
};
use crate::tree::{
    appended, attrs_merged, attrs_of, children_moved, first_index, grown, inserted_before,
    lemma_attrs_merged_well_formed, lemma_children_moved_well_formed, lemma_first_index_unique,
    lemma_linked_at_well_formed, lemma_unlisted_well_formed, listed_under_parent, node_well_formed,
    unlisted, well_formed, with_children, within,
};

verus! {

/// What a command inserts: a node that exists already, or text for which a
/// node is made.
#[derive(Debug, PartialEq, Eq)]
pub enum NodeOrText {
    AppendNode(NodeHandle),
    AppendText(String),
}

/// What a [`NodeOrText`] is in contracts.
pub enum NodeOrTextView {
    AppendNode(NodeHandle),
    AppendText(Seq<char>),
}

impl View for NodeOrText {
    type V = NodeOrTextView;

    open spec fn view(&self) -> NodeOrTextView {
        match *self {
            NodeOrText::AppendNode(h) => NodeOrTextView::AppendNode(h),
            NodeOrText::AppendText(text) => NodeOrTextView::AppendText(text@),
        }
    }
}

/// Properties of an element that its creator passes on.
#[derive(Debug, PartialEq, Eq, Clone, Copy)]
pub struct ElementFlags {
    /// The element is a template: it gets a document node for its contents.
    pub template: bool,
    pub mathml_annotation_xml_integration_point: bool,
}

/// A document's quirks mode.
#[derive(Debug, PartialEq, Eq, Clone, Copy)]
pub enum QuirksMode {
    Quirks,
    LimitedQuirks,
    NoQuirks,
}

/// Why a command was refused.
#[derive(Debug, PartialEq, Eq, Clone, Copy)]
pub enum SinkError {
    /// The contents of a template were asked for.
    TemplatesNotSupported,
    /// The command is not supported.
    Unsupported,
}

impl SinkError {
    /// The reason in words.
    pub fn message(&self) -> (text: &'static str)
        ensures
            text@ == match *self {
                SinkError::TemplatesNotSupported => "Templates not supported"@,
                SinkError::Unsupported => "unsupported"@,
            },
    {
        match self {
            SinkError::TemplatesNotSupported => "Templates not supported",
            SinkError::Unsupported => "unsupported",
        }
    }
}

/// The arena after the node for `content` is there: unchanged for a handle,
/// grown by a text node for text.
pub open spec fn content_tree(t: Seq<NodeView>, content: NodeOrTextView) -> Seq<NodeView> {
    match content {
        NodeOrTextView::AppendNode(_) => t,
        NodeOrTextView::AppendText(contents) => grown(t, NodeDataView::Text { contents }),
    }
}

/// The handle that stands for `content`: the one given, or that of the text
/// node made for it.
pub open spec fn content_handle(t: Seq<NodeView>, content: NodeOrTextView) -> NodeHandle {
    match content {
        NodeOrTextView::AppendNode(h) => h,
        NodeOrTextView::AppendText(_) => NodeHandle(t.len() as usize),
    }
}

/// The arena after an element is created: grown by the element, and before it
/// by a document node for its contents where the element is a template.
pub open spec fn element_created(
    t: Seq<NodeView>,
    name: QualNameView,
    attrs: Seq<AttributeView>,
    flags: ElementFlags,
) -> Seq<NodeView> {
    if flags.template {
        grown(
            grown(t, NodeDataView::Document),
            NodeDataView::Element {
                name,
                attrs,
                template_contents: Some(NodeHandle(t.len() as usize)),
                mathml_annotation_xml_integration_point: flags.mathml_annotation_xml_integration_point,
            },
        )
    } else {
        grown(
            t,
            NodeDataView::Element {
                name,
                attrs,
                template_contents: None,
                mathml_annotation_xml_integration_point: flags.mathml_annotation_xml_integration_point,
            },
        )
    }
}

/// Resolving content keeps the shape, and the node made for text is in no
/// list and is not the root.
pub proof fn lemma_content_shape(t: Seq<NodeView>, content: NodeOrTextView)
    requires
        well_formed(t),
        t.len() <= usize::MAX,
    ensures
        root_on_top(t) ==> root_on_top(content_tree(t, content)),
        links_consistent(t) ==> links_consistent(content_tree(t, content)),
        names_unique(t) ==> names_unique(content_tree(t, content)),
        content is AppendText ==> content_handle(t, content) != NodeHandle(0) && !attached(
            content_tree(t, content),
            content_handle(t, content),
        ),
        forall|h: NodeHandle| attached(content_tree(t, content), h) ==> attached(t, h),
{
    match content {
        NodeOrTextView::AppendNode(_) => {},
        NodeOrTextView::AppendText(contents) => {
            lemma_grown_shape(t, NodeDataView::Text { contents });
        },
    }
}

/// Text is never joined: two texts appended to `parent`, one after the other,
/// give two text nodes, which are its last two children.
pub proof fn lemma_texts_stay_apart(t: Seq<NodeView>, parent: NodeHandle, a: Seq<char>, b: Seq<char>)
    requires
        well_formed(t),
        within(t, parent),
        t.len() + 2 <= usize::MAX,
    ensures
        ({
            let first = NodeOrTextView::AppendText(a);
            let second = NodeOrTextView::AppendText(b);
            let once = appended(content_tree(t, first), parent, content_handle(t, first));
            let twice = appended(content_tree(once, second), parent, content_handle(once, second));
            let one = NodeHandle(t.len() as usize);
            let two = NodeHandle((t.len() + 1) as usize);
            &&& twice.len() == t.len() + 2
            &&& twice[parent.0 as int].children == t[parent.0 as int].children.push(one).push(two)
            &&& twice[one.0 as int].data == (NodeDataView::Text { contents: a })
            &&& twice[two.0 as int].data == (NodeDataView::Text { contents: b })
            &&& twice[one.0 as int].parent == Some(parent)
            &&& twice[two.0 as int].parent == Some(parent)
        }),
{
    let first = NodeOrTextView::AppendText(a);
    let second = NodeOrTextView::AppendText(b);
    let once = appended(content_tree(t, first), parent, content_handle(t, first));
    let twice = appended(content_tree(once, second), parent, content_handle(once, second));
    let one = NodeHandle(t.len() as usize);
    let two = NodeHandle((t.len() + 1) as usize);
    let list = t[parent.0 as int].children;
    assert(once[parent.0 as int].children =~= list.push(one));
    assert(twice[parent.0 as int].children =~= list.push(one).push(two));
}

/// Resolves `not` to a handle, making a text node where it is text.
pub fn node_or_text_to_node(sink: &mut FlatSink, not: NodeOrText) -> (handle: NodeHandle)
    requires
        old(sink).wf(),
    ensures
        final(sink).wf(),
        final(sink)@ == content_tree(old(sink)@, not@),
        handle == content_handle(old(sink)@, not@),
        root_on_top(old(sink)@) ==> root_on_top(final(sink)@),
        links_consistent(old(sink)@) ==> links_consistent(final(sink)@),
{
    match not {
        NodeOrText::AppendNode(handle) => handle,
        NodeOrText::AppendText(text) => sink.make_node(NodeData::Text { contents: text }),
    }
}

/// The position of the first entry of `children` that equals `target`.
pub fn position(children: &Vec<NodeHandle>, target: &NodeHandle) -> (found: Option<usize>)
    ensures
        found is Some <==> children@.contains(*target),
        found matches Some(i) ==> i == first_index(children@, *target) && i < children.len()
            && children@[i as int] == *target,
{
    let mut i: usize = 0;
    while i < children.len()
        invariant
            i <= children.len(),
            forall|j: int| 0 <= j < i ==> children@[j] != *target,
        decreases children.len() - i,
    {
        if children[i].0 == target.0 {
            proof {
                lemma_first_index_unique(children@, *target, i as int);
            }
            return Some(i);
        }
        i += 1;
    }
    None
}

impl FlatSink {
    /// The handle of the document node.
    pub fn get_document(&self) -> (root: NodeHandle)
        ensures
            root == NodeHandle(0),
    {
        NodeHandle(0)
    }

    /// Whether two handles name the same node.
    pub fn same_node(&self, x: &NodeHandle, y: &NodeHandle) -> (same: bool)
        ensures
            same == (*x == *y),
    {
        x.0 == y.0
    }

    /// Whether `target` names an element.
    pub fn is_element(&self, target: &NodeHandle) -> (element: bool)
        requires
            within(self@, *target),
        ensures
            element == (self@[target.0 as int].data is Element),
    {
        match &self.node(*target).data {
            NodeData::Element { .. } => true,
            _ => false,
        }
    }

    /// Whether `target` has a parent whose child list names it.
    pub fn is_listed(&self, target: &NodeHandle) -> (listed: bool)
        requires
            self.wf(),
            within(self@, *target),
        ensures
            listed == listed_under_parent(self@, *target),
    {
        proof {
            assert(node_well_formed(self@, target.0 as int));
        }
        match self.node(*target).parent {
            Some(parent) => position(&self.node(parent).children, target).is_some(),
            None => false,
        }
    }

    /// The qualified name of the element that `target` names.
    pub fn elem_name(&self, target: &NodeHandle) -> (name: &QualName)
        requires
            within(self@, *target),
            self@[target.0 as int].data is Element,
        ensures
            self@[target.0 as int].data matches NodeDataView::Element { name: n, .. } && n == name@,
    {
        match &self.node(*target).data {
            NodeData::Element { name, .. } => name,
            _ => unreached(),
        }
    }

    /// Creates an element, and before it the document node for its contents
    /// where `flags` marks it as a template.
    pub fn create_element(&mut self, name: QualName, attrs: Vec<Attribute>, flags: ElementFlags) -> (id:
        NodeHandle)
        requires
            old(self).wf(),
        ensures
            final(self).wf(),
            final(self)@ == element_created(old(self)@, name@, attrs_view(attrs@), flags),
            // The same edit, as one step of a run of commands.
            final(self)@ == applied(
                old(self)@,
                Command::CreateElement { name: name@, attrs: attrs_view(attrs@), flags },
            ),
            id.0 == final(self)@.len() - 1,
            root_on_top(old(self)@) ==> root_on_top(final(self)@),
            links_consistent(old(self)@) ==> links_consistent(final(self)@),
            names_unique(old(self)@) && names_distinct(attrs_view(attrs@)) ==> names_unique(
                final(self)@,
            ),
    {
        let template_contents = if flags.template {
            Some(self.make_node(NodeData::Document))
        } else {
            None
        };
        self.make_node(
            NodeData::Element {
                name: name,
                attrs: attrs,
                mathml_annotation_xml_integration_point: flags.mathml_annotation_xml_integration_point,
                template_contents: template_contents,
            },
        )
    }

    /// Creates a comment node.
    pub fn create_comment(&mut self, text: String) -> (id: NodeHandle)
        requires
            old(self).wf(),
        ensures
            final(self).wf(),
            final(self)@ == grown(old(self)@, NodeDataView::Comment { contents: text@ }),
            // The same edit, as one step of a run of commands.
            final(self)@ == applied(old(self)@, Command::CreateComment { text: text@ }),
            id.0 == old(self)@.len(),
            root_on_top(old(self)@) ==> root_on_top(final(self)@),
            links_consistent(old(self)@) ==> links_consistent(final(self)@),
    {
        self.make_node(NodeData::Comment { contents: text })
    }

    /// Creates a processing-instruction node.
    pub fn create_pi(&mut self, target: String, data: String) -> (id: NodeHandle)
        requires
            old(self).wf(),
        ensures
            final(self).wf(),
            final(self)@ == grown(
                old(self)@,
                NodeDataView::ProcessingInstruction { target: target@, contents: data@ },
            ),
            // The same edit, as one step of a run of commands.
            final(self)@ == applied(
                old(self)@,
                Command::CreatePi { target: target@, data: data@ },
            ),
            id.0 == old(self)@.len(),
            root_on_top(old(self)@) ==> root_on_top(final(self)@),
            links_consistent(old(self)@) ==> links_consistent(final(self)@),
    {
        self.make_node(NodeData::ProcessingInstruction { target: target, contents: data })
    }

    /// Makes `child` the last child of `parent_id`. Text always gets a node
    /// of its own, whatever the last child is.
    pub fn append(&mut self, parent_id: &NodeHandle, child: NodeOrText)
        requires
            old(self).wf(),
            within(old(self)@, *parent_id),
            child matches NodeOrText::AppendNode(h) ==> within(old(self)@, h),
        ensures
            final(self).wf(),
            final(self)@ == appended(
                content_tree(old(self)@, child@),
                *parent_id,
                content_handle(old(self)@, child@),
            ),
            // The same edit, as one step of a run of commands.
            final(self)@ == applied(
                old(self)@,
                Command::Append { parent: *parent_id, child: child@ },
            ),
            root_on_top(old(self)@) && child != NodeOrText::AppendNode(NodeHandle(0)) ==> root_on_top(
                final(self)@,
            ),
            links_consistent(old(self)@) && (child matches NodeOrText::AppendNode(h) ==> !attached(
                old(self)@,
                h,
            )) ==> links_consistent(final(self)@),
    {
        let ghost before = content_tree(self@, child@);
        let handle = node_or_text_to_node(self, child);
        self.node_mut(*parent_id).children.push(handle);
        self.node_mut(handle).parent = Some(*parent_id);
        proof {
            let at = before[parent_id.0 as int].children.len() as int;
            assert(before[parent_id.0 as int].children.insert(at, handle)
                =~= before[parent_id.0 as int].children.push(handle));
            assert(self@ =~= appended(before, *parent_id, handle));
            lemma_linked_at_well_formed(before, *parent_id, at, handle);
            assert(old(self)@.len() == old(self).nodes.len());
            lemma_content_shape(old(self)@, child@);
            lemma_linked_at_shape(before, *parent_id, at, handle);
        }
    }

    /// Creates a doctype node and makes it the last child of the document.
    pub fn append_doctype_to_document(&mut self, name: String, public_id: String, system_id: String)
        requires
            old(self).wf(),
        ensures
            final(self).wf(),
            final(self)@ == appended(
                grown(
                    old(self)@,
                    NodeDataView::DocType {
                        name: name@,
                        public_id: public_id@,
                        system_id: system_id@,
                    },
                ),
                NodeHandle(0),
                NodeHandle(old(self)@.len() as usize),
            ),
            // The same edit, as one step of a run of commands.
            final(self)@ == applied(
                old(self)@,
                Command::AppendDoctypeToDocument {
                    name: name@,
                    public_id: public_id@,
                    system_id: system_id@,
                },
            ),
            root_on_top(old(self)@) ==> root_on_top(final(self)@),
            links_consistent(old(self)@) ==> links_consistent(final(self)@),
    {
        let doctype = self.make_node(
            NodeData::DocType { name: name, public_id: public_id, system_id: system_id },
        );
        let ghost before = self@;
        let root = self.root;
        self.node_mut(root).children.push(doctype);
        self.node_mut(doctype).parent = Some(self.root);
        proof {
            let at = before[0].children.len() as int;
            assert(before[0].children.insert(at, doctype) =~= before[0].children.push(doctype));
            assert(self@ =~= appended(before, root, doctype));
            lemma_linked_at_well_formed(before, root, at, doctype);
            lemma_grown_shape(
                old(self)@,
                NodeDataView::DocType { name: name@, public_id: public_id@, system_id: system_id@ },
            );
            lemma_linked_at_shape(before, root, at, doctype);
        }
    }

    /// Whether the parent field of `handle` is set.
    pub fn has_parent_node(&self, handle: &NodeHandle) -> (has: bool)
        requires
            within(self@, *handle),
        ensures
            has == (self@[handle.0 as int].parent is Some),
    {
        self.node(*handle).parent.is_some()
    }

    /// Makes `new_node` the sibling just before `sibling`, under `sibling`'s
    /// parent. Text always gets a node of its own.
    pub fn append_before_sibling(&mut self, sibling: &NodeHandle, new_node: NodeOrText)
        requires
            old(self).wf(),
            within(old(self)@, *sibling),
            listed_under_parent(old(self)@, *sibling),
            new_node matches NodeOrText::AppendNode(h) ==> within(old(self)@, h),
        ensures
            final(self).wf(),
            final(self)@ == inserted_before(
                content_tree(old(self)@, new_node@),
                *sibling,
                content_handle(old(self)@, new_node@),
            ),
            // The same edit, as one step of a run of commands.
            final(self)@ == applied(
                old(self)@,
                Command::AppendBeforeSibling { sibling: *sibling, new_node: new_node@ },
            ),
            ({
                let parent = old(self)@[sibling.0 as int].parent.unwrap();
                let before = old(self)@[parent.0 as int].children;
                let at = first_index(before, *sibling);
                let after = final(self)@[parent.0 as int].children;
                &&& after[at] == content_handle(old(self)@, new_node@)
                &&& after[at + 1] == *sibling
                &&& after.remove(at) == before
            }),
            root_on_top(old(self)@) && new_node != NodeOrText::AppendNode(NodeHandle(0))
                ==> root_on_top(final(self)@),
            links_consistent(old(self)@) && (new_node matches NodeOrText::AppendNode(h) ==> !attached(
                old(self)@,
                h,
            )) ==> links_consistent(final(self)@),
    {
        let ghost before = content_tree(self@, new_node@);
        let new_node_handle = node_or_text_to_node(self, new_node);
        let parent = self.node(*sibling).parent.unwrap();
        proof {
            assert(node_well_formed(old(self)@, sibling.0 as int));
            assert(before[parent.0 as int].children == old(self)@[parent.0 as int].children);
        }
        let parent_node = self.node_mut(parent);
        let sibling_index = position(&parent_node.children, sibling).unwrap();
        parent_node.children.insert(sibling_index, new_node_handle);
        self.node_mut(new_node_handle).parent = Some(parent);
        proof {
            assert(self@ =~= inserted_before(before, *sibling, new_node_handle));
            lemma_linked_at_well_formed(before, parent, sibling_index as int, new_node_handle);
            assert(old(self)@.len() == old(self).nodes.len());
            lemma_content_shape(old(self)@, new_node@);
            lemma_linked_at_shape(before, parent, sibling_index as int, new_node_handle);
            lemma_inserted_before_order(before, *sibling, new_node_handle);
        }
    }

    /// Adds each attribute of `add_attrs`, in order, to the element
    /// `target_handle`, unless the element has an attribute of that name.
    pub fn add_attrs_if_missing(&mut self, target_handle: &NodeHandle, add_attrs: Vec<Attribute>)
        requires
            old(self).wf(),
            within(old(self)@, *target_handle),
            old(self)@[target_handle.0 as int].data is Element,
        ensures
            final(self).wf(),
            final(self)@ == attrs_merged(old(self)@, *target_handle, attrs_view(add_attrs@)),
            // The same edit, as one step of a run of commands.
            final(self)@ == applied(
                old(self)@,
                Command::AddAttrsIfMissing { target: *target_handle, attrs: attrs_view(add_attrs@) },
            ),
            attrs_of(final(self)@[target_handle.0 as int]) == merged(
                attrs_of(old(self)@[target_handle.0 as int]),
                attrs_view(add_attrs@),
            ),
            root_on_top(old(self)@) ==> root_on_top(final(self)@),
            links_consistent(old(self)@) ==> links_consistent(final(self)@),
            names_unique(old(self)@) ==> names_unique(final(self)@),
    {
        let target = self.node_mut(*target_handle);
        match &mut target.data {
            NodeData::Element { attrs, .. } => {
                merge_missing(attrs, add_attrs);
            },
            _ => unreached(),
        }
        proof {
            assert(self@ =~= attrs_merged(old(self)@, *target_handle, attrs_view(add_attrs@)));
            lemma_attrs_merged_well_formed(old(self)@, *target_handle, attrs_view(add_attrs@));
            lemma_attrs_merged_shape(old(self)@, *target_handle, attrs_view(add_attrs@));
        }
    }

    /// Takes the first entry for `target` out of its parent's child list. The
    /// parent field of `target` stays set.
    pub fn remove_from_parent(&mut self, target: &NodeHandle)
        requires
            old(self).wf(),
            within(old(self)@, *target),
            listed_under_parent(old(self)@, *target),
        ensures
            final(self).wf(),
            final(self)@ == unlisted(old(self)@, *target),
            // The same edit, as one step of a run of commands.
            final(self)@ == applied(old(self)@, Command::RemoveFromParent { target: *target }),
            root_on_top(old(self)@) ==> root_on_top(final(self)@),
            links_consistent(old(self)@) ==> links_consistent(final(self)@) && !attached(
                final(self)@,
                *target,
            ) && stale(final(self)@, *target),
    {
        let parent = self.node(*target).parent.unwrap();
        proof {
            assert(node_well_formed(self@, target.0 as int));
        }
        let parent_node = self.node_mut(parent);
        let sibling_index = position(&parent_node.children, target).unwrap();
        parent_node.children.remove(sibling_index);
        proof {
            assert(self@ =~= unlisted(old(self)@, *target));
            lemma_unlisted_well_formed(old(self)@, *target);
            lemma_unlisted_shape(old(self)@, *target);
        }
    }

    /// Moves the children of `node`, in order, behind the children of
    /// `new_parent`, and records `new_parent` as the parent of each.
    pub fn reparent_children(&mut self, node: &NodeHandle, new_parent: &NodeHandle)
        requires
            old(self).wf(),
            within(old(self)@, *node),
            within(old(self)@, *new_parent),
        ensures
            final(self).wf(),
            final(self)@ == children_moved(old(self)@, *node, *new_parent),
            // The same edit, as one step of a run of commands.
            final(self)@ == applied(
                old(self)@,
                Command::ReparentChildren { node: *node, new_parent: *new_parent },
            ),
            *node != *new_parent ==> final(self)@[node.0 as int].children == Seq::<NodeHandle>::empty()
                && final(self)@[new_parent.0 as int].children == old(self)@[new_parent.0 as int].children
                + old(self)@[node.0 as int].children,
            forall|k: int|
                0 <= k < old(self)@[node.0 as int].children.len() ==> final(self)@[(
                #[trigger] old(self)@[node.0 as int].children[k]).0 as int].parent == Some(*new_parent),
            root_on_top(old(self)@) ==> root_on_top(final(self)@),
            links_consistent(old(self)@) ==> links_consistent(final(self)@),
    {
        let ghost start = self@;
        let mut old_children: Vec<NodeHandle> = Vec::new();
        std::mem::swap(&mut old_children, &mut self.node_mut(*node).children);
        let ghost emptied = self@;
        proof {
            assert(node_well_formed(start, node.0 as int));
            assert(emptied =~= with_children(start, *node, Seq::empty()));
            assert forall|i: int| 0 <= i < start.len() implies (#[trigger] emptied[i]).id.0 == i by {
                assert(node_well_formed(start, i));
            }
            assert(old_children@.take(0) =~= Seq::<NodeHandle>::empty());
        }
        let mut k: usize = 0;
        while k < old_children.len()
            invariant
                k <= old_children.len(),
                well_formed(start),
                within(start, *new_parent),
                within(start, *node),
                old_children@ == start[node.0 as int].children,
                forall|j: int| 0 <= j < old_children.len() ==> within(start, #[trigger] old_children@[j]),
                emptied.len() == start.len(),
                forall|i: int| 0 <= i < start.len() ==> (#[trigger] emptied[i]).id.0 == i,
                self.root == old(self).root,
                self@.len() == start.len(),
                forall|i: int|
                    0 <= i < start.len() ==> #[trigger] self@[i] == (if old_children@.take(
                        k as int,
                    ).contains(emptied[i].id) {
                        NodeView { parent: Some(*new_parent), ..emptied[i] }
                    } else {
                        emptied[i]
                    }),
            decreases old_children.len() - k,
        {
            let child = old_children[k];
            let ghost prev = self@;
            self.node_mut(child).parent = Some(*new_parent);
            proof {
                let taken = old_children@.take(k as int);
                let next = old_children@.take(k + 1);
                assert(next =~= taken.push(child));
                assert forall|i: int| 0 <= i < start.len() implies #[trigger] self@[i] == (if next.contains(
                    emptied[i].id,
                ) {
                    NodeView { parent: Some(*new_parent), ..emptied[i] }
                } else {
                    emptied[i]
                }) by {
                    let h = emptied[i].id;
                    if i == child.0 {
                        assert(next[k as int] == h);
                    } else {
                        assert(self@[i] == prev[i]);
                        if taken.contains(h) {
                            let w = choose|w: int| 0 <= w < taken.len() && taken[w] == h;
                            assert(next[w] == h);
                        }
                        if next.contains(h) {
                            let w = choose|w: int| 0 <= w < next.len() && next[w] == h;
                            assert(taken[w] == h);
                        }
                    }
                }
            }
            k += 1;
        }
        let ghost moved = old_children@;
        let ghost marked = self@;
        proof {
            assert(moved.take(k as int) =~= moved);
        }
        self.node_mut(*new_parent).children.append(&mut old_children);
        proof {
            let goal = children_moved(start, *node, *new_parent);
            let filled = with_children(
                emptied,
                *new_parent,
                emptied[new_parent.0 as int].children + moved,
            );
            assert(goal.len() == start.len());
            assert forall|i: int| 0 <= i < start.len() implies self@[i] == goal[i] by {
                assert(filled[i].id == emptied[i].id);
                if i == new_parent.0 {
                    assert(self@[i].children == marked[i].children + moved);
                } else {
                    assert(self@[i] == marked[i]);
                }
            }
            assert(self@ =~= goal);
            lemma_children_moved_well_formed(start, *node, *new_parent);
            lemma_children_moved_shape(start, *node, *new_parent);
            lemma_children_moved_result(start, *node, *new_parent);
        }
    }

    /// Not supported: the contents of templates cannot be reached.
    pub fn get_template_contents(&self, _target: &NodeHandle) -> (contents: Result<NodeHandle, SinkError>)
        ensures
            contents == Err::<NodeHandle, SinkError>(SinkError::TemplatesNotSupported),
    {
        Err(SinkError::TemplatesNotSupported)
    }

    /// Not supported: scripts cannot be marked.
    pub fn mark_script_already_started(&self, _elem: &NodeHandle) -> (marked: Result<(), SinkError>)
        ensures
            marked == Err::<(), SinkError>(SinkError::Unsupported),
    {
        Err(SinkError::Unsupported)
    }

    /// Accepts the quirks mode and keeps nothing of it.
    pub fn set_quirks_mode(&mut self, _mode: QuirksMode)
        ensures
            *final(self) == *old(self),
    {
    }

    /// Accepts a parse diagnostic and keeps nothing of it.
    pub fn parse_error(&mut self, _msg: &str)
        ensures
            *final(self) == *old(self),
    {
    }

    /// Ends the construction and hands the arena over.
    pub fn finish(self) -> (output: FlatSink)
        ensures
            output == self,
    {
        self
    }
}

} // verus!
