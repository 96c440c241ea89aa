//! Whole runs of commands: what holds of the tree after any sequence of them.
//!
//! [`applied`] gives each command its meaning; the contract of the command of
//! that name in [`crate::sink`] ensures the same edit.

use vstd::prelude::*;
use crate::handle::NodeHandle;
use crate::name::{AttributeView, QualNameView};
use crate::node::{NodeDataView, NodeView};
use crate::attrs::names_distinct;
use crate::shape::{
    attached, lemma_attrs_merged_shape, lemma_children_moved_shape, lemma_grown_shape,
    lemma_linked_at_shape, lemma_parent_lists_child_once, lemma_unlisted_shape, links_consistent,
    names_unique, root_on_top, stale,
};
use crate::sink::{
    content_handle, content_tree, element_created, lemma_content_shape, ElementFlags,
    NodeOrTextView,
};
use crate::tree::{
    appended, attrs_merged, children_moved, first_index, grown, inserted_before,
    lemma_attrs_merged_well_formed, lemma_children_moved_well_formed, lemma_first_index,
    lemma_grown_well_formed, lemma_linked_at_well_formed, lemma_unlisted_well_formed,
    listed_under_parent, node_well_formed, unlisted, well_formed, within,
};

verus! {

/// One command that changes the tree, with its arguments as the model sees
/// them.
#[allow(inconsistent_fields)]
pub enum Command {
    CreateElement { name: QualNameView, attrs: Seq<AttributeView>, flags: ElementFlags },
    CreateComment { text: Seq<char> },
    CreatePi { target: Seq<char>, data: Seq<char> },
    Append { parent: NodeHandle, child: NodeOrTextView },
    AppendBeforeSibling { sibling: NodeHandle, new_node: NodeOrTextView },
    AppendDoctypeToDocument { name: Seq<char>, public_id: Seq<char>, system_id: Seq<char> },
    AddAttrsIfMissing { target: NodeHandle, attrs: Seq<AttributeView> },
    RemoveFromParent { target: NodeHandle },
    ReparentChildren { node: NodeHandle, new_parent: NodeHandle },
}

/// Whether `content` is a handle of `t`, or text.
pub open spec fn content_within(t: Seq<NodeView>, content: NodeOrTextView) -> bool {
    content matches NodeOrTextView::AppendNode(h) ==> within(t, h)
}

/// What the command asks of the arena it meets: its handles name nodes, a
/// sibling or a node to remove is listed under its parent, and attributes go
/// to an element.
pub open spec fn accepts(t: Seq<NodeView>, c: Command) -> bool {
    match c {
        Command::CreateElement { .. } => true,
        Command::CreateComment { .. } => true,
        Command::CreatePi { .. } => true,
        Command::Append { parent, child } => within(t, parent) && content_within(t, child),
        Command::AppendBeforeSibling { sibling, new_node } => within(t, sibling)
            && listed_under_parent(t, sibling) && content_within(t, new_node),
        Command::AppendDoctypeToDocument { .. } => true,
        Command::AddAttrsIfMissing { target, .. } => within(t, target) && t[target.0 as int].data
            is Element,
        Command::RemoveFromParent { target } => within(t, target) && listed_under_parent(t, target),
        Command::ReparentChildren { node, new_parent } => within(t, node) && within(t, new_parent),
    }
}

/// The node that the command puts into a child list, where that node was
/// there before the command: none for text, and none for the other commands.
pub open spec fn inserted(c: Command) -> Option<NodeHandle> {
    match c {
        Command::Append { child: NodeOrTextView::AppendNode(h), .. } => Some(h),
        Command::AppendBeforeSibling { new_node: NodeOrTextView::AppendNode(h), .. } => Some(h),
        _ => None,
    }
}

/// Whether the command leaves the root out of every child list: it does not
/// insert the root.
pub open spec fn spares_root(c: Command) -> bool {
    inserted(c) != Some(NodeHandle(0))
}

/// Whether the node that the command inserts, if any, stands in no child list
/// of `t`.
pub open spec fn inserts_unlisted(t: Seq<NodeView>, c: Command) -> bool {
    inserted(c) matches Some(h) ==> !attached(t, h)
}

/// Whether the attributes that the command brings for a new element have
/// distinct names.
pub open spec fn brings_distinct_names(c: Command) -> bool {
    c matches Command::CreateElement { attrs, .. } ==> names_distinct(attrs)
}

/// The arena after the command.
pub open spec fn applied(t: Seq<NodeView>, c: Command) -> Seq<NodeView> {
    match c {
        Command::CreateElement { name, attrs, flags } => element_created(t, name, attrs, flags),
        Command::CreateComment { text } => grown(t, NodeDataView::Comment { contents: text }),
        Command::CreatePi { target, data } => grown(
            t,
            NodeDataView::ProcessingInstruction { target, contents: data },
        ),
        Command::Append { parent, child } => appended(
            content_tree(t, child),
            parent,
            content_handle(t, child),
        ),
        Command::AppendBeforeSibling { sibling, new_node } => inserted_before(
            content_tree(t, new_node),
            sibling,
            content_handle(t, new_node),
        ),
        Command::AppendDoctypeToDocument { name, public_id, system_id } => appended(
            grown(t, NodeDataView::DocType { name, public_id, system_id }),
            NodeHandle(0),
            NodeHandle(t.len() as usize),
        ),
        Command::AddAttrsIfMissing { target, attrs } => attrs_merged(t, target, attrs),
        Command::RemoveFromParent { target } => unlisted(t, target),
        Command::ReparentChildren { node, new_parent } => children_moved(t, node, new_parent),
    }
}

/// The arena after the commands of `cs`, one after the other.
pub open spec fn run(t: Seq<NodeView>, cs: Seq<Command>) -> Seq<NodeView>
    decreases cs.len(),
{
    if cs.len() == 0 {
        t
    } else {
        applied(run(t, cs.drop_last()), cs.last())
    }
}

/// Whether each command of `cs` is accepted by the arena that it meets.
pub open spec fn runs(t: Seq<NodeView>, cs: Seq<Command>) -> bool
    decreases cs.len(),
{
    cs.len() == 0 || (runs(t, cs.drop_last()) && accepts(run(t, cs.drop_last()), cs.last()))
}

/// Whether each command of `cs` inserts only a node that stands in no child
/// list of the arena that the command meets.
pub open spec fn inserts_only_unlisted(t: Seq<NodeView>, cs: Seq<Command>) -> bool
    decreases cs.len(),
{
    cs.len() == 0 || (inserts_only_unlisted(t, cs.drop_last()) && inserts_unlisted(
        run(t, cs.drop_last()),
        cs.last(),
    ))
}

/// The arena that a new sink holds: the document node alone.
pub open spec fn initial() -> Seq<NodeView> {
    grown(Seq::empty(), NodeDataView::Document)
}

/// The arena before any command: well formed, root on top, links consistent,
/// attribute names unique, and no node stale.
pub proof fn lemma_initial_shape()
    ensures
        well_formed(initial()),
        root_on_top(initial()),
        links_consistent(initial()),
        names_unique(initial()),
        forall|h: NodeHandle| within(initial(), h) ==> !stale(initial(), h),
{
    let t = initial();
    assert(node_well_formed(t, 0));
    assert(t[0].children =~= Seq::<NodeHandle>::empty());
}

/// One accepted command keeps the arena well formed and adds at most two
/// nodes. The root stays on top unless the command inserts the root. The
/// links stay consistent if the node that it inserts stood in no list.
/// Attribute names stay unique if it brings no name twice. A node that is
/// stale afterwards was stale before, or is the node that the command removed
/// from its parent.
pub proof fn lemma_applied_shape(t: Seq<NodeView>, c: Command)
    requires
        well_formed(t),
        accepts(t, c),
        t.len() + 2 <= usize::MAX,
    ensures
        well_formed(applied(t, c)),
        t.len() <= applied(t, c).len() <= t.len() + 2,
        root_on_top(t) && spares_root(c) ==> root_on_top(applied(t, c)),
        links_consistent(t) && inserts_unlisted(t, c) ==> links_consistent(applied(t, c)),
        names_unique(t) && brings_distinct_names(c) ==> names_unique(applied(t, c)),
        forall|h: NodeHandle|
            within(applied(t, c), h) && stale(applied(t, c), h) ==> (within(t, h) && stale(t, h))
                || c == (Command::RemoveFromParent { target: h }),
{
    match c {
        Command::CreateElement { name, attrs, flags } => {
            if flags.template {
                let first = grown(t, NodeDataView::Document);
                lemma_grown_well_formed(t, NodeDataView::Document);
                lemma_grown_shape(t, NodeDataView::Document);
                let data = NodeDataView::Element {
                    name,
                    attrs,
                    template_contents: Some(NodeHandle(t.len() as usize)),
                    mathml_annotation_xml_integration_point: flags.mathml_annotation_xml_integration_point,
                };
                lemma_grown_well_formed(first, data);
                lemma_grown_shape(first, data);
            } else {
                let data = NodeDataView::Element {
                    name,
                    attrs,
                    template_contents: None,
                    mathml_annotation_xml_integration_point: flags.mathml_annotation_xml_integration_point,
                };
                lemma_grown_well_formed(t, data);
                lemma_grown_shape(t, data);
            }
        },
        Command::CreateComment { text } => {
            lemma_grown_well_formed(t, NodeDataView::Comment { contents: text });
            lemma_grown_shape(t, NodeDataView::Comment { contents: text });
        },
        Command::CreatePi { target, data } => {
            lemma_grown_well_formed(
                t,
                NodeDataView::ProcessingInstruction { target, contents: data },
            );
            lemma_grown_shape(t, NodeDataView::ProcessingInstruction { target, contents: data });
        },
        Command::Append { parent, child } => {
            let before = content_tree(t, child);
            let handle = content_handle(t, child);
            lemma_content_well_formed(t, child);
            lemma_content_shape(t, child);
            let at = before[parent.0 as int].children.len() as int;
            lemma_linked_at_well_formed(before, parent, at, handle);
            lemma_linked_at_shape(before, parent, at, handle);
        },
        Command::AppendBeforeSibling { sibling, new_node } => {
            let before = content_tree(t, new_node);
            let handle = content_handle(t, new_node);
            lemma_content_well_formed(t, new_node);
            lemma_content_shape(t, new_node);
            assert(node_well_formed(t, sibling.0 as int));
            let parent = before[sibling.0 as int].parent.unwrap();
            let list = before[parent.0 as int].children;
            lemma_first_index(list, sibling);
            let at = first_index(list, sibling);
            lemma_linked_at_well_formed(before, parent, at, handle);
            lemma_linked_at_shape(before, parent, at, handle);
        },
        Command::AppendDoctypeToDocument { name, public_id, system_id } => {
            let data = NodeDataView::DocType { name, public_id, system_id };
            let before = grown(t, data);
            let handle = NodeHandle(t.len() as usize);
            lemma_grown_well_formed(t, data);
            lemma_grown_shape(t, data);
            let at = before[0].children.len() as int;
            lemma_linked_at_well_formed(before, NodeHandle(0), at, handle);
            lemma_linked_at_shape(before, NodeHandle(0), at, handle);
        },
        Command::AddAttrsIfMissing { target, attrs } => {
            lemma_attrs_merged_well_formed(t, target, attrs);
            lemma_attrs_merged_shape(t, target, attrs);
        },
        Command::RemoveFromParent { target } => {
            assert(node_well_formed(t, target.0 as int));
            lemma_unlisted_well_formed(t, target);
            lemma_unlisted_shape(t, target);
        },
        Command::ReparentChildren { node, new_parent } => {
            lemma_children_moved_well_formed(t, node, new_parent);
            lemma_children_moved_shape(t, node, new_parent);
        },
    }
}

/// Resolving content keeps the arena well formed, keeps its nodes as they
/// are, and gives a handle of the arena; a node made for text is not stale.
pub proof fn lemma_content_well_formed(t: Seq<NodeView>, content: NodeOrTextView)
    requires
        well_formed(t),
        content_within(t, content),
        t.len() + 1 <= usize::MAX,
    ensures
        well_formed(content_tree(t, content)),
        within(content_tree(t, content), content_handle(t, content)),
        t.len() <= content_tree(t, content).len() <= t.len() + 1,
        forall|i: int| 0 <= i < t.len() ==> content_tree(t, content)[i] == t[i],
        forall|h: NodeHandle|
            within(content_tree(t, content), h) && stale(content_tree(t, content), h) ==> within(t, h)
                && stale(t, h),
{
    match content {
        NodeOrTextView::AppendNode(_) => {},
        NodeOrTextView::AppendText(contents) => {
            lemma_grown_well_formed(t, NodeDataView::Text { contents });
            lemma_grown_shape(t, NodeDataView::Text { contents });
        },
    }
}

/// Whatever commands are issued, as long as each is accepted when it comes:
/// the arena stays well formed, handle 0 names a document node, and no node
/// is lost.
pub proof fn lemma_run_well_formed(t: Seq<NodeView>, cs: Seq<Command>)
    requires
        well_formed(t),
        runs(t, cs),
        t.len() + 2 * cs.len() <= usize::MAX,
    ensures
        well_formed(run(t, cs)),
        run(t, cs)[0].data is Document,
        t.len() <= run(t, cs).len() <= t.len() + 2 * cs.len(),
    decreases cs.len(),
{
    if cs.len() > 0 {
        lemma_run_well_formed(t, cs.drop_last());
        lemma_applied_shape(run(t, cs.drop_last()), cs.last());
    }
}

/// The root stays on top through any run in which no command inserts the
/// root: it has no parent, and no child list names it.
pub proof fn lemma_run_root_on_top(t: Seq<NodeView>, cs: Seq<Command>)
    requires
        well_formed(t),
        root_on_top(t),
        runs(t, cs),
        forall|k: int| 0 <= k < cs.len() ==> spares_root(#[trigger] cs[k]),
        t.len() + 2 * cs.len() <= usize::MAX,
    ensures
        root_on_top(run(t, cs)),
    decreases cs.len(),
{
    if cs.len() > 0 {
        let front = cs.drop_last();
        assert forall|k: int| 0 <= k < front.len() implies spares_root(#[trigger] front[k]) by {
            assert(front[k] == cs[k]);
        }
        lemma_run_root_on_top(t, front);
        lemma_run_well_formed(t, front);
        assert(spares_root(cs[cs.len() - 1]));
        lemma_applied_shape(run(t, front), cs.last());
    }
}

/// Child lists and parent fields stay in agreement through any run in which
/// each command inserts only a node that stands in no child list.
pub proof fn lemma_run_links_consistent(t: Seq<NodeView>, cs: Seq<Command>)
    requires
        well_formed(t),
        links_consistent(t),
        runs(t, cs),
        inserts_only_unlisted(t, cs),
        t.len() + 2 * cs.len() <= usize::MAX,
    ensures
        links_consistent(run(t, cs)),
    decreases cs.len(),
{
    if cs.len() > 0 {
        let front = cs.drop_last();
        lemma_run_links_consistent(t, front);
        lemma_run_well_formed(t, front);
        lemma_applied_shape(run(t, front), cs.last());
    }
}

/// Attribute names stay unique through any run in which no element is
/// created with one name twice.
pub proof fn lemma_run_names_unique(t: Seq<NodeView>, cs: Seq<Command>)
    requires
        well_formed(t),
        names_unique(t),
        runs(t, cs),
        forall|k: int| 0 <= k < cs.len() ==> brings_distinct_names(#[trigger] cs[k]),
        t.len() + 2 * cs.len() <= usize::MAX,
    ensures
        names_unique(run(t, cs)),
    decreases cs.len(),
{
    if cs.len() > 0 {
        let front = cs.drop_last();
        assert forall|k: int| 0 <= k < front.len() implies brings_distinct_names(
            #[trigger] front[k],
        ) by {
            assert(front[k] == cs[k]);
        }
        lemma_run_names_unique(t, front);
        lemma_run_well_formed(t, front);
        assert(brings_distinct_names(cs[cs.len() - 1]));
        lemma_applied_shape(run(t, front), cs.last());
    }
}

/// After a run, a node is stale only if it was stale at the start or some
/// command of the run removed it from its parent.
pub proof fn lemma_run_stale_only_by_removal(t: Seq<NodeView>, cs: Seq<Command>, h: NodeHandle)
    requires
        well_formed(t),
        runs(t, cs),
        t.len() + 2 * cs.len() <= usize::MAX,
        within(run(t, cs), h),
        stale(run(t, cs), h),
    ensures
        (within(t, h) && stale(t, h)) || cs.contains(Command::RemoveFromParent { target: h }),
    decreases cs.len(),
{
    if cs.len() > 0 {
        let front = cs.drop_last();
        let before = run(t, front);
        lemma_run_well_formed(t, front);
        lemma_applied_shape(before, cs.last());
        if cs.last() == (Command::RemoveFromParent { target: h }) {
            assert(cs[cs.len() - 1] == cs.last());
        } else {
            lemma_run_stale_only_by_removal(t, front, h);
            if front.contains(Command::RemoveFromParent { target: h }) {
                let k = choose|k: int|
                    0 <= k < front.len() && front[k] == (Command::RemoveFromParent { target: h });
                assert(cs[k] == front[k]);
            }
        }
    }
}

/// Child lists and parent fields agree after any run from a new sink in which
/// each command inserts only a node that stands in no child list: a node with
/// a parent stands in its parent's child list exactly once, unless it is
/// stale.
pub proof fn lemma_run_parent_lists_child_once(cs: Seq<Command>, h: NodeHandle)
    requires
        runs(initial(), cs),
        inserts_only_unlisted(initial(), cs),
        1 + 2 * cs.len() <= usize::MAX,
        within(run(initial(), cs), h),
        run(initial(), cs)[h.0 as int].parent is Some,
        !stale(run(initial(), cs), h),
    ensures
        ({
            let t = run(initial(), cs);
            t[t[h.0 as int].parent.unwrap().0 as int].children.to_multiset().count(h) == 1
        }),
{
    lemma_initial_shape();
    lemma_run_well_formed(initial(), cs);
    lemma_run_links_consistent(initial(), cs);
    lemma_parent_lists_child_once(run(initial(), cs), h);
}

/// After any run from a new sink, a node that no command of the run removed
/// from its parent is not stale.
pub proof fn lemma_run_never_removed_is_not_stale(cs: Seq<Command>, h: NodeHandle)
    requires
        runs(initial(), cs),
        1 + 2 * cs.len() <= usize::MAX,
        within(run(initial(), cs), h),
        !cs.contains(Command::RemoveFromParent { target: h }),
    ensures
        !stale(run(initial(), cs), h),
{
    lemma_initial_shape();
    if stale(run(initial(), cs), h) {
        lemma_run_stale_only_by_removal(initial(), cs, h);
    }
}

} // verus!
