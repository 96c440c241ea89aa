//! The mathematical model of the arena: a sequence of node views, indexed by
//! handle, and the tree edits as functions on such sequences.

use vstd::prelude::*;
use crate::handle::NodeHandle;
use crate::name::AttributeView;
use crate::node::{NodeDataView, NodeView};
use crate::attrs::merged;

verus! {

/// Whether `h` names a node of `t`.
pub open spec fn within(t: Seq<NodeView>, h: NodeHandle) -> bool {
    (h.0 as int) < t.len()
}

/// Node `i` carries its own position as its handle, and its parent and
/// children name nodes of `t`.
pub open spec fn node_well_formed(t: Seq<NodeView>, i: int) -> bool {
    &&& t[i].id.0 == i
    &&& (t[i].parent matches Some(p) ==> within(t, p))
    &&& forall|k: int| 0 <= k < t[i].children.len() ==> within(t, #[trigger] t[i].children[k])
}

/// The arena is not empty, its first node is a document, and every node is
/// well formed.
pub open spec fn well_formed(t: Seq<NodeView>) -> bool {
    &&& t.len() >= 1
    &&& t[0].data is Document
    &&& forall|i: int| 0 <= i < t.len() ==> #[trigger] node_well_formed(t, i)
}

/// Whether `h` has a parent whose child list names `h`.
pub open spec fn listed_under_parent(t: Seq<NodeView>, h: NodeHandle) -> bool {
    t[h.0 as int].parent matches Some(p) && t[p.0 as int].children.contains(h)
}

/// The position of the first entry of `s` that equals `h`, or the length of
/// `s` where there is none.
pub open spec fn first_index(s: Seq<NodeHandle>, h: NodeHandle) -> int
    decreases s.len(),
{
    if s.len() == 0 {
        0
    } else if s[0] == h {
        0
    } else {
        1 + first_index(s.drop_first(), h)
    }
}

/// The attributes of a node: those that an element carries, and none for
/// any other kind.
pub open spec fn attrs_of(node: NodeView) -> Seq<AttributeView> {
    match node.data {
        NodeDataView::Element { attrs, .. } => attrs,
        _ => Seq::empty(),
    }
}

/// A node with no parent and no children, placed at the end of `t`.
pub open spec fn fresh(t: Seq<NodeView>, data: NodeDataView) -> NodeView {
    NodeView { id: NodeHandle(t.len() as usize), parent: None, children: Seq::empty(), data }
}

/// `t` with one more node, which holds `data`.
pub open spec fn grown(t: Seq<NodeView>, data: NodeDataView) -> Seq<NodeView> {
    t.push(fresh(t, data))
}

/// `t` with the child list of `owner` replaced.
pub open spec fn with_children(t: Seq<NodeView>, owner: NodeHandle, children: Seq<NodeHandle>) -> Seq<
    NodeView,
> {
    t.update(owner.0 as int, NodeView { children, ..t[owner.0 as int] })
}

/// `t` with the parent field of `h` replaced.
pub open spec fn with_parent(t: Seq<NodeView>, h: NodeHandle, parent: Option<NodeHandle>) -> Seq<
    NodeView,
> {
    t.update(h.0 as int, NodeView { parent, ..t[h.0 as int] })
}

/// `child` entered at position `at` of `parent`'s child list, and `parent`
/// recorded as its parent.
pub open spec fn linked_at(t: Seq<NodeView>, parent: NodeHandle, at: int, child: NodeHandle) -> Seq<
    NodeView,
> {
    with_parent(
        with_children(t, parent, t[parent.0 as int].children.insert(at, child)),
        child,
        Some(parent),
    )
}

/// `child` made the last child of `parent`.
pub open spec fn appended(t: Seq<NodeView>, parent: NodeHandle, child: NodeHandle) -> Seq<NodeView> {
    linked_at(t, parent, t[parent.0 as int].children.len() as int, child)
}

/// `child` made the sibling just before `sibling`, under `sibling`'s parent.
pub open spec fn inserted_before(t: Seq<NodeView>, sibling: NodeHandle, child: NodeHandle) -> Seq<
    NodeView,
> {
    let parent = t[sibling.0 as int].parent.unwrap();
    linked_at(t, parent, first_index(t[parent.0 as int].children, sibling), child)
}

/// The first entry for `target` taken out of its parent's child list. The
/// parent field of `target` stays as it is.
pub open spec fn unlisted(t: Seq<NodeView>, target: NodeHandle) -> Seq<NodeView> {
    let parent = t[target.0 as int].parent.unwrap();
    let children = t[parent.0 as int].children;
    with_children(t, parent, children.remove(first_index(children, target)))
}

/// The children of `from` moved, in order, behind the children of `to`, and
/// `to` recorded as the parent of each.
pub open spec fn children_moved(t: Seq<NodeView>, from: NodeHandle, to: NodeHandle) -> Seq<NodeView> {
    let moved = t[from.0 as int].children;
    let emptied = with_children(t, from, Seq::empty());
    let filled = with_children(emptied, to, emptied[to.0 as int].children + moved);
    Seq::new(
        t.len(),
        |i: int|
            if moved.contains(filled[i].id) {
                NodeView { parent: Some(to), ..filled[i] }
            } else {
                filled[i]
            },
    )
}

/// The attributes of element `target` merged with `incoming`.
pub open spec fn attrs_merged(t: Seq<NodeView>, target: NodeHandle, incoming: Seq<AttributeView>) -> Seq<
    NodeView,
> {
    let node = t[target.0 as int];
    match node.data {
        NodeDataView::Element {
            name,
            attrs,
            template_contents,
            mathml_annotation_xml_integration_point,
        } => t.update(
            target.0 as int,
            NodeView {
                data: NodeDataView::Element {
                    name,
                    attrs: merged(attrs, incoming),
                    template_contents,
                    mathml_annotation_xml_integration_point,
                },
                ..node
            },
        ),
        _ => t,
    }
}

/// Where `first_index` points: at the first entry that equals `h`, if there
/// is one.
pub proof fn lemma_first_index(s: Seq<NodeHandle>, h: NodeHandle)
    ensures
        0 <= first_index(s, h) <= s.len(),
        first_index(s, h) < s.len() <==> s.contains(h),
        first_index(s, h) < s.len() ==> s[first_index(s, h)] == h,
        forall|j: int| 0 <= j < first_index(s, h) ==> s[j] != h,
    decreases s.len(),
{
    if s.len() == 0 {
    } else if s[0] == h {
    } else {
        let rest = s.drop_first();
        lemma_first_index(rest, h);
        let i = first_index(rest, h);
        if i < rest.len() {
            assert(s[i + 1] == rest[i]);
        }
        if s.contains(h) {
            let k = choose|k: int| 0 <= k < s.len() && s[k] == h;
            assert(rest[k - 1] == h);
        }
        assert forall|j: int| 0 <= j < 1 + i implies s[j] != h by {
            if j > 0 {
                assert(rest[j - 1] == s[j]);
            }
        }
    }
}

/// An entry that equals `h` and has none before it is the first.
pub proof fn lemma_first_index_unique(s: Seq<NodeHandle>, h: NodeHandle, i: int)
    requires
        0 <= i < s.len(),
        s[i] == h,
        forall|j: int| 0 <= j < i ==> s[j] != h,
    ensures
        first_index(s, h) == i,
{
    lemma_first_index(s, h);
}

/// Growing a well-formed arena leaves it well formed.
pub proof fn lemma_grown_well_formed(t: Seq<NodeView>, data: NodeDataView)
    requires
        well_formed(t),
        t.len() <= usize::MAX,
    ensures
        well_formed(grown(t, data)),
{
    let g = grown(t, data);
    assert forall|i: int| 0 <= i < g.len() implies #[trigger] node_well_formed(g, i) by {
        if i < t.len() {
            assert(node_well_formed(t, i));
        }
    }
}

/// Linking two nodes of a well-formed arena leaves it well formed.
pub proof fn lemma_linked_at_well_formed(t: Seq<NodeView>, parent: NodeHandle, at: int, child: NodeHandle)
    requires
        well_formed(t),
        within(t, parent),
        within(t, child),
        0 <= at <= t[parent.0 as int].children.len(),
    ensures
        well_formed(linked_at(t, parent, at, child)),
{
    let l = linked_at(t, parent, at, child);
    assert forall|i: int| 0 <= i < l.len() implies #[trigger] node_well_formed(l, i) by {
        assert(node_well_formed(t, i));
    }
}

/// Taking an entry out of a child list leaves a well-formed arena well formed.
pub proof fn lemma_unlisted_well_formed(t: Seq<NodeView>, target: NodeHandle)
    requires
        well_formed(t),
        within(t, target),
        listed_under_parent(t, target),
    ensures
        well_formed(unlisted(t, target)),
{
    let u = unlisted(t, target);
    let parent = t[target.0 as int].parent.unwrap();
    let children = t[parent.0 as int].children;
    let at = first_index(children, target);
    lemma_first_index(children, target);
    assert(node_well_formed(t, target.0 as int));
    assert forall|i: int| 0 <= i < u.len() implies #[trigger] node_well_formed(u, i) by {
        assert(node_well_formed(t, i));
        if i == parent.0 {
            assert forall|k: int| 0 <= k < u[i].children.len() implies within(
                u,
                #[trigger] u[i].children[k],
            ) by {
                if k < at {
                    assert(u[i].children[k] == children[k]);
                } else {
                    assert(u[i].children[k] == children[k + 1]);
                }
            }
        }
    }
}

/// Moving children leaves a well-formed arena well formed.
pub proof fn lemma_children_moved_well_formed(t: Seq<NodeView>, from: NodeHandle, to: NodeHandle)
    requires
        well_formed(t),
        within(t, from),
        within(t, to),
    ensures
        well_formed(children_moved(t, from, to)),
{
    let m = children_moved(t, from, to);
    assert(node_well_formed(t, from.0 as int));
    assert forall|i: int| 0 <= i < m.len() implies #[trigger] node_well_formed(m, i) by {
        assert(node_well_formed(t, i));
    }
}

/// Merging attributes leaves a well-formed arena well formed.
pub proof fn lemma_attrs_merged_well_formed(
    t: Seq<NodeView>,
    target: NodeHandle,
    incoming: Seq<AttributeView>,
)
    requires
        well_formed(t),
        within(t, target),
    ensures
        well_formed(attrs_merged(t, target, incoming)),
{
    let m = attrs_merged(t, target, incoming);
    assert forall|i: int| 0 <= i < m.len() implies #[trigger] node_well_formed(m, i) by {
        assert(node_well_formed(t, i));
    }
}

} // verus!
