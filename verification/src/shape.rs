//! What holds of the tree whatever commands are issued: the root stays on top,
//! child lists and parent fields agree, and attribute names are unique. Each
//! edit of the model comes with the conditions under which it keeps these.

use vstd::prelude::*;
use crate::handle::NodeHandle;
use crate::name::AttributeView;
use crate::node::{NodeDataView, NodeView};
use crate::attrs::{lemma_merged_names_distinct, merged, names_distinct};
use crate::tree::{
    attrs_merged, attrs_of, children_moved, first_index, fresh, grown, inserted_before,
    lemma_first_index, linked_at, listed_under_parent, node_well_formed, unlisted, well_formed,
    with_children, within,
};

verus! {

/// Whether some child list of `t` names `h`.
pub open spec fn attached(t: Seq<NodeView>, h: NodeHandle) -> bool {
    exists|i: int| 0 <= i < t.len() && (#[trigger] t[i]).children.contains(h)
}

/// The root has no parent, and no child list names it.
pub open spec fn root_on_top(t: Seq<NodeView>) -> bool {
    &&& t[0].parent is None
    &&& !attached(t, NodeHandle(0))
}

/// Every entry of a child list names a node whose parent is the owner of that
/// list, and no child list names a node twice.
pub open spec fn links_consistent(t: Seq<NodeView>) -> bool {
    &&& forall|i: int, k: int|
        0 <= i < t.len() && 0 <= k < t[i].children.len() ==> t[(#[trigger] t[i].children[k]).0 as int].parent
            == Some(t[i].id)
    &&& forall|i: int| 0 <= i < t.len() ==> (#[trigger] t[i]).children.no_duplicates()
}

/// `h` has a parent whose child list does not name `h`. This is what removal
/// from a parent leaves behind.
pub open spec fn stale(t: Seq<NodeView>, h: NodeHandle) -> bool {
    t[h.0 as int].parent is Some && !listed_under_parent(t, h)
}

/// No element has two attributes of one name.
pub open spec fn names_unique(t: Seq<NodeView>) -> bool {
    forall|i: int| 0 <= i < t.len() ==> names_distinct(#[trigger] attrs_of(t[i]))
}

/// What an entry inserted into a list without it does to the list.
pub proof fn lemma_insert_distinct(s: Seq<NodeHandle>, at: int, x: NodeHandle)
    requires
        0 <= at <= s.len(),
    ensures
        forall|y: NodeHandle| s.insert(at, x).contains(y) <==> y == x || s.contains(y),
        s.no_duplicates() && !s.contains(x) ==> s.insert(at, x).no_duplicates(),
{
    let l = s.insert(at, x);
    assert forall|y: NodeHandle| l.contains(y) <==> y == x || s.contains(y) by {
        if s.contains(y) {
            let k = s.index_of(y);
            assert(l[if k < at { k } else { k + 1 }] == y);
        }
        if y == x {
            assert(l[at] == y);
        }
    }
    if s.no_duplicates() && !s.contains(x) {
        assert forall|i: int, j: int| 0 <= i < l.len() && 0 <= j < l.len() && i != j implies l[i]
            != l[j] by {
            if i != at {
                assert(l[i] == s[if i < at { i } else { i - 1 }]);
            }
            if j != at {
                assert(l[j] == s[if j < at { j } else { j - 1 }]);
            }
        }
    }
}

/// What an entry taken out of a list does to the list.
pub proof fn lemma_remove_distinct(s: Seq<NodeHandle>, at: int)
    requires
        0 <= at < s.len(),
    ensures
        forall|y: NodeHandle| s.remove(at).contains(y) ==> s.contains(y),
        forall|y: NodeHandle| y != s[at] && s.contains(y) ==> s.remove(at).contains(y),
        s.no_duplicates() ==> s.remove(at).no_duplicates() && !s.remove(at).contains(s[at]),
{
    let r = s.remove(at);
    assert forall|y: NodeHandle| y != s[at] && s.contains(y) implies r.contains(y) by {
        let k = s.index_of(y);
        assert(r[if k < at { k } else { k - 1 }] == y);
    }
}

/// In a consistent arena, a node that a child list names has the owner of
/// that list as its parent, stands in that list once, and in no other list.
pub proof fn lemma_listed_once(t: Seq<NodeView>, owner: NodeHandle, h: NodeHandle)
    requires
        well_formed(t),
        links_consistent(t),
        within(t, owner),
        t[owner.0 as int].children.contains(h),
    ensures
        t[h.0 as int].parent == Some(owner),
        t[owner.0 as int].children.to_multiset().count(h) == 1,
        forall|i: int| 0 <= i < t.len() && (#[trigger] t[i]).children.contains(h) ==> i == owner.0,
{
    let children = t[owner.0 as int].children;
    let k = choose|k: int| 0 <= k < children.len() && children[k] == h;
    assert(node_well_formed(t, owner.0 as int));
    assert(t[children[k].0 as int].parent == Some(t[owner.0 as int].id));
    children.to_multiset_ensures();
    children.lemma_multiset_has_no_duplicates();
    assert forall|i: int| 0 <= i < t.len() && (#[trigger] t[i]).children.contains(h) implies i
        == owner.0 by {
        let j = choose|j: int| 0 <= j < t[i].children.len() && t[i].children[j] == h;
        assert(t[t[i].children[j].0 as int].parent == Some(t[i].id));
        assert(node_well_formed(t, i));
    }
}

/// In a consistent arena, a node with a parent that is not stale stands in
/// its parent's child list exactly once.
pub proof fn lemma_parent_lists_child_once(t: Seq<NodeView>, h: NodeHandle)
    requires
        well_formed(t),
        links_consistent(t),
        within(t, h),
        t[h.0 as int].parent is Some,
        !stale(t, h),
    ensures
        t[t[h.0 as int].parent.unwrap().0 as int].children.to_multiset().count(h) == 1,
{
    assert(node_well_formed(t, h.0 as int));
    lemma_listed_once(t, t[h.0 as int].parent.unwrap(), h);
}

/// A new node changes nothing of the shape: the root stays on top, the links
/// stay consistent, the new node is in no list, and no node becomes stale.
/// Attribute names stay unique if those of the new node are.
pub proof fn lemma_grown_shape(t: Seq<NodeView>, data: NodeDataView)
    requires
        well_formed(t),
        t.len() <= usize::MAX,
    ensures
        root_on_top(t) ==> root_on_top(grown(t, data)),
        links_consistent(t) ==> links_consistent(grown(t, data)),
        names_unique(t) && names_distinct(attrs_of(fresh(t, data))) ==> names_unique(grown(t, data)),
        !attached(grown(t, data), NodeHandle(t.len() as usize)),
        forall|h: NodeHandle| attached(grown(t, data), h) <==> attached(t, h),
        forall|h: NodeHandle|
            within(grown(t, data), h) && stale(grown(t, data), h) ==> within(t, h) && stale(t, h),
{
    let g = grown(t, data);
    if names_unique(t) && names_distinct(attrs_of(fresh(t, data))) {
        assert forall|i: int| 0 <= i < g.len() implies names_distinct(#[trigger] attrs_of(g[i])) by {
            if i < t.len() {
                assert(names_distinct(attrs_of(t[i])));
            }
        }
    }
    assert forall|h: NodeHandle| attached(g, h) <==> attached(t, h) by {
        if attached(g, h) {
            let i = choose|i: int| 0 <= i < g.len() && (#[trigger] g[i]).children.contains(h);
            assert(i < t.len());
            assert(t[i].children.contains(h));
        }
        if attached(t, h) {
            let i = choose|i: int| 0 <= i < t.len() && (#[trigger] t[i]).children.contains(h);
            assert(g[i].children.contains(h));
        }
    }
    if attached(g, NodeHandle(t.len() as usize)) {
        let h = NodeHandle(t.len() as usize);
        let i = choose|i: int| 0 <= i < t.len() && (#[trigger] t[i]).children.contains(h);
        let k = choose|k: int| 0 <= k < t[i].children.len() && t[i].children[k] == h;
        assert(node_well_formed(t, i));
        assert(within(t, t[i].children[k]));
    }
    if links_consistent(t) {
        assert forall|i: int, k: int| 0 <= i < g.len() && 0 <= k < g[i].children.len() implies g[(
        #[trigger] g[i].children[k]).0 as int].parent == Some(g[i].id) by {
            assert(node_well_formed(t, i));
            assert(within(t, t[i].children[k]));
        }
    }
    assert forall|h: NodeHandle| within(g, h) && stale(g, h) implies within(t, h) && stale(t, h) by {
        assert(node_well_formed(t, h.0 as int));
    }
}

/// Linking `child` under `parent` lists `child` there. The root stays on top
/// unless `child` is the root; the links stay consistent if no list named
/// `child` before; and no node becomes stale.
pub proof fn lemma_linked_at_shape(t: Seq<NodeView>, parent: NodeHandle, at: int, child: NodeHandle)
    requires
        well_formed(t),
        within(t, parent),
        within(t, child),
        0 <= at <= t[parent.0 as int].children.len(),
    ensures
        listed_under_parent(linked_at(t, parent, at, child), child),
        root_on_top(t) && child != NodeHandle(0) ==> root_on_top(linked_at(t, parent, at, child)),
        links_consistent(t) && !attached(t, child) ==> links_consistent(
            linked_at(t, parent, at, child),
        ),
        names_unique(t) ==> names_unique(linked_at(t, parent, at, child)),
        forall|h: NodeHandle|
            attached(linked_at(t, parent, at, child), h) <==> h == child || attached(t, h),
        forall|h: NodeHandle|
            within(t, h) && stale(linked_at(t, parent, at, child), h) ==> stale(t, h),
{
    let l = linked_at(t, parent, at, child);
    let old_list = t[parent.0 as int].children;
    let new_list = old_list.insert(at, child);
    lemma_insert_distinct(old_list, at, child);
    assert(l[parent.0 as int].children == new_list);
    assert(node_well_formed(t, parent.0 as int));
    assert(node_well_formed(t, child.0 as int));
    assert(new_list[at] == child);
    if names_unique(t) {
        assert forall|i: int| 0 <= i < l.len() implies names_distinct(#[trigger] attrs_of(l[i])) by {
            assert(names_distinct(attrs_of(t[i])));
        }
    }
    assert forall|h: NodeHandle| attached(l, h) <==> h == child || attached(t, h) by {
        if attached(l, h) {
            let i = choose|i: int| 0 <= i < l.len() && (#[trigger] l[i]).children.contains(h);
            if i != parent.0 {
                assert(t[i].children.contains(h));
            } else if h != child {
                assert(t[i].children.contains(h));
            }
        }
        if attached(t, h) {
            let i = choose|i: int| 0 <= i < t.len() && (#[trigger] t[i]).children.contains(h);
            assert(l[i].children.contains(h));
        }
        if h == child {
            assert(l[parent.0 as int].children.contains(h));
        }
    }
    if links_consistent(t) && !attached(t, child) {
        assert forall|i: int, k: int| 0 <= i < l.len() && 0 <= k < l[i].children.len() implies l[(
        #[trigger] l[i].children[k]).0 as int].parent == Some(l[i].id) by {
            assert(node_well_formed(t, i));
            let e = l[i].children[k];
            if e != child {
                assert(l[i].children.contains(e));
                assert(t[i].children.contains(e));
                let j = choose|j: int| 0 <= j < t[i].children.len() && t[i].children[j] == e;
                assert(t[t[i].children[j].0 as int].parent == Some(t[i].id));
                assert(within(t, t[i].children[j]));
            } else {
                assert(l[i].children.contains(child));
                if i != parent.0 {
                    assert(t[i].children.contains(child));
                }
            }
        }
        assert forall|i: int| 0 <= i < l.len() implies (#[trigger] l[i]).children.no_duplicates() by {
            if i == parent.0 {
                assert(t[i].children.no_duplicates());
                assert(!t[i].children.contains(child));
            } else {
                assert(t[i].children.no_duplicates());
            }
        }
    }
    assert forall|h: NodeHandle| within(t, h) && stale(l, h) implies stale(t, h) by {
        if h == child {
            assert(l[parent.0 as int].children.contains(child));
        } else {
            let p = t[h.0 as int].parent.unwrap();
            assert(node_well_formed(t, h.0 as int));
            if t[p.0 as int].children.contains(h) {
                assert(l[p.0 as int].children.contains(h));
            }
        }
    }
}

/// Taking `target` out of its parent's list keeps the root on top and the
/// links consistent. In a consistent arena `target` is then in no list, and
/// stale: its parent field still names the old parent. Every other node is
/// stale after if and only if it was before.
pub proof fn lemma_unlisted_shape(t: Seq<NodeView>, target: NodeHandle)
    requires
        well_formed(t),
        within(t, target),
        listed_under_parent(t, target),
    ensures
        root_on_top(t) ==> root_on_top(unlisted(t, target)),
        links_consistent(t) ==> links_consistent(unlisted(t, target)),
        links_consistent(t) ==> !attached(unlisted(t, target), target) && stale(
            unlisted(t, target),
            target,
        ),
        names_unique(t) ==> names_unique(unlisted(t, target)),
        forall|h: NodeHandle| attached(unlisted(t, target), h) ==> attached(t, h),
        forall|h: NodeHandle| h != target && attached(t, h) ==> attached(unlisted(t, target), h),
        forall|h: NodeHandle|
            within(t, h) && h != target ==> (stale(unlisted(t, target), h) <==> stale(t, h)),
{
    assert(node_well_formed(t, target.0 as int));
    let u = unlisted(t, target);
    let parent = t[target.0 as int].parent.unwrap();
    let old_list = t[parent.0 as int].children;
    let at = first_index(old_list, target);
    lemma_first_index(old_list, target);
    lemma_remove_distinct(old_list, at);
    assert(u[parent.0 as int].children == old_list.remove(at));
    if names_unique(t) {
        assert forall|i: int| 0 <= i < u.len() implies names_distinct(#[trigger] attrs_of(u[i])) by {
            assert(names_distinct(attrs_of(t[i])));
        }
    }
    assert forall|h: NodeHandle| attached(u, h) implies attached(t, h) by {
        let i = choose|i: int| 0 <= i < u.len() && (#[trigger] u[i]).children.contains(h);
        assert(t[i].children.contains(h));
    }
    assert forall|h: NodeHandle| h != target && attached(t, h) implies attached(u, h) by {
        let i = choose|i: int| 0 <= i < t.len() && (#[trigger] t[i]).children.contains(h);
        assert(u[i].children.contains(h));
    }
    if links_consistent(t) {
        assert forall|i: int, k: int| 0 <= i < u.len() && 0 <= k < u[i].children.len() implies u[(
        #[trigger] u[i].children[k]).0 as int].parent == Some(u[i].id) by {
            let e = u[i].children[k];
            assert(node_well_formed(t, i));
            assert(u[i].children.contains(e));
            assert(t[i].children.contains(e));
            let j = choose|j: int| 0 <= j < t[i].children.len() && t[i].children[j] == e;
            assert(t[t[i].children[j].0 as int].parent == Some(t[i].id));
            assert(within(t, t[i].children[j]));
        }
        assert forall|i: int| 0 <= i < u.len() implies (#[trigger] u[i]).children.no_duplicates() by {
            assert(t[i].children.no_duplicates());
        }
        lemma_listed_once(t, parent, target);
        if attached(u, target) {
            let i = choose|i: int| 0 <= i < u.len() && (#[trigger] u[i]).children.contains(target);
            assert(t[i].children.contains(target));
        }
    }
    assert forall|h: NodeHandle| within(t, h) && h != target implies (stale(u, h) <==> stale(t, h)) by {
        assert(node_well_formed(t, h.0 as int));
    }
}

/// Moving the children of `from` behind those of `to` keeps the root on top
/// and the links consistent, and no node becomes stale. The same nodes are in
/// lists before and after.
pub proof fn lemma_children_moved_shape(t: Seq<NodeView>, from: NodeHandle, to: NodeHandle)
    requires
        well_formed(t),
        within(t, from),
        within(t, to),
    ensures
        root_on_top(t) ==> root_on_top(children_moved(t, from, to)),
        links_consistent(t) ==> links_consistent(children_moved(t, from, to)),
        names_unique(t) ==> names_unique(children_moved(t, from, to)),
        forall|h: NodeHandle| attached(children_moved(t, from, to), h) <==> attached(t, h),
        forall|h: NodeHandle|
            within(t, h) && stale(children_moved(t, from, to), h) ==> stale(t, h),
{
    let m = children_moved(t, from, to);
    let moved = t[from.0 as int].children;
    let emptied = with_children(t, from, Seq::empty());
    let kept = emptied[to.0 as int].children;
    assert(node_well_formed(t, from.0 as int));
    assert(node_well_formed(t, to.0 as int));
    assert(m[to.0 as int].children == kept + moved);
    assert forall|i: int| 0 <= i < t.len() implies (#[trigger] m[i]).id == t[i].id by {}
    if names_unique(t) {
        assert forall|i: int| 0 <= i < m.len() implies names_distinct(#[trigger] attrs_of(m[i])) by {
            assert(names_distinct(attrs_of(t[i])));
            assert(m[i].data == t[i].data);
        }
    }
    assert forall|i: int| 0 <= i < t.len() && i != to.0 && i != from.0 implies (#[trigger] m[i]).children
        == t[i].children by {}
    assert forall|h: NodeHandle| (kept + moved).contains(h) <==> kept.contains(h) || moved.contains(
        h,
    ) by {
        let both = kept + moved;
        if both.contains(h) {
            let k = choose|k: int| 0 <= k < both.len() && both[k] == h;
            if k < kept.len() {
                assert(kept[k] == h);
            } else {
                assert(moved[k - kept.len()] == h);
            }
        }
        if kept.contains(h) {
            let k = choose|k: int| 0 <= k < kept.len() && kept[k] == h;
            assert(both[k] == h);
        }
        if moved.contains(h) {
            let k = choose|k: int| 0 <= k < moved.len() && moved[k] == h;
            assert(both[kept.len() + k] == h);
        }
    }
    assert forall|h: NodeHandle| attached(m, h) <==> attached(t, h) by {
        if attached(m, h) {
            let i = choose|i: int| 0 <= i < m.len() && (#[trigger] m[i]).children.contains(h);
            if i == to.0 {
                if moved.contains(h) {
                    assert(t[from.0 as int].children.contains(h));
                } else {
                    assert(t[to.0 as int].children.contains(h));
                }
            } else if i != from.0 {
                assert(t[i].children.contains(h));
            }
        }
        if attached(t, h) {
            let i = choose|i: int| 0 <= i < t.len() && (#[trigger] t[i]).children.contains(h);
            if i == from.0 {
                assert(m[to.0 as int].children.contains(h));
            } else if i == to.0 {
                assert(kept.contains(h));
                assert(m[to.0 as int].children.contains(h));
            } else {
                assert(m[i].children.contains(h));
            }
        }
    }
    if root_on_top(t) {
        assert(!t[from.0 as int].children.contains(NodeHandle(0)));
        assert(node_well_formed(t, 0));
    }
    if links_consistent(t) {
        assert forall|i: int, k: int| 0 <= i < m.len() && 0 <= k < m[i].children.len() implies m[(
        #[trigger] m[i].children[k]).0 as int].parent == Some(m[i].id) by {
            let e = m[i].children[k];
            assert(node_well_formed(t, i));
            assert(m[i].children.contains(e));
            if moved.contains(e) {
                lemma_listed_once(t, from, e);
                assert(within(t, e));
                assert(m[e.0 as int].id == e) by {
                    assert(node_well_formed(t, e.0 as int));
                }
                if i != to.0 {
                    assert(i != from.0);
                    assert(t[i].children.contains(e));
                }
            } else {
                if i == to.0 {
                    assert(kept.contains(e));
                }
                assert(t[i].children.contains(e));
                let j = choose|j: int| 0 <= j < t[i].children.len() && t[i].children[j] == e;
                assert(t[t[i].children[j].0 as int].parent == Some(t[i].id));
                assert(within(t, t[i].children[j]));
                assert(m[e.0 as int].id == e) by {
                    assert(node_well_formed(t, e.0 as int));
                }
            }
        }
        assert forall|i: int| 0 <= i < m.len() implies (#[trigger] m[i]).children.no_duplicates() by {
            assert(t[i].children.no_duplicates());
            if i == to.0 {
                assert(t[from.0 as int].children.no_duplicates());
                assert forall|a: int, b: int| 0 <= a < kept.len() && 0 <= b < moved.len() implies kept[a]
                    != moved[b] by {
                    if kept[a] == moved[b] {
                        assert(moved.contains(kept[a]));
                        assert(t[to.0 as int].children.contains(kept[a]));
                        lemma_listed_once(t, from, kept[a]);
                    }
                }
                assert(kept.no_duplicates());
            }
        }
    }
    assert forall|h: NodeHandle| within(t, h) && stale(m, h) implies stale(t, h) by {
        assert(node_well_formed(t, h.0 as int));
        assert(m[h.0 as int].id == h);
        if moved.contains(h) {
            assert(m[to.0 as int].children.contains(h));
        } else {
            let p = t[h.0 as int].parent.unwrap();
            if t[p.0 as int].children.contains(h) {
                assert(p != from);
                if p == to {
                    assert(kept.contains(h));
                }
                assert(m[p.0 as int].children.contains(h));
            }
        }
    }
}

/// Merging attributes changes nothing of the shape, and leaves attribute
/// names unique where they were.
pub proof fn lemma_attrs_merged_shape(t: Seq<NodeView>, target: NodeHandle, incoming: Seq<AttributeView>)
    requires
        well_formed(t),
        within(t, target),
    ensures
        root_on_top(t) ==> root_on_top(attrs_merged(t, target, incoming)),
        links_consistent(t) ==> links_consistent(attrs_merged(t, target, incoming)),
        names_unique(t) ==> names_unique(attrs_merged(t, target, incoming)),
        t[target.0 as int].data is Element ==> attrs_of(
            attrs_merged(t, target, incoming)[target.0 as int],
        ) == merged(attrs_of(t[target.0 as int]), incoming),
        forall|h: NodeHandle| attached(attrs_merged(t, target, incoming), h) <==> attached(t, h),
        forall|h: NodeHandle|
            within(t, h) ==> (stale(attrs_merged(t, target, incoming), h) <==> stale(t, h)),
{
    let m = attrs_merged(t, target, incoming);
    if names_unique(t) {
        assert forall|i: int| 0 <= i < m.len() implies names_distinct(#[trigger] attrs_of(m[i])) by {
            assert(names_distinct(attrs_of(t[i])));
            if i == target.0 {
                lemma_merged_names_distinct(attrs_of(t[i]), incoming);
            }
        }
    }
    assert forall|i: int| 0 <= i < t.len() implies (#[trigger] m[i]).children == t[i].children
        && m[i].parent == t[i].parent && m[i].id == t[i].id by {}
    assert forall|h: NodeHandle| attached(m, h) <==> attached(t, h) by {
        if attached(m, h) {
            let i = choose|i: int| 0 <= i < m.len() && (#[trigger] m[i]).children.contains(h);
            assert(t[i].children.contains(h));
        }
        if attached(t, h) {
            let i = choose|i: int| 0 <= i < t.len() && (#[trigger] t[i]).children.contains(h);
            assert(m[i].children.contains(h));
        }
    }
    if links_consistent(t) {
        assert forall|i: int, k: int| 0 <= i < m.len() && 0 <= k < m[i].children.len() implies m[(
        #[trigger] m[i].children[k]).0 as int].parent == Some(m[i].id) by {
            assert(node_well_formed(t, i));
            assert(t[t[i].children[k].0 as int].parent == Some(t[i].id));
            assert(within(t, t[i].children[k]));
        }
        assert forall|i: int| 0 <= i < m.len() implies (#[trigger] m[i]).children.no_duplicates() by {
            assert(t[i].children.no_duplicates());
        }
    }
    assert forall|h: NodeHandle| within(t, h) implies (stale(m, h) <==> stale(t, h)) by {
        assert(node_well_formed(t, h.0 as int));
    }
}

/// Order is kept on insertion: the new entry stands just before the first
/// entry for `sibling`, and the list without the new entry is the list as it
/// was.
pub proof fn lemma_inserted_before_order(t: Seq<NodeView>, sibling: NodeHandle, child: NodeHandle)
    requires
        well_formed(t),
        within(t, sibling),
        within(t, child),
        listed_under_parent(t, sibling),
    ensures
        ({
            let parent = t[sibling.0 as int].parent.unwrap();
            let before = t[parent.0 as int].children;
            let at = first_index(before, sibling);
            let after = inserted_before(t, sibling, child)[parent.0 as int].children;
            &&& 0 <= at < before.len()
            &&& after.len() == before.len() + 1
            &&& after[at] == child
            &&& after[at + 1] == sibling
            &&& after.remove(at) == before
            &&& inserted_before(t, sibling, child)[child.0 as int].parent == Some(parent)
        }),
{
    assert(node_well_formed(t, sibling.0 as int));
    let parent = t[sibling.0 as int].parent.unwrap();
    let before = t[parent.0 as int].children;
    let at = first_index(before, sibling);
    lemma_first_index(before, sibling);
    let after = inserted_before(t, sibling, child)[parent.0 as int].children;
    assert(after == before.insert(at, child));
    assert(after[at + 1] == before[at]);
    assert(after.remove(at) =~= before);
}

/// Children are moved, not copied: where `from` and `to` differ, `from` has
/// no children left, the list of `to` ends with the children that `from`
/// had, in their order, and `to` is the parent of each of them.
pub proof fn lemma_children_moved_result(t: Seq<NodeView>, from: NodeHandle, to: NodeHandle)
    requires
        well_formed(t),
        within(t, from),
        within(t, to),
    ensures
        from != to ==> children_moved(t, from, to)[from.0 as int].children == Seq::<NodeHandle>::empty(),
        from != to ==> children_moved(t, from, to)[to.0 as int].children == t[to.0 as int].children
            + t[from.0 as int].children,
        from == to ==> children_moved(t, from, to)[to.0 as int].children == t[from.0 as int].children,
        forall|k: int|
            0 <= k < t[from.0 as int].children.len() ==> children_moved(t, from, to)[(
            #[trigger] t[from.0 as int].children[k]).0 as int].parent == Some(to),
        forall|i: int|
            0 <= i < t.len() && !t[from.0 as int].children.contains(NodeHandle(i as usize))
                ==> (#[trigger] children_moved(t, from, to)[i]).parent == t[i].parent,
        forall|i: int|
            0 <= i < t.len() && i != from.0 && i != to.0 ==> (#[trigger] children_moved(
                t,
                from,
                to,
            )[i]).children == t[i].children,
        forall|i: int|
            0 <= i < t.len() ==> (#[trigger] children_moved(t, from, to)[i]).data == t[i].data
                && children_moved(t, from, to)[i].id == t[i].id,
{
    let m = children_moved(t, from, to);
    let moved = t[from.0 as int].children;
    assert(node_well_formed(t, from.0 as int));
    if from == to {
        assert(m[to.0 as int].children =~= moved);
    } else {
        assert(m[to.0 as int].children =~= t[to.0 as int].children + moved);
    }
    assert forall|k: int| 0 <= k < moved.len() implies m[(#[trigger] moved[k]).0 as int].parent
        == Some(to) by {
        assert(within(t, moved[k]));
        assert(node_well_formed(t, moved[k].0 as int));
        assert(moved.contains(moved[k]));
    }
    assert forall|i: int|
        0 <= i < t.len() && !moved.contains(NodeHandle(i as usize)) implies (#[trigger] m[i]).parent
        == t[i].parent by {
        assert(node_well_formed(t, i));
    }
}

} // verus!
