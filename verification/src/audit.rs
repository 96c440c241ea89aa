//! Run-time tests of what should hold of the tree's shape.

use vstd::prelude::*;
use crate::arena::FlatSink;
use crate::attrs::names_distinct;
use crate::handle::NodeHandle;
use crate::name::{attrs_view, Attribute, AttributeView};
use crate::node::NodeData;
use crate::shape::{links_consistent, names_unique, root_on_top};
use crate::sink::position;
use crate::tree::{attrs_of, lemma_first_index, node_well_formed, within};

verus! {

impl FlatSink {
    /// Whether the root is the first node and the arena is well formed: the
    /// run-time test of what the commands require.
    pub fn is_well_formed(&self) -> (ok: bool)
        ensures
            ok == self.wf(),
    {
        let n = self.nodes.len();
        if self.root.0 != 0 || n == 0 {
            return false;
        }
        match &self.nodes[0].data {
            NodeData::Document => {},
            _ => {
                return false;
            },
        }
        let mut i: usize = 0;
        while i < n
            invariant
                i <= n,
                n == self.nodes.len(),
                forall|j: int| 0 <= j < i ==> #[trigger] node_well_formed(self@, j),
            decreases n - i,
        {
            let node = &self.nodes[i];
            if node.id.0 != i {
                assert(!node_well_formed(self@, i as int));
                return false;
            }
            match node.parent {
                Some(p) => {
                    if p.0 >= n {
                        assert(!node_well_formed(self@, i as int));
                        return false;
                    }
                },
                None => {},
            }
            let mut k: usize = 0;
            while k < node.children.len()
                invariant
                    k <= node.children.len(),
                    i < n,
                    n == self.nodes.len(),
                    *node == self.nodes[i as int],
                    forall|m: int| 0 <= m < k ==> within(self@, #[trigger] node.children@[m]),
                decreases node.children.len() - k,
            {
                if node.children[k].0 >= n {
                    assert(!within(self@, self@[i as int].children[k as int]));
                    assert(!node_well_formed(self@, i as int));
                    return false;
                }
                k += 1;
            }
            assert(node_well_formed(self@, i as int));
            i += 1;
        }
        true
    }

    /// Whether the root has no parent and no child list names it.
    pub fn root_is_on_top(&self) -> (ok: bool)
        requires
            self.wf(),
        ensures
            ok == root_on_top(self@),
    {
        if self.nodes[0].parent.is_some() {
            return false;
        }
        let root = NodeHandle(0);
        let mut i: usize = 0;
        while i < self.nodes.len()
            invariant
                i <= self.nodes.len(),
                root == NodeHandle(0),
                forall|j: int| 0 <= j < i ==> !(#[trigger] self@[j]).children.contains(root),
            decreases self.nodes.len() - i,
        {
            if position(&self.nodes[i].children, &root).is_some() {
                assert(self@[i as int].children.contains(root));
                return false;
            }
            i += 1;
        }
        true
    }

    /// Whether every entry of a child list names a node whose parent is the
    /// owner of the list, and no child list names a node twice.
    pub fn links_are_consistent(&self) -> (ok: bool)
        requires
            self.wf(),
        ensures
            ok == links_consistent(self@),
    {
        let mut i: usize = 0;
        while i < self.nodes.len()
            invariant
                i <= self.nodes.len(),
                self.wf(),
                forall|j: int, k: int|
                    0 <= j < i && 0 <= k < self@[j].children.len() ==> self@[(
                    #[trigger] self@[j].children[k]).0 as int].parent == Some(self@[j].id),
                forall|j: int| 0 <= j < i ==> (#[trigger] self@[j]).children.no_duplicates(),
            decreases self.nodes.len() - i,
        {
            let node = &self.nodes[i];
            proof {
                assert(node_well_formed(self@, i as int));
            }
            let mut k: usize = 0;
            while k < node.children.len()
                invariant
                    k <= node.children.len(),
                    i < self.nodes.len(),
                    self.wf(),
                    *node == self.nodes[i as int],
                    forall|m: int|
                        0 <= m < k ==> self@[(#[trigger] node.children@[m]).0 as int].parent == Some(
                            node.id,
                        ),
                    forall|a: int, b: int| 0 <= a < b < k ==> node.children@[a] != node.children@[b],
                decreases node.children.len() - k,
            {
                let child = node.children[k];
                proof {
                    assert(node_well_formed(self@, i as int));
                    assert(self@[i as int].children[k as int] == child);
                    lemma_first_index(node.children@, child);
                }
                let points_back = match self.nodes[child.0].parent {
                    Some(p) => p.0 == node.id.0,
                    None => false,
                };
                if !points_back {
                    assert(self@[self@[i as int].children[k as int].0 as int].parent != Some(
                        self@[i as int].id,
                    ));
                    return false;
                }
                match position(&node.children, &child) {
                    Some(first) => {
                        if first != k {
                            assert(self@[i as int].children[first as int] == self@[i as int].children[k as int]);
                            assert(!self@[i as int].children.no_duplicates());
                            return false;
                        }
                    },
                    None => {},
                }
                k += 1;
            }
            i += 1;
        }
        true
    }

    /// Whether no element has two attributes of one name.
    pub fn names_are_unique(&self) -> (ok: bool)
        ensures
            ok == names_unique(self@),
    {
        let mut i: usize = 0;
        while i < self.nodes.len()
            invariant
                i <= self.nodes.len(),
                forall|j: int| 0 <= j < i ==> names_distinct(#[trigger] attrs_of(self@[j])),
            decreases self.nodes.len() - i,
        {
            match &self.nodes[i].data {
                NodeData::Element { attrs, .. } => {
                    assert(attrs_of(self@[i as int]) == attrs_view(attrs@));
                    if !distinct_names(attrs) {
                        return false;
                    }
                },
                _ => {
                    assert(attrs_of(self@[i as int]) == Seq::<AttributeView>::empty());
                },
            }
            i += 1;
        }
        true
    }
}

/// Whether no two attributes of `attrs` share a name.
pub fn distinct_names(attrs: &Vec<Attribute>) -> (ok: bool)
    ensures
        ok == names_distinct(attrs_view(attrs@)),
{
    let ghost views = attrs_view(attrs@);
    let mut k: usize = 0;
    while k < attrs.len()
        invariant
            k <= attrs.len(),
            views == attrs_view(attrs@),
            forall|a: int, b: int|
                0 <= a < b < k ==> (#[trigger] views[a]).name != (#[trigger] views[b]).name,
        decreases attrs.len() - k,
    {
        let mut j: usize = 0;
        while j < k
            invariant
                j <= k < attrs.len(),
                views == attrs_view(attrs@),
                forall|a: int| 0 <= a < j ==> (#[trigger] views[a]).name != views[k as int].name,
            decreases k - j,
        {
            if attrs[j].name.same_as(&attrs[k].name) {
                assert(views[j as int].name == views[k as int].name);
                return false;
            }
            j += 1;
        }
        k += 1;
    }
    true
}

} // verus!
