//! The snapshot tree model: an arena of nodes with parent back-links.

use vstd::prelude::*;

verus! {

/// The kind tag carried by every snapshot node. A `Container` that carries a
/// window handle is an actual window; one without is a pure layout split.
#[derive(Clone, Copy, PartialEq, Eq, Structural, Debug)]
pub enum NodeKind {
    Root,
    Output,
    Workspace,
    Container,
    DockArea,
    FloatingContainer,
}

/// Node geometry (position and size), opaque to the navigation algorithms.
#[derive(Clone, Copy, Debug)]
pub struct Rect {
    pub x: i32,
    pub y: i32,
    pub width: i32,
    pub height: i32,
}

/// One snapshot node, stored in the arena of a [`Tree`]. `children` holds
/// arena indices in the order the manager supplied them; `parent` is the
/// arena index of the enclosing node, absent only for the root.
#[derive(Debug)]
pub struct Node {
    pub id: i64,
    pub kind: NodeKind,
    pub name: Option<String>,
    pub rect: Rect,
    pub focused: bool,
    pub window_handle: Option<i32>,
    pub children: Vec<usize>,
    pub parent: Option<usize>,
}

/// One whole layout snapshot: an arena of nodes. Index 0 is the root, and a
/// child's arena index is strictly greater than its parent's, so downward
/// walks as well as upward walks have an explicit, decreasing measure.
pub struct Tree {
    pub nodes: Vec<Node>,
}

/// The two nodes agree on every field except the child list.
pub open spec fn same_but_children(a: Node, b: Node) -> bool {
    &&& a.id == b.id
    &&& a.kind == b.kind
    &&& a.name == b.name
    &&& a.rect == b.rect
    &&& a.focused == b.focused
    &&& a.window_handle == b.window_handle
    &&& a.parent == b.parent
}

impl Tree {
    pub open spec fn count(self) -> nat {
        self.nodes@.len()
    }

    pub open spec fn kids(self, i: usize) -> Seq<usize> {
        self.nodes@[i as int].children@
    }

    pub open spec fn nkids(self, i: usize) -> nat {
        self.kids(i).len()
    }

    pub open spec fn kid(self, i: usize, k: int) -> usize {
        self.kids(i)[k]
    }

    pub open spec fn parent_of(self, i: usize) -> Option<usize> {
        self.nodes@[i as int].parent
    }

    pub open spec fn kind_of(self, i: usize) -> NodeKind {
        self.nodes@[i as int].kind
    }

    /// A node is an actual window iff it is a `Container` carrying a handle.
    pub open spec fn is_window(self, i: usize) -> bool {
        self.kind_of(i) is Container && self.nodes@[i as int].window_handle is Some
    }

    pub open spec fn is_focused(self, i: usize) -> bool {
        self.nodes@[i as int].focused
    }

    /// The `k`-th child link of node `i` points strictly downward, stays in
    /// bounds, and the child points back at `i`.
    pub open spec fn child_ok(self, i: usize, k: int) -> bool {
        let c = self.kid(i, k);
        &&& i < c
        &&& c < self.count()
        &&& self.parent_of(c) == Some(i)
    }

    /// Every child link of node `i` is sound and no child is listed twice.
    pub open spec fn node_ok(self, i: usize) -> bool {
        &&& forall|k: int| 0 <= k < self.nkids(i) ==> self.child_ok(i, k)
        &&& forall|k1: int, k2: int|
            0 <= k1 < k2 < self.nkids(i) ==> self.kid(i, k1) != self.kid(i, k2)
    }

    /// A non-root node's parent link points strictly upward and the parent's
    /// child list contains the node.
    pub open spec fn parent_ok(self, j: usize) -> bool {
        match self.parent_of(j) {
            Some(p) => p < j && self.kids(p).contains(j),
            None => false,
        }
    }

    /// Well-formed arena: one tree rooted at index 0, parent links and child
    /// lists mutually consistent, all child indices above their parent's.
    pub open spec fn wf(self) -> bool {
        &&& self.count() >= 1
        &&& self.parent_of(0) is None
        &&& forall|j: usize| 1 <= j < self.count() ==> #[trigger] self.parent_ok(j)
        &&& forall|i: usize| i < self.count() ==> #[trigger] self.node_ok(i)
    }

    /// The ordered child list of node `i`, exactly as the manager supplied it.
    pub fn children(&self, i: usize) -> (r: &Vec<usize>)
        requires
            i < self.count(),
        ensures
            r@ == self.kids(i),
    {
        &self.nodes[i].children
    }

    /// The parent of node `i`, absent only for the root.
    pub fn parent(&self, i: usize) -> (r: Option<usize>)
        requires
            i < self.count(),
        ensures
            r == self.parent_of(i),
    {
        self.nodes[i].parent
    }

    /// Create a snapshot holding only a root node with the given data.
    pub fn new(
        id: i64,
        kind: NodeKind,
        name: Option<String>,
        rect: Rect,
        focused: bool,
        window_handle: Option<i32>,
    ) -> (t: Tree)
        ensures
            t.wf(),
            t.count() == 1,
            t.nodes@[0].id == id,
            t.nodes@[0].kind == kind,
            t.nodes@[0].name == name,
            t.nodes@[0].rect == rect,
            t.nodes@[0].focused == focused,
            t.nodes@[0].window_handle == window_handle,
            t.nodes@[0].children@ == Seq::<usize>::empty(),
            t.nodes@[0].parent is None,
    {
        let root = Node {
            id,
            kind,
            name,
            rect,
            focused,
            window_handle,
            children: Vec::new(),
            parent: None,
        };
        let mut nodes: Vec<Node> = Vec::new();
        nodes.push(root);
        let t = Tree { nodes };
        proof {
            assert(t.nodes@[0].children@ =~= Seq::<usize>::empty());
            assert forall|i: usize| i < t.count() implies #[trigger] t.node_ok(i) by {
                assert(t.nkids(i) == 0);
            }
        }
        t
    }

    /// Append a new node carrying the given data as the last child of
    /// `parent`, and return its arena index. Child order is meaningful, so the
    /// new node comes after every child `parent` already had.
    pub fn add_child(
        &mut self,
        parent: usize,
        id: i64,
        kind: NodeKind,
        name: Option<String>,
        rect: Rect,
        focused: bool,
        window_handle: Option<i32>,
    ) -> (idx: usize)
        requires
            old(self).wf(),
            parent < old(self).count(),
        ensures
            final(self).wf(),
            idx == old(self).count(),
            final(self).count() == old(self).count() + 1,
            final(self).nodes@[idx as int].id == id,
            final(self).nodes@[idx as int].kind == kind,
            final(self).nodes@[idx as int].name == name,
            final(self).nodes@[idx as int].rect == rect,
            final(self).nodes@[idx as int].focused == focused,
            final(self).nodes@[idx as int].window_handle == window_handle,
            final(self).nodes@[idx as int].children@ == Seq::<usize>::empty(),
            final(self).nodes@[idx as int].parent == Some(parent),
            final(self).kids(parent) == old(self).kids(parent).push(idx),
            same_but_children(final(self).nodes@[parent as int], old(self).nodes@[parent as int]),
            forall|j: int|
                0 <= j < old(self).count() && j != parent ==> final(self).nodes@[j]
                    == old(self).nodes@[j],
    {
        let idx = self.nodes.len();
        let child = Node {
            id,
            kind,
            name,
            rect,
            focused,
            window_handle,
            children: Vec::new(),
            parent: Some(parent),
        };
        self.nodes.push(child);
        self.nodes[parent].children.push(idx);
        proof {
            let pre = *old(self);
            let post = *self;
            assert(post.count() == pre.count() + 1);
            assert(post.nodes@[idx as int].parent == Some(parent));
            assert(forall|j: int|
                0 <= j < pre.count() && j != parent ==> post.nodes@[j] == pre.nodes@[j]);
            assert(same_but_children(post.nodes@[parent as int], pre.nodes@[parent as int]));
            assert(post.nodes@[idx as int].children@ =~= Seq::<usize>::empty());
            assert(post.kids(parent) =~= pre.kids(parent).push(idx));
            assert forall|j: usize| 1 <= j < post.count() implies #[trigger] post.parent_ok(j) by {
                if j == idx {
                    assert(post.kids(parent)[post.kids(parent).len() - 1] == idx);
                    assert(post.kids(parent).contains(j));
                } else {
                    assert(pre.parent_ok(j));
                    let p = pre.parent_of(j)->Some_0;
                    assert(post.parent_of(j) == pre.parent_of(j));
                    let k = choose|k: int| 0 <= k < pre.kids(p).len() && pre.kids(p)[k] == j;
                    if p == parent {
                        assert(post.kids(p)[k] == j);
                    } else {
                        assert(post.kids(p) == pre.kids(p));
                    }
                    assert(post.kids(p).contains(j));
                }
            }
            assert forall|i: usize| i < post.count() implies #[trigger] post.node_ok(i) by {
                if i == idx {
                    assert(post.nkids(i) == 0);
                } else {
                    assert(pre.node_ok(i));
                    if i == parent {
                        assert forall|k: int| 0 <= k < post.nkids(i) implies post.child_ok(i, k) by {
                            if k < pre.nkids(i) {
                                assert(pre.child_ok(i, k));
                                let c = pre.kid(i, k);
                                assert(post.parent_of(c) == pre.parent_of(c));
                            } else {
                                assert(post.kid(i, k) == idx);
                            }
                        }
                        assert forall|k1: int, k2: int|
                            0 <= k1 < k2 < post.nkids(i) implies post.kid(i, k1) != post.kid(
                            i,
                            k2,
                        ) by {
                            if k2 < pre.nkids(i) {
                                assert(pre.kid(i, k1) != pre.kid(i, k2));
                            } else {
                                assert(pre.child_ok(i, k1));
                                assert(post.kid(i, k1) < pre.count());
                                assert(post.kid(i, k2) == idx);
                            }
                        }
                    } else {
                        assert(post.kids(i) == pre.kids(i));
                        assert forall|k: int| 0 <= k < post.nkids(i) implies post.child_ok(i, k) by {
                            assert(pre.child_ok(i, k));
                            let c = pre.kid(i, k);
                            assert(post.parent_of(c) == pre.parent_of(c));
                        }
                        assert forall|k1: int, k2: int|
                            0 <= k1 < k2 < post.nkids(i) implies post.kid(i, k1) != post.kid(
                            i,
                            k2,
                        ) by {
                            assert(pre.kid(i, k1) != pre.kid(i, k2));
                        }
                    }
                }
            }
        }
        idx
    }
}

} // verus!
