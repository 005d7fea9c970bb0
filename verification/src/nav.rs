//! The navigation algorithms over one snapshot: focused-node lookup,
//! ancestor-of-kind lookup, leaf-window enumeration, and the ordered
//! previous/next-window search. Downward walks use an explicit work stack
//! (last in, first out) so that document order is preserved on pop without
//! unbounded call-stack depth; upward walks follow the parent chain, whose
//! strictly decreasing arena indices make termination explicit.

use vstd::prelude::*;

use crate::order::ancestor_of_kind;
use crate::order::ff_stack;
use crate::order::first_focused;
use crate::order::focused_from;
use crate::order::lemma_ff_stack_push;
use crate::order::lemma_stack_size_push;
use crate::order::lemma_windows_head;
use crate::order::lemma_windows_in_range;
use crate::order::lemma_ws_stack_push;
use crate::order::next_window_spec;
use crate::order::opt_or;
use crate::order::prev_window_spec;
use crate::order::size;
use crate::order::size_from;
use crate::order::stack_size;
use crate::order::windows;
use crate::order::windows_from;
use crate::order::ws_stack;
use crate::tree::NodeKind;
use crate::tree::Tree;

verus! {

impl Tree {
    /// Executable form of the window test: a container with a handle.
    pub fn node_is_window(&self, i: usize) -> (r: bool)
        requires
            i < self.count(),
        ensures
            r == self.is_window(i),
    {
        match self.nodes[i].kind {
            NodeKind::Container => self.nodes[i].window_handle.is_some(),
            _ => false,
        }
    }

    /// Push the children of `i`, last child first, so that a stack walk pops
    /// them in snapshot order.
    #[verifier::loop_isolation(false)]
    fn push_children_reversed(&self, i: usize, stack: &mut Vec<usize>)
        requires
            self.wf(),
            i < self.count(),
            forall|q: int| 0 <= q < old(stack)@.len() ==> old(stack)@[q] < self.count(),
        ensures
            forall|q: int| 0 <= q < final(stack)@.len() ==> final(stack)@[q] < self.count(),
            ws_stack(*self, final(stack)@) == windows_from(*self, i, 0) + ws_stack(
                *self,
                old(stack)@,
            ),
            ff_stack(*self, final(stack)@) == opt_or(
                focused_from(*self, i, 0),
                ff_stack(*self, old(stack)@),
            ),
            stack_size(*self, final(stack)@) == size_from(*self, i, 0) + stack_size(
                *self,
                old(stack)@,
            ),
    {
        let ghost base = stack@;
        let ch_len = self.nodes[i].children.len();
        proof {
            assert(windows_from(*self, i, ch_len as int) == Seq::<usize>::empty());
            assert(Seq::<usize>::empty() + ws_stack(*self, base) =~= ws_stack(*self, base));
            assert(focused_from(*self, i, ch_len as int) is None);
            assert(size_from(*self, i, ch_len as int) == 0);
        }
        let mut m = ch_len;
        while m > 0
            invariant
                m <= ch_len,
                forall|q: int| 0 <= q < stack@.len() ==> stack@[q] < self.count(),
                ws_stack(*self, stack@) == windows_from(*self, i, m as int) + ws_stack(
                    *self,
                    base,
                ),
                ff_stack(*self, stack@) == opt_or(
                    focused_from(*self, i, m as int),
                    ff_stack(*self, base),
                ),
                stack_size(*self, stack@) == size_from(*self, i, m as int) + stack_size(
                    *self,
                    base,
                ),
            decreases m,
        {
            m = m - 1;
            proof {
                assert(self.node_ok(i));
                assert(self.child_ok(i, m as int));
            }
            let c = self.nodes[i].children[m];
            let ghost pre = stack@;
            stack.push(c);
            proof {
                lemma_ws_stack_push(*self, pre, c);
                lemma_ff_stack_push(*self, pre, c);
                lemma_stack_size_push(*self, pre, c);
                assert(windows_from(*self, i, m as int) == windows(*self, c) + windows_from(
                    *self,
                    i,
                    m as int + 1,
                ));
                assert(windows(*self, c) + (windows_from(*self, i, m as int + 1) + ws_stack(
                    *self,
                    base,
                )) =~= (windows(*self, c) + windows_from(*self, i, m as int + 1)) + ws_stack(
                    *self,
                    base,
                ));
                assert(focused_from(*self, i, m as int) == opt_or(
                    first_focused(*self, c),
                    focused_from(*self, i, m as int + 1),
                ));
                assert(size_from(*self, i, m as int) == size(*self, c) + size_from(
                    *self,
                    i,
                    m as int + 1,
                ));
            }
        }
    }

    /// All leaf windows of the subtree rooted at `start`, in document order:
    /// exactly the containers carrying a window handle, enumerated by a
    /// pre-order, left-to-right walk.
    #[verifier::loop_isolation(false)]
    pub fn collect_windows(&self, start: usize) -> (r: Vec<usize>)
        requires
            self.wf(),
            start < self.count(),
        ensures
            r@ == windows(*self, start),
            forall|q: int| 0 <= q < r@.len() ==> #[trigger] r@[q] < self.count(),
    {
        proof {
            lemma_windows_in_range(*self, start);
        }
        let mut out: Vec<usize> = Vec::new();
        let mut stack: Vec<usize> = Vec::new();
        proof {
            lemma_ws_stack_push(*self, Seq::<usize>::empty(), start);
            lemma_stack_size_push(*self, Seq::<usize>::empty(), start);
        }
        stack.push(start);
        proof {
            assert(stack@ =~= Seq::<usize>::empty().push(start));
            assert(windows(*self, start) + ws_stack(*self, Seq::<usize>::empty()) =~= windows(
                *self,
                start,
            ));
            assert(out@ + ws_stack(*self, stack@) =~= windows(*self, start));
        }
        while stack.len() > 0
            invariant
                forall|q: int| 0 <= q < stack@.len() ==> stack@[q] < self.count(),
                out@ + ws_stack(*self, stack@) == windows(*self, start),
            decreases stack_size(*self, stack@),
        {
            let ghost pre_stack = stack@;
            let ghost pre_out = out@;
            let i = stack.pop().unwrap();
            let ghost base = stack@;
            proof {
                assert(pre_stack =~= base.push(i));
                lemma_ws_stack_push(*self, base, i);
                lemma_stack_size_push(*self, base, i);
            }
            if self.node_is_window(i) {
                out.push(i);
            }
            self.push_children_reversed(i, &mut stack);
            proof {
                if self.is_window(i) {
                    assert(windows(*self, i) == seq![i] + windows_from(*self, i, 0));
                    assert(out@ + ws_stack(*self, stack@) =~= pre_out + (windows(*self, i)
                        + ws_stack(*self, base)));
                } else {
                    assert(windows(*self, i) == Seq::<usize>::empty() + windows_from(*self, i, 0));
                    assert(out@ + ws_stack(*self, stack@) =~= pre_out + (windows(*self, i)
                        + ws_stack(*self, base)));
                }
                assert(out@ + ws_stack(*self, stack@) == windows(*self, start));
                assert(size(*self, i) == 1 + size_from(*self, i, 0));
                assert(stack_size(*self, stack@) < stack_size(*self, pre_stack));
            }
        }
        proof {
            assert(out@ + ws_stack(*self, stack@) =~= out@);
        }
        out
    }

    /// The first window, in document order, of the subtree rooted at `start`;
    /// the walk stops at the first hit.
    #[verifier::loop_isolation(false)]
    pub fn first_window_in(&self, start: usize) -> (r: Option<usize>)
        requires
            self.wf(),
            start < self.count(),
        ensures
            windows(*self, start).len() == 0 ==> r is None,
            windows(*self, start).len() > 0 ==> r == Some(windows(*self, start)[0]),
            r matches Some(x) ==> x < self.count(),
    {
        let mut stack: Vec<usize> = Vec::new();
        proof {
            lemma_ws_stack_push(*self, Seq::<usize>::empty(), start);
            lemma_stack_size_push(*self, Seq::<usize>::empty(), start);
        }
        stack.push(start);
        proof {
            assert(stack@ =~= Seq::<usize>::empty().push(start));
            assert(windows(*self, start) + ws_stack(*self, Seq::<usize>::empty()) =~= windows(
                *self,
                start,
            ));
        }
        while stack.len() > 0
            invariant
                forall|q: int| 0 <= q < stack@.len() ==> stack@[q] < self.count(),
                ws_stack(*self, stack@) == windows(*self, start),
            decreases stack_size(*self, stack@),
        {
            let ghost pre_stack = stack@;
            let i = stack.pop().unwrap();
            let ghost base = stack@;
            proof {
                assert(pre_stack =~= base.push(i));
                lemma_ws_stack_push(*self, base, i);
                lemma_stack_size_push(*self, base, i);
            }
            if self.node_is_window(i) {
                proof {
                    lemma_windows_head(*self, i);
                    assert(windows(*self, start)[0] == i);
                }
                return Some(i);
            }
            self.push_children_reversed(i, &mut stack);
            proof {
                assert(windows(*self, i) == Seq::<usize>::empty() + windows_from(*self, i, 0));
                assert(windows(*self, i) =~= windows_from(*self, i, 0));
                assert(ws_stack(*self, stack@) == windows(*self, start));
                assert(size(*self, i) == 1 + size_from(*self, i, 0));
                assert(stack_size(*self, stack@) < stack_size(*self, pre_stack));
            }
        }
        proof {
            assert(windows(*self, start).len() == 0);
        }
        None
    }

    /// The last window, in document order, of the subtree rooted at `start`.
    pub fn last_window_in(&self, start: usize) -> (r: Option<usize>)
        requires
            self.wf(),
            start < self.count(),
        ensures
            windows(*self, start).len() == 0 ==> r is None,
            windows(*self, start).len() > 0 ==> r == Some(windows(*self, start).last()),
            r matches Some(x) ==> x < self.count(),
    {
        let found = self.collect_windows(start);
        if found.len() == 0 {
            None
        } else {
            Some(found[found.len() - 1])
        }
    }

    /// The first focused node, in document (pre-order) order, of the subtree
    /// rooted at `start`; the search stops at the first hit and visits no
    /// further sibling or subtree. A snapshot has at most one focused node,
    /// so any traversal order would name the same node.
    #[verifier::loop_isolation(false)]
    pub fn find_focused(&self, start: usize) -> (r: Option<usize>)
        requires
            self.wf(),
            start < self.count(),
        ensures
            r == first_focused(*self, start),
            r matches Some(x) ==> x < self.count(),
    {
        let mut stack: Vec<usize> = Vec::new();
        proof {
            lemma_ff_stack_push(*self, Seq::<usize>::empty(), start);
            lemma_stack_size_push(*self, Seq::<usize>::empty(), start);
        }
        stack.push(start);
        proof {
            assert(stack@ =~= Seq::<usize>::empty().push(start));
        }
        while stack.len() > 0
            invariant
                forall|q: int| 0 <= q < stack@.len() ==> stack@[q] < self.count(),
                ff_stack(*self, stack@) == first_focused(*self, start),
            decreases stack_size(*self, stack@),
        {
            let ghost pre_stack = stack@;
            let i = stack.pop().unwrap();
            let ghost base = stack@;
            proof {
                assert(pre_stack =~= base.push(i));
                lemma_ff_stack_push(*self, base, i);
                lemma_stack_size_push(*self, base, i);
            }
            if self.nodes[i].focused {
                return Some(i);
            }
            self.push_children_reversed(i, &mut stack);
            proof {
                assert(first_focused(*self, i) == focused_from(*self, i, 0));
                assert(ff_stack(*self, stack@) == first_focused(*self, start));
                assert(size(*self, i) == 1 + size_from(*self, i, 0));
                assert(stack_size(*self, stack@) < stack_size(*self, pre_stack));
            }
        }
        None
    }

    /// The closest ancestor of `node` (the node itself counts) whose kind is
    /// `kind`; absent when the chain up to the root holds no such node. The
    /// walk is strictly upward, so it runs in tree depth, not tree size.
    #[verifier::loop_isolation(false)]
    pub fn find_ancestor(&self, node: usize, kind: NodeKind) -> (r: Option<usize>)
        requires
            self.wf(),
            node < self.count(),
        ensures
            r == ancestor_of_kind(*self, node, kind),
            r matches Some(x) ==> x < self.count(),
    {
        let mut cur = node;
        loop
            invariant
                cur < self.count(),
                ancestor_of_kind(*self, cur, kind) == ancestor_of_kind(*self, node, kind),
            decreases cur,
        {
            if self.nodes[cur].kind == kind {
                return Some(cur);
            }
            match self.nodes[cur].parent {
                Some(p) => {
                    proof {
                        assert(self.parent_ok(cur));
                    }
                    cur = p;
                },
                None => {
                    return None;
                },
            }
        }
    }

    /// The workspace enclosing `node`, the node itself included, if any.
    pub fn get_parent_workspace(&self, node: usize) -> (r: Option<usize>)
        requires
            self.wf(),
            node < self.count(),
        ensures
            r == ancestor_of_kind(*self, node, NodeKind::Workspace),
            r matches Some(x) ==> x < self.count(),
    {
        self.find_ancestor(node, NodeKind::Workspace)
    }

    /// The output (display) enclosing `node`, the node itself included, if any.
    pub fn get_parent_output(&self, node: usize) -> (r: Option<usize>)
        requires
            self.wf(),
            node < self.count(),
        ensures
            r == ancestor_of_kind(*self, node, NodeKind::Output),
            r matches Some(x) ==> x < self.count(),
    {
        self.find_ancestor(node, NodeKind::Output)
    }

    /// The position of `child` in the child list of `p`.
    #[verifier::loop_isolation(false)]
    fn child_position(&self, p: usize, child: usize) -> (k: usize)
        requires
            self.wf(),
            p < self.count(),
            self.kids(p).contains(child),
        ensures
            k < self.nkids(p),
            self.kid(p, k as int) == child,
            self.kids(p).index_of(child) == k,
    {
        let ghost w = choose|q: int| 0 <= q < self.kids(p).len() && self.kids(p)[q] == child;
        let n = self.nodes[p].children.len();
        let mut k: usize = 0;
        while self.nodes[p].children[k] != child
            invariant
                n == self.nkids(p),
                0 <= k <= w,
                0 <= w < self.nkids(p),
                self.kids(p)[w] == child,
            decreases w - k,
        {
            k = k + 1;
        }
        proof {
            assert(self.kid(p, k as int) == child);
            let io = self.kids(p).index_of(child);
            assert(0 <= io < self.kids(p).len() && self.kids(p)[io] == child);
            assert(self.node_ok(p));
            if io < k {
                assert(self.kid(p, io) != self.kid(p, k as int));
            } else if io > k {
                assert(self.kid(p, k as int) != self.kid(p, io));
            }
        }
        k
    }

    /// The window that follows `node` in document order, by the adjacent-
    /// sibling policy: climb until some ancestor level (starting at `node`
    /// itself) has a right sibling, then take the first window of that
    /// sibling subtree. When that adjacent subtree holds no window the result
    /// is absent; the search deliberately does not go past it to a further
    /// sibling. Absent as well when no ancestor has a right sibling.
    #[verifier::loop_isolation(false)]
    pub fn next_window(&self, node: usize) -> (r: Option<usize>)
        requires
            self.wf(),
            node < self.count(),
        ensures
            r == next_window_spec(*self, node),
            r matches Some(x) ==> x < self.count(),
    {
        let mut cur = node;
        loop
            invariant
                cur < self.count(),
                next_window_spec(*self, cur) == next_window_spec(*self, node),
            decreases cur,
        {
            let p = match self.nodes[cur].parent {
                Some(p) => p,
                None => {
                    return None;
                },
            };
            proof {
                assert(self.parent_ok(cur));
            }
            let k = self.child_position(p, cur);
            let n = self.nodes[p].children.len();
            if k + 1 < n {
                proof {
                    assert(self.node_ok(p));
                    assert(self.child_ok(p, k as int + 1));
                }
                let sib = self.nodes[p].children[k + 1];
                return self.first_window_in(sib);
            }
            cur = p;
        }
    }

    /// The window that precedes `node` in document order; the mirror image of
    /// `next_window`: climb until some ancestor level has a left sibling, then
    /// take the last window of that sibling subtree, and stop there even when
    /// that subtree holds no window.
    #[verifier::loop_isolation(false)]
    pub fn previous_window(&self, node: usize) -> (r: Option<usize>)
        requires
            self.wf(),
            node < self.count(),
        ensures
            r == prev_window_spec(*self, node),
            r matches Some(x) ==> x < self.count(),
    {
        let mut cur = node;
        loop
            invariant
                cur < self.count(),
                prev_window_spec(*self, cur) == prev_window_spec(*self, node),
            decreases cur,
        {
            let p = match self.nodes[cur].parent {
                Some(p) => p,
                None => {
                    return None;
                },
            };
            proof {
                assert(self.parent_ok(cur));
            }
            let k = self.child_position(p, cur);
            if k > 0 {
                proof {
                    assert(self.node_ok(p));
                    assert(self.child_ok(p, k as int - 1));
                }
                let sib = self.nodes[p].children[k - 1];
                return self.last_window_in(sib);
            }
            cur = p;
        }
    }
}

} // verus!
