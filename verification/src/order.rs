//! Document order, spec level: pre-order, left-to-right walks of a snapshot.
//!
//! `windows` names the sequence of leaf windows of a subtree in document
//! order; `first_focused` names the first focused node of a subtree in that
//! same order. Both recurse over the arena, guarded by the well-formedness
//! bound that children sit strictly above their parent, and both have a
//! stack-shaped companion (`ws_stack`, `ff_stack`) that describes what an
//! explicit work-stack traversal still owes.

use vstd::prelude::*;

use crate::tree::NodeKind;
use crate::tree::Tree;

verus! {

/// The leaf windows of the subtree rooted at `i`, in document order: node
/// before children, children left to right.
pub open spec fn windows(t: Tree, i: usize) -> Seq<usize>
    decreases t.count() - i, 1int, 0int,
{
    (if t.is_window(i) {
        seq![i]
    } else {
        Seq::<usize>::empty()
    }) + windows_from(t, i, 0)
}

/// The windows contributed by the children of `i`, from child position `k` on.
pub open spec fn windows_from(t: Tree, i: usize, k: int) -> Seq<usize>
    decreases t.count() - i, 0int, t.nkids(i) - k,
{
    if k < 0 || k >= t.nkids(i) {
        Seq::<usize>::empty()
    } else {
        let c = t.kid(i, k);
        (if i < c && c < t.count() {
            windows(t, c)
        } else {
            Seq::<usize>::empty()
        }) + windows_from(t, i, k + 1)
    }
}

/// The number of nodes of the subtree rooted at `i`; the termination measure
/// of the work-stack walks.
pub open spec fn size(t: Tree, i: usize) -> nat
    decreases t.count() - i, 1int, 0int,
{
    1 + size_from(t, i, 0)
}

/// The node count contributed by the children of `i` from position `k` on.
pub open spec fn size_from(t: Tree, i: usize, k: int) -> nat
    decreases t.count() - i, 0int, t.nkids(i) - k,
{
    if k < 0 || k >= t.nkids(i) {
        0
    } else {
        let c = t.kid(i, k);
        (if i < c && c < t.count() {
            size(t, c)
        } else {
            0
        }) + size_from(t, i, k + 1)
    }
}

/// The first focused node of the subtree rooted at `i` in document order.
pub open spec fn first_focused(t: Tree, i: usize) -> Option<usize>
    decreases t.count() - i, 1int, 0int,
{
    if t.is_focused(i) {
        Some(i)
    } else {
        focused_from(t, i, 0)
    }
}

/// `a` unless it is absent, then `b`.
pub open spec fn opt_or(a: Option<usize>, b: Option<usize>) -> Option<usize> {
    if a is Some {
        a
    } else {
        b
    }
}

/// The first focused node found under the children of `i` from position `k` on.
pub open spec fn focused_from(t: Tree, i: usize, k: int) -> Option<usize>
    decreases t.count() - i, 0int, t.nkids(i) - k,
{
    if k < 0 || k >= t.nkids(i) {
        None
    } else {
        let c = t.kid(i, k);
        opt_or(
            if i < c && c < t.count() {
                first_focused(t, c)
            } else {
                None
            },
            focused_from(t, i, k + 1),
        )
    }
}

/// What a work-stack walk still owes to the window enumeration: the windows
/// of each stacked subtree, topmost (popped first) contributing first.
pub open spec fn ws_stack(t: Tree, s: Seq<usize>) -> Seq<usize>
    decreases s.len(),
{
    if s.len() == 0 {
        Seq::<usize>::empty()
    } else {
        windows(t, s.last()) + ws_stack(t, s.drop_last())
    }
}

/// What a work-stack walk still owes to the focused-node search.
pub open spec fn ff_stack(t: Tree, s: Seq<usize>) -> Option<usize>
    decreases s.len(),
{
    if s.len() == 0 {
        None
    } else {
        opt_or(first_focused(t, s.last()), ff_stack(t, s.drop_last()))
    }
}

/// The total size of the subtrees a work stack still has to visit.
pub open spec fn stack_size(t: Tree, s: Seq<usize>) -> nat
    decreases s.len(),
{
    if s.len() == 0 {
        0
    } else {
        size(t, s.last()) + stack_size(t, s.drop_last())
    }
}

/// The ancestor chain of `i`, the node itself first, the root last.
pub open spec fn ancestors(t: Tree, i: usize) -> Seq<usize>
    decreases i,
{
    seq![i] + (match t.parent_of(i) {
        Some(p) => if p < i {
            ancestors(t, p)
        } else {
            Seq::<usize>::empty()
        },
        None => Seq::<usize>::empty(),
    })
}

/// The closest ancestor of `i` (inclusive) whose kind is `kind`.
pub open spec fn ancestor_of_kind(t: Tree, i: usize, kind: NodeKind) -> Option<usize>
    decreases i,
{
    if t.kind_of(i) == kind {
        Some(i)
    } else {
        match t.parent_of(i) {
            Some(p) => if p < i {
                ancestor_of_kind(t, p, kind)
            } else {
                None
            },
            None => None,
        }
    }
}

/// The window immediately after `i` in document order, as the navigator
/// defines it: find the nearest ancestor level (starting at `i` itself) with
/// a right sibling subtree, and take that subtree's first window. When that
/// adjacent subtree holds no window the search stops there and reports none;
/// it deliberately does not continue to a further sibling.
pub open spec fn next_window_spec(t: Tree, i: usize) -> Option<usize>
    decreases i,
{
    match t.parent_of(i) {
        Some(p) => if p < i {
            let k = t.kids(p).index_of(i);
            if k + 1 < t.nkids(p) {
                let sib = t.kid(p, k + 1);
                if windows(t, sib).len() == 0 {
                    None
                } else {
                    Some(windows(t, sib)[0])
                }
            } else {
                next_window_spec(t, p)
            }
        } else {
            None
        },
        None => None,
    }
}

/// The window immediately before `i` in document order; the mirror image of
/// `next_window_spec`, taking the left sibling subtree's last window.
pub open spec fn prev_window_spec(t: Tree, i: usize) -> Option<usize>
    decreases i,
{
    match t.parent_of(i) {
        Some(p) => if p < i {
            let k = t.kids(p).index_of(i);
            if k >= 1 {
                let sib = t.kid(p, k - 1);
                if windows(t, sib).len() == 0 {
                    None
                } else {
                    Some(windows(t, sib).last())
                }
            } else {
                prev_window_spec(t, p)
            }
        } else {
            None
        },
        None => None,
    }
}

/// Pushing one index on a work stack owes that subtree's windows first.
pub proof fn lemma_ws_stack_push(t: Tree, s: Seq<usize>, c: usize)
    ensures
        ws_stack(t, s.push(c)) == windows(t, c) + ws_stack(t, s),
{
    assert(s.push(c).last() == c);
    assert(s.push(c).drop_last() =~= s);
}

/// Pushing one index on a work stack makes its subtree searched first.
pub proof fn lemma_ff_stack_push(t: Tree, s: Seq<usize>, c: usize)
    ensures
        ff_stack(t, s.push(c)) == opt_or(first_focused(t, c), ff_stack(t, s)),
{
    assert(s.push(c).last() == c);
    assert(s.push(c).drop_last() =~= s);
}

/// Pushing one index on a work stack adds that subtree's size to the measure.
pub proof fn lemma_stack_size_push(t: Tree, s: Seq<usize>, c: usize)
    ensures
        stack_size(t, s.push(c)) == size(t, c) + stack_size(t, s),
{
    assert(s.push(c).last() == c);
    assert(s.push(c).drop_last() =~= s);
}

/// A window heads its own window enumeration.
pub proof fn lemma_windows_head(t: Tree, i: usize)
    requires
        t.is_window(i),
    ensures
        windows(t, i).len() > 0,
        windows(t, i)[0] == i,
{
    assert(windows(t, i) == seq![i] + windows_from(t, i, 0));
}

/// In a well-formed snapshot, every enumerated window lies in the arena, at
/// or below the subtree root, and is indeed a window.
pub proof fn lemma_windows_in_range(t: Tree, i: usize)
    requires
        t.wf(),
        i < t.count(),
    ensures
        forall|q: int|
            0 <= q < windows(t, i).len() ==> i <= #[trigger] windows(t, i)[q] < t.count()
                && t.is_window(windows(t, i)[q]),
    decreases t.count() - i, 1int, 0int,
{
    lemma_windows_from_in_range(t, i, 0);
    let head = if t.is_window(i) {
        seq![i]
    } else {
        Seq::<usize>::empty()
    };
    assert forall|q: int|
        0 <= q < windows(t, i).len() implies i <= #[trigger] windows(t, i)[q] < t.count()
        && t.is_window(windows(t, i)[q]) by {
        if q < head.len() {
            assert(windows(t, i)[q] == i);
        } else {
            assert(windows(t, i)[q] == windows_from(t, i, 0)[q - head.len()]);
        }
    }
}

/// Range facts for the children's contribution, from position `k` on.
pub proof fn lemma_windows_from_in_range(t: Tree, i: usize, k: int)
    requires
        t.wf(),
        i < t.count(),
    ensures
        forall|q: int|
            0 <= q < windows_from(t, i, k).len() ==> i < #[trigger] windows_from(t, i, k)[q]
                < t.count() && t.is_window(windows_from(t, i, k)[q]),
    decreases t.count() - i, 0int, t.nkids(i) - k,
{
    if 0 <= k < t.nkids(i) {
        assert(t.node_ok(i));
        assert(t.child_ok(i, k));
        let c = t.kid(i, k);
        lemma_windows_in_range(t, c);
        lemma_windows_from_in_range(t, i, k + 1);
        assert forall|q: int|
            0 <= q < windows_from(t, i, k).len() implies i < #[trigger] windows_from(t, i, k)[q]
            < t.count() && t.is_window(windows_from(t, i, k)[q]) by {
            if q < windows(t, c).len() {
                assert(windows_from(t, i, k)[q] == windows(t, c)[q]);
            } else {
                assert(windows_from(t, i, k)[q] == windows_from(t, i, k + 1)[q - windows(
                    t,
                    c,
                ).len()]);
            }
        }
    }
}

} // verus!
