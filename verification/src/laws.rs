//! Laws of the navigation queries, proved over whole snapshots: what the
//! window enumeration contains, what the adjacent-sibling searches answer,
//! what the ancestor lookup means over the ancestor chain, and when the
//! focused-node search is exact.

use vstd::prelude::*;

use crate::order::ancestor_of_kind;
use crate::order::ancestors;
use crate::order::first_focused;
use crate::order::focused_from;
use crate::order::lemma_windows_head;
use crate::order::lemma_windows_in_range;
use crate::order::next_window_spec;
use crate::order::prev_window_spec;
use crate::order::windows;
use crate::order::windows_from;
use crate::tree::NodeKind;
use crate::tree::Tree;

verus! {

/// The position of a child within its parent's child list is what `index_of`
/// names: child lists of a well-formed snapshot hold no duplicates.
pub proof fn lemma_index_of_child(t: Tree, p: usize, q: int)
    requires
        t.wf(),
        p < t.count(),
        0 <= q < t.nkids(p),
    ensures
        t.kids(p).index_of(t.kid(p, q)) == q,
{
    let c = t.kid(p, q);
    assert(t.kids(p)[q] == c);
    let io = t.kids(p).index_of(c);
    assert(0 <= io < t.kids(p).len() && t.kids(p)[io] == c);
    assert(t.node_ok(p));
    if io < q {
        assert(t.kid(p, io) != t.kid(p, q));
        assert(false);
    } else if io > q {
        assert(t.kid(p, q) != t.kid(p, io));
        assert(false);
    }
}

/// Whatever a child subtree enumerates is also enumerated by the children's
/// contribution of the parent, from any position at or before the child's.
proof fn lemma_windows_from_child(t: Tree, i: usize, k: int, q: int, x: usize)
    requires
        t.wf(),
        i < t.count(),
        0 <= k <= q < t.nkids(i),
        windows(t, t.kid(i, q)).contains(x),
    ensures
        windows_from(t, i, k).contains(x),
    decreases q - k,
{
    assert(t.node_ok(i));
    assert(t.child_ok(i, k));
    let c = t.kid(i, k);
    if k == q {
        let idx = choose|n: int| 0 <= n < windows(t, c).len() && windows(t, c)[n] == x;
        assert(windows_from(t, i, k)[idx] == x);
    } else {
        lemma_windows_from_child(t, i, k + 1, q, x);
        let rest = windows_from(t, i, k + 1);
        let idx = choose|n: int| 0 <= n < rest.len() && rest[n] == x;
        assert(windows_from(t, i, k)[windows(t, c).len() + idx] == x);
    }
}

/// Whatever a subtree enumerates, the whole snapshot enumerates.
proof fn lemma_windows_lift(t: Tree, j: usize, x: usize)
    requires
        t.wf(),
        j < t.count(),
        windows(t, j).contains(x),
    ensures
        windows(t, 0).contains(x),
    decreases j,
{
    if j != 0 {
        assert(t.parent_ok(j));
        let p = t.parent_of(j)->Some_0;
        let q = choose|q: int| 0 <= q < t.kids(p).len() && t.kids(p)[q] == j;
        lemma_windows_from_child(t, p, 0, q, x);
        let idx = choose|n: int|
            0 <= n < windows_from(t, p, 0).len() && windows_from(t, p, 0)[n] == x;
        let head = if t.is_window(p) {
            seq![p]
        } else {
            Seq::<usize>::empty()
        };
        assert(windows(t, p) == head + windows_from(t, p, 0));
        assert(windows(t, p)[head.len() + idx] == x);
        lemma_windows_lift(t, p, x);
    }
}

/// Window-enumeration law: over a well-formed snapshot, the document-order
/// enumeration from the root holds a node iff that node is a window — every
/// window appears, and every node without a window handle is omitted.
pub proof fn lemma_collect_windows_exact(t: Tree, j: usize)
    requires
        t.wf(),
        j < t.count(),
    ensures
        windows(t, 0).contains(j) <==> t.is_window(j),
{
    if t.is_window(j) {
        lemma_windows_head(t, j);
        assert(windows(t, j).contains(j));
        lemma_windows_lift(t, j, j);
    }
    if windows(t, 0).contains(j) {
        lemma_windows_in_range(t, 0);
        let idx = choose|n: int| 0 <= n < windows(t, 0).len() && windows(t, 0)[n] == j;
        assert(t.is_window(windows(t, 0)[idx]));
    }
}

/// Adjacent right-sibling law: when a node has a right sibling subtree that
/// holds at least one window, the next-window search answers exactly the
/// first element of that subtree's document-order window enumeration.
pub proof fn lemma_next_window_adjacent(t: Tree, i: usize, p: usize, k: int)
    requires
        t.wf(),
        i < t.count(),
        t.parent_of(i) == Some(p),
        0 <= k < t.nkids(p),
        k + 1 < t.nkids(p),
        t.kid(p, k) == i,
        windows(t, t.kid(p, k + 1)).len() > 0,
    ensures
        next_window_spec(t, i) == Some(windows(t, t.kid(p, k + 1))[0]),
{
    assert(t.parent_ok(i));
    lemma_index_of_child(t, p, k);
}

/// Adjacent left-sibling law, the mirror image: when a node has a left
/// sibling subtree that holds at least one window, the previous-window search
/// answers exactly the last element of that subtree's enumeration.
pub proof fn lemma_previous_window_adjacent(t: Tree, i: usize, p: usize, k: int)
    requires
        t.wf(),
        i < t.count(),
        t.parent_of(i) == Some(p),
        1 <= k < t.nkids(p),
        t.kid(p, k) == i,
        windows(t, t.kid(p, k - 1)).len() > 0,
    ensures
        prev_window_spec(t, i) == Some(windows(t, t.kid(p, k - 1)).last()),
{
    assert(t.parent_ok(i));
    lemma_index_of_child(t, p, k);
}

/// Ancestor-lookup law: the lookup answers nothing iff no node of the
/// ancestor chain (the node itself included) has the kind; otherwise it
/// answers the closest such ancestor — the chain's first match.
pub proof fn lemma_find_ancestor_exact(t: Tree, i: usize, kind: NodeKind)
    requires
        t.wf(),
        i < t.count(),
    ensures
        (ancestor_of_kind(t, i, kind) is None) <==> (forall|q: int|
            0 <= q < ancestors(t, i).len() ==> t.kind_of(#[trigger] ancestors(t, i)[q]) != kind),
        ancestor_of_kind(t, i, kind) is Some ==> (exists|q: int|
            {
                &&& 0 <= q < ancestors(t, i).len()
                &&& #[trigger] ancestors(t, i)[q] == ancestor_of_kind(t, i, kind)->Some_0
                &&& t.kind_of(ancestors(t, i)[q]) == kind
                &&& forall|q2: int| 0 <= q2 < q ==> t.kind_of(#[trigger] ancestors(t, i)[q2]) != kind
            }),
    decreases i,
{
    let chain = ancestors(t, i);
    assert(chain[0] == i);
    if t.kind_of(i) == kind {
        assert(chain[0] == i && t.kind_of(chain[0]) == kind && (forall|q2: int|
            0 <= q2 < 0 ==> t.kind_of(#[trigger] chain[q2]) != kind));
    } else {
        match t.parent_of(i) {
            None => {
                assert(chain =~= seq![i]);
            },
            Some(p) => {
                assert(t.parent_ok(i));
                lemma_find_ancestor_exact(t, p, kind);
                let sub = ancestors(t, p);
                assert(chain == seq![i] + sub);
                if ancestor_of_kind(t, p, kind) is None {
                    assert forall|q: int|
                        0 <= q < chain.len() implies t.kind_of(#[trigger] chain[q]) != kind by {
                        if q > 0 {
                            assert(chain[q] == sub[q - 1]);
                        }
                    }
                } else {
                    let a = ancestor_of_kind(t, p, kind)->Some_0;
                    let q = choose|q: int|
                        {
                            &&& 0 <= q < sub.len()
                            &&& #[trigger] sub[q] == a
                            &&& t.kind_of(sub[q]) == kind
                            &&& forall|q2: int| 0 <= q2 < q ==> t.kind_of(#[trigger] sub[q2]) != kind
                        };
                    assert(chain[q + 1] == sub[q]);
                    assert forall|q2: int|
                        0 <= q2 < q + 1 implies t.kind_of(#[trigger] chain[q2]) != kind by {
                        if q2 > 0 {
                            assert(chain[q2] == sub[q2 - 1]);
                        }
                    }
                    assert(t.kind_of(chain[q + 1]) == kind);
                }
            },
        }
    }
}

/// A focused-node search that finds something found a focused node of the
/// subtree; searched from the root, of the arena.
proof fn lemma_ff_some_props(t: Tree, i: usize)
    requires
        t.wf(),
        i < t.count(),
    ensures
        match first_focused(t, i) {
            Some(x) => i <= x < t.count() && t.is_focused(x),
            None => true,
        },
    decreases t.count() - i, 1int, 0int,
{
    if !t.is_focused(i) {
        lemma_ff_from_some_props(t, i, 0);
    }
}

/// As `lemma_ff_some_props`, for the children's contribution.
proof fn lemma_ff_from_some_props(t: Tree, i: usize, k: int)
    requires
        t.wf(),
        i < t.count(),
    ensures
        match focused_from(t, i, k) {
            Some(x) => i < x < t.count() && t.is_focused(x),
            None => true,
        },
    decreases t.count() - i, 0int, t.nkids(i) - k,
{
    if 0 <= k < t.nkids(i) {
        assert(t.node_ok(i));
        assert(t.child_ok(i, k));
        lemma_ff_some_props(t, t.kid(i, k));
        lemma_ff_from_some_props(t, i, k + 1);
    }
}

/// When the children's contribution from `k` on finds nothing, no child
/// subtree at or after `k` holds a focused node.
proof fn lemma_focused_from_none(t: Tree, i: usize, k: int, q: int)
    requires
        t.wf(),
        i < t.count(),
        0 <= k <= q < t.nkids(i),
        focused_from(t, i, k) is None,
    ensures
        first_focused(t, t.kid(i, q)) is None,
    decreases q - k,
{
    assert(t.node_ok(i));
    assert(t.child_ok(i, k));
    if k < q {
        lemma_focused_from_none(t, i, k + 1, q);
    }
}

/// When the whole snapshot's search finds nothing, no subtree's does.
proof fn lemma_ff_none_node(t: Tree, j: usize)
    requires
        t.wf(),
        j < t.count(),
        first_focused(t, 0) is None,
    ensures
        first_focused(t, j) is None,
    decreases j,
{
    if j != 0 {
        assert(t.parent_ok(j));
        let p = t.parent_of(j)->Some_0;
        lemma_ff_none_node(t, p);
        let q = choose|q: int| 0 <= q < t.kids(p).len() && t.kids(p)[q] == j;
        lemma_focused_from_none(t, p, 0, q);
    }
}

/// Focused-node law, empty side: the search from the root answers nothing
/// iff no node of the snapshot has the focus flag set.
pub proof fn lemma_find_focused_none(t: Tree)
    requires
        t.wf(),
    ensures
        (first_focused(t, 0) is None) <==> (forall|j: usize|
            j < t.count() ==> !(#[trigger] t.is_focused(j))),
{
    if first_focused(t, 0) is None {
        assert forall|j: usize| j < t.count() implies !t.is_focused(j) by {
            lemma_ff_none_node(t, j);
        }
    } else {
        lemma_ff_some_props(t, 0);
        let x = first_focused(t, 0)->Some_0;
        assert(x < t.count() && t.is_focused(x));
    }
}

/// Focused-node law, unique side: a snapshot carries at most one focused
/// node (the manager's guarantee, taken as a premise); under it the search
/// from the root answers exactly that node, whatever traversal order a
/// search might have chosen.
pub proof fn lemma_find_focused_unique(t: Tree, n: usize)
    requires
        t.wf(),
        forall|a: usize, b: usize|
            a < t.count() && b < t.count() && #[trigger] t.is_focused(a) && #[trigger] t.is_focused(
                b,
            ) ==> a == b,
        n < t.count(),
        t.is_focused(n),
    ensures
        first_focused(t, 0) == Some(n),
{
    lemma_find_focused_none(t);
    assert(!(first_focused(t, 0) is None));
    lemma_ff_some_props(t, 0);
    let x = first_focused(t, 0)->Some_0;
    assert(x < t.count() && t.is_focused(x));
    assert(x == n);
}

/// Every window is a leaf: a container that carries a window handle has no
/// children. The manager's layout trees have this shape.
pub open spec fn windows_are_leaves(t: Tree) -> bool {
    forall|x: usize| x < t.count() && #[trigger] t.is_window(x) ==> t.nkids(x) == 0
}

/// When the children's contribution from `k` on is empty, every child
/// subtree at or after `k` enumerates no window.
proof fn lemma_windows_from_empty(t: Tree, i: usize, k: int, q: int)
    requires
        t.wf(),
        i < t.count(),
        0 <= k <= q < t.nkids(i),
        windows_from(t, i, k).len() == 0,
    ensures
        windows(t, t.kid(i, q)).len() == 0,
    decreases q - k,
{
    assert(t.node_ok(i));
    assert(t.child_ok(i, k));
    if k < q {
        lemma_windows_from_empty(t, i, k + 1, q);
    }
}

/// A nonempty children's contribution ends inside some child subtree `q`:
/// that subtree supplies the last window, and everything after `q` is empty.
proof fn lemma_windows_from_last(t: Tree, i: usize, k: int) -> (q: int)
    requires
        t.wf(),
        i < t.count(),
        0 <= k,
        windows_from(t, i, k).len() > 0,
    ensures
        k <= q < t.nkids(i),
        windows(t, t.kid(i, q)).len() > 0,
        windows_from(t, i, k).last() == windows(t, t.kid(i, q)).last(),
        windows_from(t, i, q + 1).len() == 0,
    decreases t.nkids(i) - k,
{
    assert(k < t.nkids(i));
    assert(t.node_ok(i));
    assert(t.child_ok(i, k));
    let c = t.kid(i, k);
    let rest = windows_from(t, i, k + 1);
    if rest.len() > 0 {
        let q = lemma_windows_from_last(t, i, k + 1);
        assert(windows_from(t, i, k)[windows_from(t, i, k).len() - 1] == rest[rest.len() - 1]);
        q
    } else {
        assert(windows(t, c) + rest =~= windows(t, c));
        assert(windows_from(t, i, k).last() == windows(t, c).last());
        k
    }
}

/// Climbing from the last window of a subtree: as long as the walk stays
/// inside the subtree it meets either no right sibling or one whose subtree
/// is windowless (which would end the search empty), so a search that does
/// answer something continues exactly as a search from the subtree's root.
proof fn lemma_next_from_last(t: Tree, r: usize, m: usize)
    requires
        t.wf(),
        r < t.count(),
        windows(t, r).len() > 0,
        m == windows(t, r).last(),
        next_window_spec(t, m) is Some,
    ensures
        next_window_spec(t, m) == next_window_spec(t, r),
    decreases t.count() - r,
{
    let head = if t.is_window(r) {
        seq![r]
    } else {
        Seq::<usize>::empty()
    };
    assert(windows(t, r) == head + windows_from(t, r, 0));
    if windows_from(t, r, 0).len() == 0 {
        assert(windows(t, r) =~= head);
        assert(t.is_window(r));
        assert(m == r);
    } else {
        let q = lemma_windows_from_last(t, r, 0);
        let c = t.kid(r, q);
        assert(t.node_ok(r));
        assert(t.child_ok(r, q));
        assert(windows(t, r)[windows(t, r).len() - 1] == windows_from(t, r, 0)[windows_from(
            t,
            r,
            0,
        ).len() - 1]);
        assert(m == windows(t, c).last());
        lemma_next_from_last(t, c, m);
        assert(t.parent_of(c) == Some(r));
        lemma_index_of_child(t, r, q);
        if q + 1 < t.nkids(r) {
            lemma_windows_from_empty(t, r, q + 1, q + 1);
            assert(windows(t, t.kid(r, q + 1)).len() == 0);
            assert(next_window_spec(t, c) is None);
            assert(false);
        }
        assert(next_window_spec(t, c) == next_window_spec(t, r));
    }
}

/// The inductive heart of the round trip: when the previous-window search
/// from `j` answers `m` and the next-window search from `m` answers at all,
/// it answers the first window of the subtree at `j`.
proof fn lemma_prev_then_next(t: Tree, j: usize, m: usize)
    requires
        t.wf(),
        j < t.count(),
        windows_are_leaves(t),
        prev_window_spec(t, j) == Some(m),
        next_window_spec(t, m) is Some,
        windows(t, j).len() > 0,
    ensures
        next_window_spec(t, m) == Some(windows(t, j)[0]),
    decreases j,
{
    if t.parent_of(j) is None {
        assert(prev_window_spec(t, j) is None);
        assert(false);
    }
    let p = t.parent_of(j)->Some_0;
    assert(j != 0);
    assert(t.parent_ok(j));
    let kq = choose|q: int| 0 <= q < t.kids(p).len() && t.kids(p)[q] == j;
    lemma_index_of_child(t, p, kq);
    assert(t.kids(p).index_of(j) == kq);
    if kq >= 1 {
        let sib = t.kid(p, kq - 1);
        assert(t.node_ok(p));
        assert(t.child_ok(p, kq - 1));
        assert(windows(t, sib).len() > 0);
        assert(m == windows(t, sib).last());
        lemma_next_from_last(t, sib, m);
        assert(t.parent_of(sib) == Some(p));
        lemma_index_of_child(t, p, kq - 1);
        assert(t.kid(p, kq) == j);
        assert(next_window_spec(t, sib) == Some(windows(t, j)[0]));
    } else {
        assert(t.nkids(p) > 0);
        assert(t.is_window(p) ==> t.nkids(p) == 0);
        assert(!t.is_window(p));
        assert(t.child_ok(p, 0));
        assert(windows_from(t, p, 0) == windows(t, j) + windows_from(t, p, 1));
        assert(windows(t, p) == Seq::<usize>::empty() + windows_from(t, p, 0));
        assert(windows(t, p).len() > 0);
        assert(windows(t, p)[0] == windows(t, j)[0]);
        lemma_prev_then_next(t, p, m);
    }
}

/// Round-trip law: for a window `n`, in a snapshot whose windows are leaves,
/// stepping to the previous window and then forward to the next window
/// returns to `n` whenever both steps answer something. When a window may
/// itself carry children the law can fail: the forward step would answer a
/// window ancestor of `n` rather than `n`.
pub proof fn lemma_prev_next_round_trip(t: Tree, n: usize)
    requires
        t.wf(),
        n < t.count(),
        windows_are_leaves(t),
        t.is_window(n),
        prev_window_spec(t, n) is Some,
        next_window_spec(t, prev_window_spec(t, n)->Some_0) is Some,
    ensures
        next_window_spec(t, prev_window_spec(t, n)->Some_0) == Some(n),
{
    let m = prev_window_spec(t, n)->Some_0;
    lemma_windows_head(t, n);
    lemma_prev_then_next(t, n, m);
}

} // verus!
