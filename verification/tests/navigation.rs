//! Scenario tests for the snapshot tree and its navigation queries.

use i4::tree::NodeKind;
use i4::tree::Rect;
use i4::tree::Tree;

fn rect() -> Rect {
    Rect { x: 0, y: 0, width: 800, height: 600 }
}

/// Root -> Output O -> Workspace W -> [Window A, Split S -> [Window B,
/// Window C], Window D], with B focused. Returns the tree and the arena
/// indices (o, w, a, s, b, c, d).
fn scenario_tree() -> (Tree, usize, usize, usize, usize, usize, usize, usize) {
    let mut t = Tree::new(1, NodeKind::Root, None, rect(), false, None);
    let o = t.add_child(0, 2, NodeKind::Output, Some("O".to_string()), rect(), false, None);
    let w = t.add_child(o, 3, NodeKind::Workspace, Some("W".to_string()), rect(), false, None);
    let a = t.add_child(w, 4, NodeKind::Container, Some("A".to_string()), rect(), false, Some(100));
    let s = t.add_child(w, 5, NodeKind::Container, Some("S".to_string()), rect(), false, None);
    let b = t.add_child(s, 6, NodeKind::Container, Some("B".to_string()), rect(), true, Some(101));
    let c = t.add_child(s, 7, NodeKind::Container, Some("C".to_string()), rect(), false, Some(102));
    let d = t.add_child(w, 8, NodeKind::Container, Some("D".to_string()), rect(), false, Some(103));
    (t, o, w, a, s, b, c, d)
}

#[test]
fn builder_records_the_supplied_data() {
    let (t, o, w, a, s, b, _c, d) = scenario_tree();
    assert_eq!(t.nodes.len(), 8);
    assert_eq!(t.nodes[0].id, 1);
    assert_eq!(t.nodes[b].id, 6);
    assert_eq!(t.nodes[b].name, Some("B".to_string()));
    assert_eq!(t.nodes[b].window_handle, Some(101));
    assert!(t.nodes[b].focused);
    assert_eq!(t.nodes[b].parent, Some(s));
    assert_eq!(t.nodes[w].children, vec![a, s, d]);
    assert_eq!(t.nodes[o].parent, Some(0));
    assert_eq!(t.nodes[0].parent, None);
    assert_eq!(t.children(w), &vec![a, s, d]);
    assert_eq!(t.parent(b), Some(s));
    assert_eq!(t.parent(0), None);
}

#[test]
fn collect_windows_in_document_order() {
    let (t, _o, _w, a, _s, b, c, d) = scenario_tree();
    assert_eq!(t.collect_windows(0), vec![a, b, c, d]);
}

#[test]
fn collect_windows_of_a_subtree() {
    let (t, _o, _w, _a, s, b, c, _d) = scenario_tree();
    assert_eq!(t.collect_windows(s), vec![b, c]);
}

#[test]
fn find_focused_names_the_focused_window() {
    let (t, _o, _w, _a, _s, b, _c, _d) = scenario_tree();
    assert_eq!(t.find_focused(0), Some(b));
}

#[test]
fn find_focused_none_without_focus() {
    let mut t = Tree::new(1, NodeKind::Root, None, rect(), false, None);
    let o = t.add_child(0, 2, NodeKind::Output, None, rect(), false, None);
    t.add_child(o, 3, NodeKind::Workspace, None, rect(), false, None);
    assert_eq!(t.find_focused(0), None);
}

#[test]
fn workspace_and_output_of_the_focused_window() {
    let (t, o, w, _a, _s, b, _c, _d) = scenario_tree();
    assert_eq!(t.get_parent_workspace(b), Some(w));
    assert_eq!(t.get_parent_output(b), Some(o));
}

#[test]
fn ancestor_lookup_is_inclusive() {
    let (t, _o, w, _a, _s, _b, _c, _d) = scenario_tree();
    assert_eq!(t.get_parent_workspace(w), Some(w));
    assert_eq!(t.find_ancestor(w, NodeKind::Workspace), Some(w));
}

#[test]
fn ancestor_lookup_none_above_the_kind() {
    let (t, o, _w, _a, _s, _b, _c, _d) = scenario_tree();
    assert_eq!(t.get_parent_workspace(o), None);
    assert_eq!(t.get_parent_workspace(0), None);
    assert_eq!(t.find_ancestor(0, NodeKind::Output), None);
}

#[test]
fn next_window_within_a_split() {
    let (t, _o, _w, _a, _s, b, c, _d) = scenario_tree();
    assert_eq!(t.next_window(b), Some(c));
}

#[test]
fn next_window_descends_into_the_sibling_split() {
    let (t, _o, _w, a, _s, b, _c, _d) = scenario_tree();
    assert_eq!(t.next_window(a), Some(b));
}

#[test]
fn next_window_climbs_out_of_a_split() {
    let (t, _o, _w, _a, _s, _b, c, d) = scenario_tree();
    assert_eq!(t.next_window(c), Some(d));
}

#[test]
fn previous_window_crosses_the_split_boundary() {
    let (t, _o, _w, a, _s, b, _c, _d) = scenario_tree();
    assert_eq!(t.previous_window(b), Some(a));
}

#[test]
fn previous_window_takes_the_last_window_of_the_left_sibling() {
    let (t, _o, _w, _a, _s, _b, c, d) = scenario_tree();
    assert_eq!(t.previous_window(d), Some(c));
}

#[test]
fn no_window_beyond_the_ends() {
    let (t, _o, _w, a, _s, _b, _c, d) = scenario_tree();
    assert_eq!(t.next_window(d), None);
    assert_eq!(t.previous_window(a), None);
}

#[test]
fn the_root_has_no_neighbours() {
    let (t, _o, _w, _a, _s, _b, _c, _d) = scenario_tree();
    assert_eq!(t.next_window(0), None);
    assert_eq!(t.previous_window(0), None);
}

#[test]
fn first_and_last_window_of_a_subtree() {
    let (t, _o, w, a, s, b, c, d) = scenario_tree();
    assert_eq!(t.first_window_in(0), Some(a));
    assert_eq!(t.last_window_in(0), Some(d));
    assert_eq!(t.first_window_in(s), Some(b));
    assert_eq!(t.last_window_in(s), Some(c));
    assert_eq!(t.first_window_in(w), Some(a));
    assert_eq!(t.last_window_in(d), Some(d));
}

#[test]
fn first_and_last_window_of_a_windowless_subtree() {
    let mut t = Tree::new(1, NodeKind::Root, None, rect(), false, None);
    let w = t.add_child(0, 2, NodeKind::Workspace, None, rect(), false, None);
    let e = t.add_child(w, 3, NodeKind::Container, None, rect(), false, None);
    assert_eq!(t.first_window_in(0), None);
    assert_eq!(t.last_window_in(0), None);
    assert_eq!(t.collect_windows(0), Vec::<usize>::new());
    assert_eq!(t.collect_windows(e), Vec::<usize>::new());
}

/// The documented boundary: when the sibling subtree immediately adjacent to
/// the current node holds no window, the search reports that nothing was
/// found there and does not go on to a further sibling.
#[test]
fn empty_adjacent_split_stops_the_search() {
    let mut t = Tree::new(1, NodeKind::Root, None, rect(), false, None);
    let w = t.add_child(0, 2, NodeKind::Workspace, None, rect(), false, None);
    let a = t.add_child(w, 3, NodeKind::Container, None, rect(), false, Some(100));
    let e = t.add_child(w, 4, NodeKind::Container, None, rect(), false, None);
    let b = t.add_child(w, 5, NodeKind::Container, None, rect(), false, Some(101));
    assert_eq!(t.next_window(a), None);
    assert_eq!(t.previous_window(b), None);
    assert_eq!(t.next_window(e), Some(b));
    assert_eq!(t.previous_window(e), Some(a));
    assert_eq!(t.collect_windows(0), vec![a, b]);
}

/// One hop back and then forward returns to the start, here at a position
/// with both neighbours present.
#[test]
fn previous_then_next_round_trip() {
    let (t, _o, _w, _a, _s, b, c, d) = scenario_tree();
    for n in [b, c, d] {
        let m = t.previous_window(n).unwrap();
        assert_eq!(t.next_window(m), Some(n));
    }
}

#[test]
fn deep_descent_to_the_first_window() {
    // W -> [Window A, Split S1 -> [Split S2 -> [Window B, Window C]]]
    let mut t = Tree::new(1, NodeKind::Root, None, rect(), false, None);
    let w = t.add_child(0, 2, NodeKind::Workspace, None, rect(), false, None);
    let a = t.add_child(w, 3, NodeKind::Container, None, rect(), false, Some(100));
    let s1 = t.add_child(w, 4, NodeKind::Container, None, rect(), false, None);
    let s2 = t.add_child(s1, 5, NodeKind::Container, None, rect(), false, None);
    let b = t.add_child(s2, 6, NodeKind::Container, None, rect(), false, Some(101));
    let c = t.add_child(s2, 7, NodeKind::Container, None, rect(), false, Some(102));
    assert_eq!(t.next_window(a), Some(b));
    assert_eq!(t.previous_window(b), Some(a));
    assert_eq!(t.next_window(c), None);
    assert_eq!(t.collect_windows(0), vec![a, b, c]);
}
