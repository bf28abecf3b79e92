use faust::document::{Document, Fetched};
use faust::layout::{Axis, Dir, Node, PaneId, Panes, HALF, MIN_RATIO, RATIO_SCALE};

/// A document for a file that does not exist: no I/O, no parsing.
fn doc(name: &str) -> Document {
    Document::open(format!("/nonexistent/{name}.md"), Fetched::Missing)
}

fn with_tabs(names: &[&str]) -> Panes {
    let mut panes = Panes::new();
    for name in names {
        panes.active_mut().tabs.push(doc(name));
    }
    panes.active_mut().active = names.len().saturating_sub(1);
    panes
}

fn titles(panes: &Panes, id: PaneId) -> Vec<String> {
    panes
        .pane(id)
        .map(|pane| pane.tabs.iter().map(|tab| tab.title.clone()).collect())
        .unwrap_or_default()
}

#[test]
fn a_split_moves_the_current_tab_and_leaves_the_one_on_its_left() {
    let mut panes = with_tabs(&["a", "b", "c"]);
    let old = panes.focus();
    let new = panes.split(Axis::Row);

    assert_eq!(panes.focus(), new);
    assert_eq!(titles(&panes, new), ["c"]);
    assert_eq!(titles(&panes, old), ["a", "b"]);
    assert_eq!(panes.pane(old).unwrap().active, 1);
}

#[test]
fn splitting_a_lone_tab_leaves_an_empty_pane_behind() {
    let mut panes = with_tabs(&["a"]);
    let old = panes.focus();
    let new = panes.split(Axis::Column);

    assert_eq!(titles(&panes, new), ["a"]);
    assert!(titles(&panes, old).is_empty());
    assert_eq!(panes.len(), 2);
}

#[test]
fn closing_a_pane_hands_its_tabs_to_the_survivor() {
    let mut panes = with_tabs(&["a", "b"]);
    let old = panes.focus();
    panes.split(Axis::Row);
    panes.close();

    assert_eq!(panes.focus(), old);
    assert_eq!(panes.len(), 1);
    assert_eq!(titles(&panes, old), ["a", "b"]);
}

#[test]
fn only_gathers_every_tab_into_the_focused_pane() {
    let mut panes = with_tabs(&["a", "b", "c"]);
    panes.split(Axis::Row);
    panes.split(Axis::Column);
    assert_eq!(panes.len(), 3);

    let keep = panes.focus();
    panes.only();
    assert_eq!(panes.len(), 1);
    assert_eq!(titles(&panes, keep).len(), 3);
}

#[test]
fn the_last_pane_cannot_be_closed() {
    let mut panes = with_tabs(&["a"]);
    panes.close();
    assert_eq!(panes.len(), 1);
}

#[test]
fn dragging_a_tab_within_a_pane_reorders_it() {
    let mut panes = with_tabs(&["a", "b", "c"]);
    let id = panes.focus();
    panes.move_tab(id, 0, id, 3);
    assert_eq!(titles(&panes, id), ["b", "c", "a"]);
    assert_eq!(panes.pane(id).unwrap().active, 2);

    // A drop either side of a tab's own place changes nothing.
    panes.move_tab(id, 1, id, 2);
    assert_eq!(titles(&panes, id), ["b", "c", "a"]);
}

#[test]
fn dragging_a_tab_to_another_pane_moves_the_focus_with_it() {
    let mut panes = with_tabs(&["a", "b", "c"]);
    let old = panes.focus();
    let new = panes.split(Axis::Row);
    panes.set_focus(old);

    panes.move_tab(old, 0, new, 0);
    assert_eq!(titles(&panes, new), ["a", "c"]);
    assert_eq!(titles(&panes, old), ["b"]);
    assert_eq!(panes.focus(), new);
    assert_eq!(panes.pane(new).unwrap().active, 0);
}

#[test]
fn a_ratio_stays_off_the_edges_of_the_tree() {
    let mut panes = with_tabs(&["a"]);
    panes.split(Axis::Row);
    panes.set_ratio(0, RATIO_SCALE * 5);
    match panes.root() {
        Node::Split { ratio, .. } => assert_eq!(*ratio, RATIO_SCALE - MIN_RATIO),
        Node::Leaf(_) => panic!("expected a split"),
    }
    panes.set_ratio(0, 0);
    assert!(matches!(panes.root(), Node::Split { ratio, .. } if *ratio == MIN_RATIO));
    panes.equalize();
    assert!(matches!(panes.root(), Node::Split { ratio, .. } if *ratio == HALF));
}

#[test]
fn the_layout_order_reads_left_to_right() {
    let mut panes = with_tabs(&["one"]);
    let a = panes.focus();
    let b = panes.split(Axis::Row);
    let c = panes.split(Axis::Column);
    assert_eq!(panes.order(), vec![a, b, c]);
    panes.set_focus(a);
    panes.cycle(true);
    assert_eq!(panes.focus(), b);
    panes.cycle(false);
    panes.cycle(false);
    assert_eq!(panes.focus(), c);
    panes.set_focus(99);
    assert_eq!(panes.focus(), c);
}

#[test]
fn closing_the_middle_pane_hands_over_to_its_sibling() {
    let mut panes = with_tabs(&["x", "y"]);
    let a = panes.focus();
    let b = panes.split(Axis::Row);
    let c = panes.split(Axis::Column);
    panes.set_focus(b);
    panes.close();
    assert_eq!(panes.focus(), c);
    assert_eq!(panes.order(), vec![a, c]);
    assert_eq!(titles(&panes, c), ["y"]);
}

#[test]
fn directions_name_their_axis() {
    assert_eq!(Dir::Left.axis(), Axis::Row);
    assert_eq!(Dir::Down.axis(), Axis::Column);
}

#[test]
fn taking_a_tab_leaves_its_left_neighbour_showing() {
    let mut panes = with_tabs(&["a", "b", "c"]);
    let pane = panes.active_mut();
    pane.active = 1;
    let taken = pane.take(1).expect("a tab");
    assert_eq!(taken.title, "b");
    assert_eq!(pane.active, 0);
    assert!(pane.take(5).is_none());
    assert_eq!(pane.doc().map(|d| d.title.as_str()), Some("a"));
}

#[test]
fn cycling_tabs_wraps_around_both_ends() {
    let mut panes = with_tabs(&["a", "b", "c"]);
    let pane = panes.active_mut();
    pane.cycle_tab(true);
    assert_eq!(pane.active, 0);
    pane.cycle_tab(false);
    assert_eq!(pane.active, 2);
    pane.cycle_tab(false);
    assert_eq!(pane.active, 1);
}

#[test]
fn cycling_a_lone_tab_does_nothing() {
    let mut panes = with_tabs(&["a"]);
    let pane = panes.active_mut();
    pane.cycle_tab(true);
    assert_eq!(pane.active, 0);
}

#[test]
fn close_others_keeps_only_the_current_tab() {
    let mut panes = with_tabs(&["a", "b", "c"]);
    panes.active_mut().active = 1;
    panes.active_mut().close_others();
    let id = panes.focus();
    assert_eq!(titles(&panes, id), ["b"]);
    assert_eq!(panes.active().active, 0);
}

#[test]
fn showing_an_open_file_focuses_its_tab() {
    let mut panes = with_tabs(&["a", "b", "c"]);
    let pane = panes.active_mut();
    assert!(pane.show_path("/nonexistent/b.md"));
    assert_eq!(pane.active, 1);
    assert!(!pane.show_path("/nonexistent/d.md"));
    assert_eq!(pane.active, 1);
}

#[test]
fn putting_a_document_past_the_end_appends_and_shows_it() {
    let mut panes = with_tabs(&["a", "b"]);
    let pane = panes.active_mut();
    pane.active = 0;
    let at = pane.put(doc("c"), usize::MAX);
    assert_eq!(at, 2);
    assert_eq!(pane.active, 2);
    assert_eq!(pane.tabs.len(), 3);
}

#[test]
fn close_all_empties_every_pane_and_keeps_the_splits() {
    let mut panes = with_tabs(&["a", "b", "c"]);
    let first = panes.focus();
    let second = panes.split(Axis::Row);
    panes.close_all();
    assert_eq!(panes.len(), 2);
    assert_eq!(panes.focus(), second);
    assert!(titles(&panes, first).is_empty());
    assert!(titles(&panes, second).is_empty());
}

#[test]
fn selecting_a_tab_past_the_end_does_nothing() {
    let mut panes = with_tabs(&["a", "b"]);
    let pane = panes.active_mut();
    pane.select(0);
    assert_eq!(pane.active, 0);
    pane.select(5);
    assert_eq!(pane.active, 0);
}

#[test]
fn an_open_file_is_found_by_its_components() {
    let mut panes = with_tabs(&["a", "b"]);
    let pane = panes.active_mut();
    assert!(pane.show_path("/nonexistent//a.md"));
    assert_eq!(pane.active, 0);
}
