use xmux::layout::{split_rect, LayoutNode, Rect, Split, HALF_RATIO};
use xmux::window::{Direction, Effect, Window};

const AREA: Rect = Rect { x: 0, y: 0, width: 80, height: 24 };

fn ids(w: &Window) -> Vec<u32> {
    w.panes.iter().map(|p| p.id).collect()
}

/// Pane 0 on the left, panes 1 (top) and 2 (bottom) on the right; 2 active.
fn three_panes() -> Window {
    let mut effects: Vec<Effect> = Vec::new();
    let mut w = Window::new(0, 80, 24, 0, &mut effects);
    w.split_active_pane(Split::Vertical, AREA, 1, &mut effects);
    w.split_active_pane(Split::Horizontal, AREA, 2, &mut effects);
    w
}

#[test]
fn focus_goes_to_the_nearest_pane_and_the_first_on_a_tie() {
    let mut w = three_panes();
    w.active_pane_id = 0;
    w.move_focus(Direction::Right, AREA);
    assert_eq!(w.active_pane_id, 1);
    w.move_focus(Direction::Down, AREA);
    assert_eq!(w.active_pane_id, 2);
    w.move_focus(Direction::Left, AREA);
    assert_eq!(w.active_pane_id, 0);
    w.move_focus(Direction::Left, AREA);
    assert_eq!(w.active_pane_id, 0);
    assert_eq!(ids(&w), vec![0, 1, 2]);
}

#[test]
fn focus_stays_while_a_pane_is_zoomed() {
    let mut w = three_panes();
    w.zoomed_pane_id = Some(2);
    w.move_focus(Direction::Left, AREA);
    assert_eq!(w.active_pane_id, 2);
    assert_eq!(w.zoomed_pane_id, Some(2));
}

#[test]
fn closing_a_zoomed_active_pane_moves_focus_to_its_sibling() {
    let mut w = three_panes();
    w.zoomed_pane_id = Some(2);
    let mut effects: Vec<Effect> = Vec::new();
    assert!(w.close_pane(2, AREA, &mut effects));
    assert_eq!(w.zoomed_pane_id, None);
    assert_eq!(ids(&w), vec![0, 1]);
    assert_eq!(w.layout.pane_ids(), vec![0, 1]);
    assert_eq!(w.active_pane_id, 1);
    assert!(matches!(effects[0], Effect::DropPane { pane_id: 2 }));
}

#[test]
fn closing_an_inactive_pane_keeps_the_focus() {
    let mut w = three_panes();
    w.zoomed_pane_id = Some(1);
    let mut effects: Vec<Effect> = Vec::new();
    assert!(w.close_pane(0, AREA, &mut effects));
    assert_eq!(w.zoomed_pane_id, Some(1));
    assert_eq!(ids(&w), vec![1, 2]);
    assert_eq!(w.layout.pane_ids(), vec![1, 2]);
    assert_eq!(w.active_pane_id, 2);
}

#[test]
fn closing_the_only_pane_reports_false_and_keeps_it() {
    let mut effects: Vec<Effect> = Vec::new();
    let mut w = Window::new(4, 80, 24, 0, &mut effects);
    w.zoomed_pane_id = Some(4);
    effects.clear();
    assert!(!w.close_pane(4, AREA, &mut effects));
    assert_eq!(ids(&w), vec![4]);
    assert_eq!(w.layout.pane_ids(), vec![4]);
    assert_eq!(w.active_pane_id, 4);
    assert_eq!(w.zoomed_pane_id, None);
    assert!(effects.is_empty());
}

#[test]
fn closing_an_unknown_pane_changes_nothing() {
    let mut w = three_panes();
    let mut effects: Vec<Effect> = Vec::new();
    assert!(w.close_pane(9, AREA, &mut effects));
    assert_eq!(ids(&w), vec![0, 1, 2]);
    assert_eq!(w.layout.pane_ids(), vec![0, 1, 2]);
    assert_eq!(w.active_pane_id, 2);
    assert!(effects.is_empty());
}

#[test]
fn rects_follow_the_leaves_left_to_right() {
    let mut layout = LayoutNode::single(0);
    layout.split_pane(0, 1, Split::Vertical);
    layout.split_pane(1, 2, Split::Horizontal);
    let area = Rect { x: 0, y: 0, width: 101, height: 50 };
    let rects = layout.compute_rects(area);
    let order: Vec<u32> = rects.iter().map(|p| p.0).collect();
    assert_eq!(order, layout.pane_ids());
    let (f, s) = split_rect(area, Split::Vertical, HALF_RATIO);
    let (sf, ss) = split_rect(s, Split::Horizontal, HALF_RATIO);
    assert_eq!(rects, vec![(0, f), (1, sf), (2, ss)]);
}

#[test]
fn borders_come_one_per_split_in_preorder() {
    let mut layout = LayoutNode::single(0);
    layout.split_pane(0, 1, Split::Vertical);
    layout.split_pane(1, 2, Split::Horizontal);
    let area = Rect { x: 0, y: 0, width: 101, height: 50 };
    let borders = layout.compute_borders(area);
    assert_eq!(borders.len() + 1, layout.pane_ids().len());
    let (f, s) = split_rect(area, Split::Vertical, HALF_RATIO);
    assert_eq!(borders[0].orientation, Split::Vertical);
    assert_eq!((borders[0].x, borders[0].y, borders[0].length), (f.x + f.width, 0, 50));
    let (sf, _) = split_rect(s, Split::Horizontal, HALF_RATIO);
    assert_eq!(borders[1].orientation, Split::Horizontal);
    assert_eq!((borders[1].x, borders[1].y, borders[1].length), (s.x, sf.y + sf.height, s.width));
}
