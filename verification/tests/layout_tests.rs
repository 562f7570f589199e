use xmux::layout::{split_rect, LayoutNode, Rect, Split, HALF_RATIO};

fn area(x: u16, y: u16, w: u16, h: u16) -> Rect {
    Rect { x, y, width: w, height: h }
}

#[test]
fn single_leaf_computes_full_area() {
    let layout = LayoutNode::single(0);
    let rects = layout.compute_rects(area(0, 0, 100, 50));
    assert_eq!(rects.len(), 1);
    assert_eq!(rects[0].0, 0);
    assert_eq!(rects[0].1.width, 100);
    assert_eq!(rects[0].1.height, 50);
}

#[test]
fn pane_ids_single() {
    let layout = LayoutNode::single(42);
    assert_eq!(layout.pane_ids(), vec![42]);
}

#[test]
fn first_pane_id_single() {
    let layout = LayoutNode::single(7);
    assert_eq!(layout.first_pane_id(), 7);
}

#[test]
fn split_pane_vertical() {
    let mut layout = LayoutNode::single(0);
    assert!(layout.split_pane(0, 1, Split::Vertical));
    assert_eq!(layout.pane_ids(), vec![0, 1]);
}

#[test]
fn split_pane_nonexistent_target() {
    let mut layout = LayoutNode::single(0);
    assert!(!layout.split_pane(99, 1, Split::Vertical));
    assert_eq!(layout.pane_ids(), vec![0]);
}

#[test]
fn split_vertical_rects() {
    let mut layout = LayoutNode::single(0);
    layout.split_pane(0, 1, Split::Vertical);
    let rects = layout.compute_rects(area(0, 0, 101, 50));
    assert_eq!(rects.len(), 2);
    let (id0, r0) = &rects[0];
    let (id1, r1) = &rects[1];
    assert_eq!(*id0, 0);
    assert_eq!(*id1, 1);
    assert_eq!(r0.x, 0);
    assert_eq!(r0.width, 50);
    assert_eq!(r1.x, 51);
    assert_eq!(r1.width, 50);
    assert_eq!(r0.height, 50);
    assert_eq!(r1.height, 50);
}

#[test]
fn split_horizontal_rects() {
    let mut layout = LayoutNode::single(0);
    layout.split_pane(0, 1, Split::Horizontal);
    let rects = layout.compute_rects(area(0, 0, 80, 41));
    assert_eq!(rects.len(), 2);
    let (_, r0) = &rects[0];
    let (_, r1) = &rects[1];
    assert_eq!(r0.y, 0);
    assert_eq!(r0.height, 20);
    assert_eq!(r1.y, 21);
    assert_eq!(r1.height, 20);
    assert_eq!(r0.width, 80);
    assert_eq!(r1.width, 80);
}

#[test]
fn remove_pane_from_split() {
    let mut layout = LayoutNode::single(0);
    layout.split_pane(0, 1, Split::Vertical);
    let remaining = layout.remove_pane(0);
    assert_eq!(remaining, Some(1));
    assert_eq!(layout.pane_ids(), vec![1]);
}

#[test]
fn remove_second_pane_from_split() {
    let mut layout = LayoutNode::single(0);
    layout.split_pane(0, 1, Split::Vertical);
    let remaining = layout.remove_pane(1);
    assert_eq!(remaining, Some(0));
    assert_eq!(layout.pane_ids(), vec![0]);
}

#[test]
fn remove_pane_from_leaf_returns_none() {
    let mut layout = LayoutNode::single(0);
    assert_eq!(layout.remove_pane(0), None);
}

#[test]
fn remove_nonexistent_pane() {
    let mut layout = LayoutNode::single(0);
    layout.split_pane(0, 1, Split::Vertical);
    assert_eq!(layout.remove_pane(99), None);
}

#[test]
fn nested_split_and_remove() {
    let mut layout = LayoutNode::single(0);
    layout.split_pane(0, 1, Split::Vertical);
    layout.split_pane(1, 2, Split::Horizontal);
    assert_eq!(layout.pane_ids(), vec![0, 1, 2]);

    let remaining = layout.remove_pane(1);
    assert_eq!(remaining, Some(2));
    assert_eq!(layout.pane_ids(), vec![0, 2]);
}

#[test]
fn split_rect_vertical() {
    let (first, second) = split_rect(area(10, 0, 81, 40), Split::Vertical, HALF_RATIO);
    assert_eq!(first.x, 10);
    assert_eq!(first.width, 40);
    assert_eq!(second.x, 51);
    assert_eq!(second.width, 40);
}

#[test]
fn split_rect_horizontal() {
    let (first, second) = split_rect(area(0, 5, 80, 41), Split::Horizontal, HALF_RATIO);
    assert_eq!(first.y, 5);
    assert_eq!(first.height, 20);
    assert_eq!(second.y, 26);
    assert_eq!(second.height, 20);
}

#[test]
fn compute_rects_with_offset() {
    let layout = LayoutNode::single(0);
    let rects = layout.compute_rects(area(22, 0, 58, 40));
    assert_eq!(rects[0].1.x, 22);
    assert_eq!(rects[0].1.width, 58);
}

#[test]
fn first_pane_id_nested() {
    let mut layout = LayoutNode::single(5);
    layout.split_pane(5, 10, Split::Vertical);
    layout.split_pane(10, 15, Split::Horizontal);
    assert_eq!(layout.first_pane_id(), 5);
}

#[test]
fn no_borders_for_single_pane() {
    let layout = LayoutNode::single(0);
    let borders = layout.compute_borders(area(0, 0, 80, 40));
    assert!(borders.is_empty());
}

#[test]
fn vertical_split_has_one_vertical_border() {
    let mut layout = LayoutNode::single(0);
    layout.split_pane(0, 1, Split::Vertical);
    let borders = layout.compute_borders(area(0, 0, 101, 50));
    assert_eq!(borders.len(), 1);
    assert_eq!(borders[0].orientation, Split::Vertical);
    assert_eq!(borders[0].x, 50);
    assert_eq!(borders[0].y, 0);
    assert_eq!(borders[0].length, 50);
}

#[test]
fn horizontal_split_has_one_horizontal_border() {
    let mut layout = LayoutNode::single(0);
    layout.split_pane(0, 1, Split::Horizontal);
    let borders = layout.compute_borders(area(0, 0, 80, 41));
    assert_eq!(borders.len(), 1);
    assert_eq!(borders[0].orientation, Split::Horizontal);
    assert_eq!(borders[0].y, 20);
    assert_eq!(borders[0].x, 0);
    assert_eq!(borders[0].length, 80);
}

#[test]
fn nested_split_has_two_borders() {
    let mut layout = LayoutNode::single(0);
    layout.split_pane(0, 1, Split::Vertical);
    layout.split_pane(1, 2, Split::Horizontal);
    let borders = layout.compute_borders(area(0, 0, 101, 50));
    assert_eq!(borders.len(), 2);
}

#[test]
fn split_rect_tiny_area_has_empty_second_part() {
    let (first, second) = split_rect(area(3, 4, 1, 10), Split::Vertical, HALF_RATIO);
    assert_eq!(first, area(3, 4, 0, 10));
    assert_eq!(second, area(4, 4, 0, 10));
    let (first, second) = split_rect(area(0, 0, 10, 2), Split::Horizontal, HALF_RATIO);
    assert_eq!(first, area(0, 0, 10, 1));
    assert_eq!(second, area(0, 2, 10, 0));
}

#[test]
fn split_then_remove_restores_layout() {
    let mut layout = LayoutNode::single(3);
    layout.split_pane(3, 4, Split::Vertical);
    let before = layout.compute_rects(area(0, 0, 120, 40));
    layout.split_pane(4, 9, Split::Horizontal);
    assert_eq!(layout.remove_pane(9), Some(4));
    assert_eq!(layout.compute_rects(area(0, 0, 120, 40)), before);
}

#[test]
fn rects_tile_without_overlap() {
    let mut layout = LayoutNode::single(0);
    layout.split_pane(0, 1, Split::Vertical);
    layout.split_pane(1, 2, Split::Horizontal);
    layout.split_pane(0, 3, Split::Horizontal);
    let a = area(5, 1, 97, 33);
    let rects = layout.compute_rects(a);
    assert_eq!(rects.iter().map(|(id, _)| *id).collect::<Vec<_>>(), layout.pane_ids());
    for (i, (_, r)) in rects.iter().enumerate() {
        assert!(r.x >= a.x && r.x + r.width <= a.x + a.width);
        assert!(r.y >= a.y && r.y + r.height <= a.y + a.height);
        for (_, s) in rects.iter().skip(i + 1) {
            let apart = r.x + r.width <= s.x || s.x + s.width <= r.x || r.y + r.height <= s.y
                || s.y + s.height <= r.y;
            assert!(apart);
        }
    }
}

#[test]
fn resize_steps_the_nearest_split_of_that_direction() {
    let a = area(0, 0, 101, 50);
    let mut layout = LayoutNode::single(0);
    layout.split_pane(0, 1, Split::Vertical);
    layout.split_pane(1, 2, Split::Horizontal);
    assert!(layout.resize_pane(a, 2, Split::Vertical, true));
    let rects = layout.compute_rects(a);
    assert_eq!(rects[0].1.width, 51);
    assert!(layout.resize_pane(a, 2, Split::Horizontal, false));
    let rects = layout.compute_rects(a);
    assert_eq!(rects[1].1.height, 24);
    assert_eq!(rects[2].1.height, 25);
    assert!(!layout.resize_pane(a, 0, Split::Horizontal, true));
    assert!(!layout.resize_pane(a, 9, Split::Vertical, true));
    assert!(layout.holds_pane(2));
    assert!(!layout.holds_pane(9));
    assert!(layout.path_has_split(2, Split::Horizontal));
    assert!(!layout.path_has_split(0, Split::Horizontal));
    assert_eq!(layout.pane_ids(), vec![0, 1, 2]);
}

#[test]
fn resize_moves_a_wide_split_by_at_least_one_column() {
    let a = area(0, 0, 3001, 10);
    let mut layout = LayoutNode::single(0);
    layout.split_pane(0, 1, Split::Vertical);
    let before = layout.compute_rects(a)[0].1.width;
    assert!(layout.resize_pane(a, 1, Split::Vertical, false));
    let after = layout.compute_rects(a)[0].1.width;
    assert!(after < before);
    assert!(layout.resize_pane(a, 1, Split::Vertical, true));
    assert!(layout.compute_rects(a)[0].1.width > after);
}
