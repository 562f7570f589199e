use xmux::layout::Rect;
use xmux::screen::{plan_pane, try_extract_text, CellContent, CellDraw, ScreenGrid};

fn grid(rows: &[&[&str]]) -> ScreenGrid {
    ScreenGrid { cells: rows.iter().map(|r| r.iter().map(|c| c.to_string()).collect()).collect() }
}

fn rect(x: u16, y: u16, width: u16, height: u16) -> Rect {
    Rect { x, y, width, height }
}

#[test]
fn extract_single_line_part() {
    let g = grid(&[&["h", "e", "l", "l", "o"], &["w", "o", "r", "l", "d"]]);
    let t = try_extract_text(&g, 5, 2, rect(10, 0, 5, 2), 11, 0, 13, 0).unwrap();
    assert_eq!(t, "ell");
}

#[test]
fn extract_several_lines_trims_ends() {
    let g = grid(&[&["a", "b", "", ""], &["c", "", "", ""], &["", "", "", ""]]);
    let t = try_extract_text(&g, 4, 3, rect(0, 0, 4, 3), 1, 0, 3, 2).unwrap();
    assert_eq!(t, "b\nc");
}

#[test]
fn extract_skips_the_column_a_wide_character_covers() {
    let g = grid(&[&["\u{3042}", "", "b", "c"]]);
    let t = try_extract_text(&g, 4, 1, rect(0, 0, 4, 1), 0, 0, 3, 0).unwrap();
    assert_eq!(t, "\u{3042}bc");
}

#[test]
fn extract_clamps_to_the_pane() {
    let g = grid(&[&["x", "y"], &["z", "w"]]);
    let t = try_extract_text(&g, 2, 2, rect(5, 5, 2, 2), 0, 0, 60, 60).unwrap();
    assert_eq!(t, "xy\nzw");
}

#[test]
fn plan_marks_selected_cells_and_pads_rows() {
    let g = grid(&[&["a", "", "\u{3042}", ""], &["b", "c", "d", "e"]]);
    let rows = plan_pane(&g, 4, 2, rect(10, 5, 5, 3), Some((11, 5, 10, 6))).unwrap();
    assert_eq!(rows.len(), 3);
    assert_eq!(
        rows[0].cells,
        vec![
            CellDraw { col: 0, content: CellContent::Text, selected: false },
            CellDraw { col: 1, content: CellContent::Empty, selected: true },
            CellDraw { col: 2, content: CellContent::Text, selected: true },
        ]
    );
    assert_eq!(rows[0].pad, 1);
    assert_eq!(rows[1].cells.len(), 4);
    assert!(rows[1].cells[0].selected);
    assert!(!rows[1].cells[1].selected);
    assert_eq!(rows[1].pad, 1);
    assert!(rows[2].cells.is_empty());
    assert_eq!(rows[2].pad, 5);
}

#[test]
fn plan_marks_missing_cells() {
    let g = grid(&[&["a"]]);
    let rows = plan_pane(&g, 3, 1, rect(0, 0, 2, 1), None).unwrap();
    assert_eq!(
        rows[0].cells,
        vec![
            CellDraw { col: 0, content: CellContent::Text, selected: false },
            CellDraw { col: 1, content: CellContent::Missing, selected: false },
        ]
    );
    assert_eq!(rows[0].pad, 0);
}
