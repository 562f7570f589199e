use xmux::app::App;
use xmux::config::Config;
use xmux::event::AppEvent;
use xmux::input::{KeyCode, KeyEvent, KeyModifiers};
use xmux::layout::{Rect, Split};
use xmux::render::{border_cell_style, cursor_cell, is_selected, toast_layout, BorderStyle};
use xmux::window::Effect;

#[test]
fn selection_covers_whole_rows_between_its_ends() {
    let sel = Some((5, 2, 3, 4));
    assert!(!is_selected(sel, 4, 2));
    assert!(is_selected(sel, 5, 2));
    assert!(is_selected(sel, 90, 2));
    assert!(is_selected(sel, 0, 3));
    assert!(is_selected(sel, 3, 4));
    assert!(!is_selected(sel, 4, 4));
    assert!(!is_selected(sel, 0, 5));
    assert!(!is_selected(None, 0, 0));
    assert!(is_selected(Some((2, 1, 4, 1)), 3, 1));
    assert!(!is_selected(Some((2, 1, 4, 1)), 5, 1));
}

#[test]
fn cursor_shown_only_inside_the_pane() {
    let r = Rect { x: 10, y: 2, width: 5, height: 3 };
    assert_eq!(cursor_cell(r, 1, 4), Some((14, 3)));
    assert_eq!(cursor_cell(r, 3, 0), None);
    assert_eq!(cursor_cell(r, 0, 5), None);
}

#[test]
fn toast_sits_in_the_bottom_right_corner() {
    let (x, y, text) = toast_layout("Copied!", 100, 30);
    assert_eq!(text, " Copied! ");
    assert_eq!(x, 100 - 9 - 1);
    assert_eq!(y, 28);
    let (x, y, _) = toast_layout("a long message", 5, 1);
    assert_eq!((x, y), (0, 0));
    let (x, _, _) = toast_layout("\u{3042}", 20, 10);
    assert_eq!(x, 20 - 5 - 1);
}

fn split_app() -> App {
    let mut effects: Vec<Effect> = Vec::new();
    let mut app = App::new(&Config::default(), 100, 30, &mut effects);
    let k = |c: KeyCode, m: KeyModifiers| AppEvent::KeyInput(KeyEvent { code: c, modifiers: m });
    app.update(k(KeyCode::Char('b'), KeyModifiers::control()), 100, 30, &mut effects);
    app.update(k(KeyCode::Char('%'), KeyModifiers::none()), 100, 30, &mut effects);
    app
}

#[test]
fn frame_of_a_split_window() {
    let app = split_app();
    let frame = app.frame(100, 30);
    assert_eq!(frame.pane_area, Rect { x: 22, y: 0, width: 78, height: 30 });
    assert_eq!(
        frame.panes,
        vec![
            (0, Rect { x: 22, y: 0, width: 39, height: 30 }),
            (1, Rect { x: 62, y: 0, width: 38, height: 30 }),
        ]
    );
    assert_eq!(frame.cursor_pane, Some((1, Rect { x: 62, y: 0, width: 38, height: 30 })));
    assert_eq!(frame.borders.len(), 30);
    for (i, c) in frame.borders.iter().enumerate() {
        assert_eq!((c.x, c.y, c.orientation, c.style), (61, i as u16, Split::Vertical, BorderStyle::Active));
    }
    assert!(frame.toast.is_none());
    assert!(frame.selection.is_none());
}

#[test]
fn border_next_to_a_notified_pane_is_marked() {
    let mut app = split_app();
    let mut effects: Vec<Effect> = Vec::new();
    let ev = AppEvent::ExternalNotification { title: String::new(), body: String::new(), window: Some(1), pane: Some(0) };
    app.update(ev, 100, 30, &mut effects);
    let w = &app.windows[0];
    let area = app.pane_area(100, 30);
    let rects = w.layout.compute_rects(area);
    let borders = w.layout.compute_borders(area);
    assert_eq!(border_cell_style(w, &rects, borders[0], 0), BorderStyle::Notified);
    let frame = app.frame(100, 30);
    assert!(frame.borders.iter().all(|c| c.style == BorderStyle::Notified));
}

#[test]
fn frame_shows_toast_and_selection() {
    let mut app = split_app();
    let mut effects: Vec<Effect> = Vec::new();
    app.finish_copy("x".to_string(), &mut effects);
    app.update(AppEvent::MouseDrag { col: 50, row: 9 }, 100, 30, &mut effects);
    app.update(AppEvent::MouseDrag { col: 30, row: 2 }, 100, 30, &mut effects);
    let frame = app.frame(100, 30);
    assert_eq!(frame.toast, Some((100 - 9 - 1, 28, " Copied! ".to_string())));
    assert_eq!(frame.selection, Some((30, 2, 50, 9)));
}
