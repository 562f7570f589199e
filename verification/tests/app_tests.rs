use xmux::app::{App, Selection};
use xmux::config::Config;
use xmux::event::AppEvent;
use xmux::input::{InputMode, KeyCode, KeyEvent, KeyModifiers};
use xmux::layout::Rect;
use xmux::window::Effect;

const COLS: u16 = 100;
const ROWS: u16 = 30;

fn key(code: KeyCode, modifiers: KeyModifiers) -> AppEvent {
    AppEvent::KeyInput(KeyEvent { code, modifiers })
}

fn new_app() -> (App, Vec<Effect>) {
    let mut effects = Vec::new();
    let app = App::new(&Config::default(), COLS, ROWS, &mut effects);
    (app, effects)
}

fn prefix_then(app: &mut App, effects: &mut Vec<Effect>, code: KeyCode) -> bool {
    assert!(app.update(key(KeyCode::Char('b'), KeyModifiers::control()), COLS, ROWS, effects));
    app.update(key(code, KeyModifiers::none()), COLS, ROWS, effects)
}

#[test]
fn new_app_spawns_one_shell_beside_the_sidebar() {
    let (app, effects) = new_app();
    assert_eq!(app.windows.len(), 1);
    assert_eq!(app.active_window_idx, 0);
    assert_eq!(app.next_pane_id, 1);
    assert_eq!(effects.len(), 1);
    assert!(matches!(
        effects[0],
        Effect::SpawnPane { pane_id: 0, window_index: 0, cols: 78, rows: 30 }
    ));
    assert_eq!(app.pane_area(COLS, ROWS), Rect { x: 22, y: 0, width: 78, height: 30 });
}

#[test]
fn typing_is_written_to_the_active_pane() {
    let (mut app, mut effects) = new_app();
    effects.clear();
    assert!(app.update(key(KeyCode::Char('l'), KeyModifiers::none()), COLS, ROWS, &mut effects));
    assert_eq!(effects.len(), 1);
    assert!(matches!(&effects[0], Effect::WriteToPane { pane_id: 0, data } if data == b"l"));
}

#[test]
fn split_vertical_spawns_a_pane_in_the_right_half() {
    let (mut app, mut effects) = new_app();
    effects.clear();
    assert!(prefix_then(&mut app, &mut effects, KeyCode::Char('%')));
    let w = &app.windows[0];
    assert_eq!(w.pane_count(), 2);
    assert_eq!(w.active_pane_id, 1);
    assert_eq!(w.layout.pane_ids(), vec![0, 1]);
    assert_eq!(app.next_pane_id, 2);
    assert!(effects.iter().any(|e| matches!(e, Effect::SpawnPane { pane_id: 1, cols: 38, rows: 30, .. })));
    assert!(effects.iter().any(|e| matches!(e, Effect::ResizePane { pane_id: 0, cols: 39, rows: 30 })));
}

#[test]
fn closing_the_last_pane_quits() {
    let (mut app, mut effects) = new_app();
    assert!(!prefix_then(&mut app, &mut effects, KeyCode::Char('x')));
}

#[test]
fn closing_one_of_two_panes_keeps_running() {
    let (mut app, mut effects) = new_app();
    prefix_then(&mut app, &mut effects, KeyCode::Char('"'));
    effects.clear();
    assert!(prefix_then(&mut app, &mut effects, KeyCode::Char('x')));
    let w = &app.windows[0];
    assert_eq!(w.pane_count(), 1);
    assert_eq!(w.active_pane_id, 0);
    assert!(effects.iter().any(|e| matches!(e, Effect::DropPane { pane_id: 1 })));
    assert!(effects.iter().any(|e| matches!(e, Effect::ResizePane { pane_id: 0, cols: 78, rows: 30 })));
}

#[test]
fn prefix_q_stops_the_application() {
    let (mut app, mut effects) = new_app();
    assert!(!prefix_then(&mut app, &mut effects, KeyCode::Char('q')));
}

#[test]
fn new_window_and_switching() {
    let (mut app, mut effects) = new_app();
    effects.clear();
    assert!(prefix_then(&mut app, &mut effects, KeyCode::Char('c')));
    assert_eq!(app.windows.len(), 2);
    assert_eq!(app.active_window_idx, 1);
    assert!(matches!(effects[0], Effect::SpawnPane { pane_id: 1, window_index: 1, cols: 78, rows: 30 }));
    assert!(prefix_then(&mut app, &mut effects, KeyCode::Char('1')));
    assert_eq!(app.active_window_idx, 0);
    assert!(prefix_then(&mut app, &mut effects, KeyCode::Char('9')));
    assert_eq!(app.active_window_idx, 0);
}

#[test]
fn closing_a_window_moves_to_the_last_one() {
    let (mut app, mut effects) = new_app();
    prefix_then(&mut app, &mut effects, KeyCode::Char('c'));
    assert!(prefix_then(&mut app, &mut effects, KeyCode::Char('x')));
    assert_eq!(app.windows.len(), 1);
    assert_eq!(app.active_window_idx, 0);
}

#[test]
fn pane_exit_closes_that_pane_only() {
    let (mut app, mut effects) = new_app();
    prefix_then(&mut app, &mut effects, KeyCode::Char('%'));
    assert!(app.update(AppEvent::PtyExit { pane_id: 0 }, COLS, ROWS, &mut effects));
    assert_eq!(app.windows[0].layout.pane_ids(), vec![1]);
    assert!(app.update(AppEvent::PtyExit { pane_id: 77 }, COLS, ROWS, &mut effects));
    assert!(!app.update(AppEvent::PtyExit { pane_id: 1 }, COLS, ROWS, &mut effects));
}

#[test]
fn pty_output_is_fed_to_known_panes_only() {
    let (mut app, mut effects) = new_app();
    effects.clear();
    assert!(app.update(AppEvent::PtyOutput { pane_id: 0, data: b"hi".to_vec() }, COLS, ROWS, &mut effects));
    assert!(app.update(AppEvent::PtyOutput { pane_id: 5, data: b"no".to_vec() }, COLS, ROWS, &mut effects));
    assert_eq!(effects.len(), 1);
    assert!(matches!(&effects[0], Effect::FeedPane { pane_id: 0, data } if data == b"hi"));
}

#[test]
fn clicking_a_sidebar_line_switches_window() {
    let (mut app, mut effects) = new_app();
    prefix_then(&mut app, &mut effects, KeyCode::Char('c'));
    assert!(app.update(AppEvent::MouseClick { col: 3, row: 2 }, COLS, ROWS, &mut effects));
    assert_eq!(app.active_window_idx, 0);
    assert!(app.update(AppEvent::MouseClick { col: 3, row: 1 }, COLS, ROWS, &mut effects));
    assert_eq!(app.active_window_idx, 0);
    assert!(app.update(AppEvent::MouseClick { col: 3, row: 3 }, COLS, ROWS, &mut effects));
    assert_eq!(app.active_window_idx, 1);
}

#[test]
fn clicking_a_pane_focuses_it() {
    let (mut app, mut effects) = new_app();
    prefix_then(&mut app, &mut effects, KeyCode::Char('%'));
    assert_eq!(app.windows[0].active_pane_id, 1);
    assert!(app.update(AppEvent::MouseClick { col: 30, row: 5 }, COLS, ROWS, &mut effects));
    assert_eq!(app.windows[0].active_pane_id, 0);
    assert!(app.update(AppEvent::MouseClick { col: 99, row: 5 }, COLS, ROWS, &mut effects));
    assert_eq!(app.windows[0].active_pane_id, 1);
}

#[test]
fn focus_moves_between_split_panes() {
    let (mut app, mut effects) = new_app();
    prefix_then(&mut app, &mut effects, KeyCode::Char('%'));
    prefix_then(&mut app, &mut effects, KeyCode::Left);
    assert_eq!(app.windows[0].active_pane_id, 0);
    prefix_then(&mut app, &mut effects, KeyCode::Right);
    assert_eq!(app.windows[0].active_pane_id, 1);
    prefix_then(&mut app, &mut effects, KeyCode::Up);
    assert_eq!(app.windows[0].active_pane_id, 1);
}

#[test]
fn drag_and_release_asks_for_the_selected_text() {
    let (mut app, mut effects) = new_app();
    effects.clear();
    app.update(AppEvent::MouseDrag { col: 40, row: 6 }, COLS, ROWS, &mut effects);
    app.update(AppEvent::MouseDrag { col: 30, row: 4 }, COLS, ROWS, &mut effects);
    assert!(app.selection.is_some());
    app.update(AppEvent::MouseUp { col: 25, row: 3 }, COLS, ROWS, &mut effects);
    assert!(app.selection.is_none());
    assert_eq!(effects.len(), 1);
    assert!(matches!(
        effects[0],
        Effect::CopySelection { pane_id: 0, start_col: 25, start_row: 3, end_col: 40, end_row: 6, .. }
    ));
    effects.clear();
    app.finish_copy("some text".to_string(), &mut effects);
    assert_eq!(app.toast.as_deref(), Some("Copied!"));
    assert!(matches!(&effects[0], Effect::CopyToClipboard { text } if text == "some text"));
    assert!(matches!(effects[1], Effect::StartToastTimer));
    assert!(app.update(AppEvent::ToastExpired, COLS, ROWS, &mut effects));
    assert!(app.toast.is_none());
}

#[test]
fn empty_copied_text_changes_nothing() {
    let (mut app, mut effects) = new_app();
    effects.clear();
    app.finish_copy(String::new(), &mut effects);
    assert!(effects.is_empty());
    assert!(app.toast.is_none());
}

#[test]
fn release_without_drag_asks_nothing() {
    let (mut app, mut effects) = new_app();
    effects.clear();
    app.update(AppEvent::MouseUp { col: 25, row: 3 }, COLS, ROWS, &mut effects);
    assert!(effects.is_empty());
}

#[test]
fn normalized_selection_is_in_reading_order() {
    let s = Selection { start_col: 9, start_row: 4, end_col: 2, end_row: 1 };
    assert_eq!(s.normalized(), (2, 1, 9, 4));
    let s = Selection { start_col: 2, start_row: 4, end_col: 9, end_row: 4 };
    assert_eq!(s.normalized(), (2, 4, 9, 4));
    let s = Selection { start_col: 9, start_row: 4, end_col: 2, end_row: 4 };
    assert_eq!(s.normalized(), (2, 4, 9, 4));
}

#[test]
fn notifications_mark_panes_and_other_windows() {
    let (mut app, mut effects) = new_app();
    prefix_then(&mut app, &mut effects, KeyCode::Char('%'));
    prefix_then(&mut app, &mut effects, KeyCode::Char('c'));
    let note = |window: Option<usize>, pane: Option<u32>| AppEvent::ExternalNotification {
        title: "t".to_string(),
        body: "b".to_string(),
        window,
        pane,
    };
    assert!(app.update(note(Some(1), Some(0)), COLS, ROWS, &mut effects));
    assert!(app.windows[0].has_notification);
    assert!(app.windows[0].panes.iter().any(|p| p.id == 0 && p.has_notification));
    assert!(!app.windows[1].has_notification);
    assert!(app.update(note(Some(2), None), COLS, ROWS, &mut effects));
    assert!(!app.windows[1].has_notification);
    assert!(app.update(note(Some(0), None), COLS, ROWS, &mut effects));
    assert!(app.update(note(Some(7), None), COLS, ROWS, &mut effects));
    assert!(app.update(note(None, None), COLS, ROWS, &mut effects));
    assert!(app.windows[0].has_notification);
    assert!(!app.windows[1].has_notification);
}

#[test]
fn typing_in_a_pane_clears_its_notification() {
    let (mut app, mut effects) = new_app();
    prefix_then(&mut app, &mut effects, KeyCode::Char('c'));
    let ev = AppEvent::ExternalNotification { title: String::new(), body: String::new(), window: Some(2), pane: Some(1) };
    app.update(ev, COLS, ROWS, &mut effects);
    assert!(app.windows[1].panes[0].has_notification);
    app.update(key(KeyCode::Char('a'), KeyModifiers::none()), COLS, ROWS, &mut effects);
    assert!(!app.windows[1].panes[0].has_notification);
    assert!(!app.windows[1].has_notification);
}

#[test]
fn zoom_toggles_and_resizes() {
    let (mut app, mut effects) = new_app();
    prefix_then(&mut app, &mut effects, KeyCode::Char('%'));
    effects.clear();
    prefix_then(&mut app, &mut effects, KeyCode::Char('f'));
    assert_eq!(app.windows[0].zoomed_pane_id, Some(1));
    assert!(matches!(effects[0], Effect::ResizePane { pane_id: 1, cols: 78, rows: 30 }));
    let frame = app.frame(COLS, ROWS);
    assert_eq!(frame.panes, vec![(1, Rect { x: 22, y: 0, width: 78, height: 30 })]);
    assert!(frame.borders.is_empty());
    prefix_then(&mut app, &mut effects, KeyCode::Char('f'));
    assert_eq!(app.windows[0].zoomed_pane_id, None);
}

#[test]
fn toggling_the_sidebar_resizes_panes() {
    let (mut app, mut effects) = new_app();
    effects.clear();
    prefix_then(&mut app, &mut effects, KeyCode::Char('z'));
    assert!(app.sidebar.collapsed);
    assert!(matches!(effects[0], Effect::ResizePane { pane_id: 0, cols: 100, rows: 30 }));
    assert_eq!(app.pane_area(COLS, ROWS), Rect { x: 0, y: 0, width: 100, height: 30 });
}

#[test]
fn terminal_resize_resizes_the_active_window() {
    let (mut app, mut effects) = new_app();
    effects.clear();
    assert!(app.update(AppEvent::Resize { cols: 120, rows: 40 }, COLS, ROWS, &mut effects));
    assert!(matches!(effects[0], Effect::ResizePane { pane_id: 0, cols: 98, rows: 40 }));
}

#[test]
fn prefix_mode_is_left_after_one_key() {
    let (mut app, mut effects) = new_app();
    app.update(key(KeyCode::Char('b'), KeyModifiers::control()), COLS, ROWS, &mut effects);
    assert_eq!(app.input_handler.mode, InputMode::Prefix);
    app.update(key(KeyCode::Char('?'), KeyModifiers::none()), COLS, ROWS, &mut effects);
    assert_eq!(app.input_handler.mode, InputMode::Normal);
}

#[test]
fn screen_checks_before_update() {
    let (app, _) = new_app();
    assert!(app.screen_fits(COLS, ROWS));
    assert!(!app.screen_fits(65535, ROWS));
    assert!(!app.event_takes_new_pane(&key(KeyCode::Char('%'), KeyModifiers::none())));
}

#[test]
fn ctrl_arrows_move_the_nearest_border() {
    let (mut app, mut effects) = new_app();
    prefix_then(&mut app, &mut effects, KeyCode::Char('%'));
    effects.clear();
    assert!(app.update(key(KeyCode::Char('b'), KeyModifiers::control()), COLS, ROWS, &mut effects));
    assert!(app.update(key(KeyCode::Left, KeyModifiers::control()), COLS, ROWS, &mut effects));
    let rects = app.windows[0].layout.compute_rects(app.pane_area(COLS, ROWS));
    assert_eq!(rects[0].1.width, 38);
    assert_eq!(rects[1].1, Rect { x: 61, y: 0, width: 39, height: 30 });
    assert!(effects.iter().any(|e| matches!(e, Effect::ResizePane { pane_id: 0, cols: 38, rows: 30 })));
    assert!(effects.iter().any(|e| matches!(e, Effect::ResizePane { pane_id: 1, cols: 39, rows: 30 })));

    effects.clear();
    assert!(app.update(key(KeyCode::Char('b'), KeyModifiers::control()), COLS, ROWS, &mut effects));
    assert!(app.update(key(KeyCode::Up, KeyModifiers::control()), COLS, ROWS, &mut effects));
    assert!(effects.is_empty());

    for _ in 0..50 {
        assert!(app.update(key(KeyCode::Char('b'), KeyModifiers::control()), COLS, ROWS, &mut effects));
        assert!(app.update(key(KeyCode::Right, KeyModifiers::control()), COLS, ROWS, &mut effects));
    }
    let rects = app.windows[0].layout.compute_rects(app.pane_area(COLS, ROWS));
    assert_eq!(rects[0].1.width, 76);
    assert_eq!(rects[1].1.width, 1);
}

#[test]
fn ctrl_up_on_a_short_terminal_moves_the_border_one_line() {
    let mut effects = Vec::new();
    let mut app = App::new(&Config::default(), 80, 9, &mut effects);
    let k = |app: &mut App, code: KeyCode, m: KeyModifiers, effects: &mut Vec<Effect>| {
        assert!(app.update(key(code, m), 80, 9, effects));
    };
    k(&mut app, KeyCode::Char('b'), KeyModifiers::control(), &mut effects);
    k(&mut app, KeyCode::Char('"'), KeyModifiers::none(), &mut effects);
    let area = app.pane_area(80, 9);
    let rects = app.windows[0].layout.compute_rects(area);
    assert_eq!((rects[0].1.height, rects[1].1.height), (4, 4));
    assert_eq!(app.windows[0].active_pane_id, 1);
    k(&mut app, KeyCode::Char('b'), KeyModifiers::control(), &mut effects);
    k(&mut app, KeyCode::Up, KeyModifiers::control(), &mut effects);
    let rects = app.windows[0].layout.compute_rects(area);
    assert_eq!(rects[0].1, Rect { x: 22, y: 0, width: 58, height: 3 });
    assert_eq!(rects[1].1, Rect { x: 22, y: 4, width: 58, height: 5 });
    k(&mut app, KeyCode::Char('b'), KeyModifiers::control(), &mut effects);
    k(&mut app, KeyCode::Up, KeyModifiers::control(), &mut effects);
    let rects = app.windows[0].layout.compute_rects(area);
    assert_eq!((rects[0].1.height, rects[1].1.height), (2, 6));
    for _ in 0..2 {
        k(&mut app, KeyCode::Char('b'), KeyModifiers::control(), &mut effects);
        k(&mut app, KeyCode::Up, KeyModifiers::control(), &mut effects);
        let rects = app.windows[0].layout.compute_rects(area);
        assert_eq!((rects[0].1.height, rects[1].1.height), (1, 7));
    }
}

#[test]
fn switching_to_a_window_clears_its_mark() {
    let (mut app, mut effects) = new_app();
    prefix_then(&mut app, &mut effects, KeyCode::Char('c'));
    let ev = AppEvent::ExternalNotification { title: String::new(), body: String::new(), window: Some(1), pane: None };
    app.update(ev, COLS, ROWS, &mut effects);
    assert!(app.windows[0].has_notification);
    assert!(prefix_then(&mut app, &mut effects, KeyCode::Char('1')));
    assert_eq!(app.active_window_idx, 0);
    assert!(!app.windows[0].has_notification);

    let ev = AppEvent::ExternalNotification { title: String::new(), body: String::new(), window: Some(2), pane: None };
    app.update(ev, COLS, ROWS, &mut effects);
    assert!(app.windows[1].has_notification);
    assert!(app.update(AppEvent::MouseClick { col: 0, row: 3 }, COLS, ROWS, &mut effects));
    assert_eq!(app.active_window_idx, 1);
    assert!(!app.windows[1].has_notification);
}

#[test]
fn a_click_handled_alone_keeps_the_selection() {
    let (mut app, mut effects) = new_app();
    app.update(AppEvent::MouseDrag { col: 40, row: 6 }, COLS, ROWS, &mut effects);
    app.update(AppEvent::MouseDrag { col: 30, row: 4 }, COLS, ROWS, &mut effects);
    assert!(app.selection.is_some());
    effects.clear();
    app.handle_mouse_click(3, 20, COLS, ROWS, &mut effects);
    assert!(app.selection.is_some());
    assert_eq!(app.active_window_idx, 0);
    assert!(effects.is_empty());
    app.handle_mouse_click(40, 6, COLS, ROWS, &mut effects);
    assert!(app.selection.is_some());
    assert!(app.update(AppEvent::MouseClick { col: 3, row: 20 }, COLS, ROWS, &mut effects));
    assert!(app.selection.is_none());
}
