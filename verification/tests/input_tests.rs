use xmux::config::Config;
use xmux::event::AppEvent;
use xmux::input::{
    action_from_name, default_bindings, key_to_bytes, Action, InputHandler, InputMode, KeyCode,
    KeyEvent, KeyModifiers,
};

fn make_key(code: KeyCode, modifiers: KeyModifiers) -> KeyEvent {
    KeyEvent { code, modifiers }
}

fn make_event(code: KeyCode, modifiers: KeyModifiers) -> AppEvent {
    AppEvent::KeyInput(make_key(code, modifiers))
}

fn default_handler() -> InputHandler {
    InputHandler::new(&Config::default())
}

#[test]
fn normal_mode_forwards_regular_keys() {
    let mut handler = default_handler();
    let event = make_event(KeyCode::Char('a'), KeyModifiers::none());
    let action = handler.handle(&event);
    assert!(matches!(action, Action::ForwardToPty(ref data) if data == b"a"));
    assert_eq!(handler.mode, InputMode::Normal);
}

#[test]
fn ctrl_b_enters_prefix_mode() {
    let mut handler = default_handler();
    let event = make_event(KeyCode::Char('b'), KeyModifiers::control());
    let action = handler.handle(&event);
    assert!(matches!(action, Action::NoOp));
    assert_eq!(handler.mode, InputMode::Prefix);
}

#[test]
fn custom_prefix_ctrl_a() {
    let config = Config {
        prefix_key: KeyCode::Char('a'),
        prefix_modifiers: KeyModifiers::control(),
        bindings: vec![],
    };
    let mut handler = InputHandler::new(&config);

    let action = handler.handle(&make_event(KeyCode::Char('a'), KeyModifiers::control()));
    assert!(matches!(action, Action::NoOp));
    assert_eq!(handler.mode, InputMode::Prefix);

    let mut handler = InputHandler::new(&config);
    let action = handler.handle(&make_event(KeyCode::Char('b'), KeyModifiers::control()));
    assert!(matches!(action, Action::ForwardToPty(_)));
    assert_eq!(handler.mode, InputMode::Normal);
}

#[test]
fn prefix_percent_splits_vertical() {
    let mut handler = default_handler();
    handler.mode = InputMode::Prefix;
    let event = make_event(KeyCode::Char('%'), KeyModifiers::none());
    let action = handler.handle(&event);
    assert!(matches!(action, Action::SplitVertical));
    assert_eq!(handler.mode, InputMode::Normal);
}

#[test]
fn prefix_quote_splits_horizontal() {
    let mut handler = default_handler();
    handler.mode = InputMode::Prefix;
    let event = make_event(KeyCode::Char('"'), KeyModifiers::none());
    let action = handler.handle(&event);
    assert!(matches!(action, Action::SplitHorizontal));
    assert_eq!(handler.mode, InputMode::Normal);
}

#[test]
fn prefix_x_closes_pane() {
    let mut handler = default_handler();
    handler.mode = InputMode::Prefix;
    let event = make_event(KeyCode::Char('x'), KeyModifiers::none());
    let action = handler.handle(&event);
    assert!(matches!(action, Action::ClosePane));
}

#[test]
fn prefix_z_toggles_sidebar() {
    let mut handler = default_handler();
    handler.mode = InputMode::Prefix;
    let event = make_event(KeyCode::Char('z'), KeyModifiers::none());
    let action = handler.handle(&event);
    assert!(matches!(action, Action::ToggleSidebar));
}

#[test]
fn prefix_q_quits() {
    let mut handler = default_handler();
    handler.mode = InputMode::Prefix;
    let event = make_event(KeyCode::Char('q'), KeyModifiers::none());
    let action = handler.handle(&event);
    assert!(matches!(action, Action::Quit));
}

#[test]
fn prefix_arrows_move_focus() {
    let cases = [
        (KeyCode::Up, Action::FocusUp),
        (KeyCode::Down, Action::FocusDown),
        (KeyCode::Left, Action::FocusLeft),
        (KeyCode::Right, Action::FocusRight),
    ];
    for (code, expected) in cases {
        let mut handler = default_handler();
        handler.mode = InputMode::Prefix;
        let event = make_event(code, KeyModifiers::none());
        let action = handler.handle(&event);
        assert_eq!(std::mem::discriminant(&action), std::mem::discriminant(&expected));
        assert_eq!(handler.mode, InputMode::Normal);
    }
}

#[test]
fn prefix_ctrl_arrows_resize() {
    let cases = [
        (KeyCode::Up, Action::ResizeUp),
        (KeyCode::Down, Action::ResizeDown),
        (KeyCode::Left, Action::ResizeLeft),
        (KeyCode::Right, Action::ResizeRight),
    ];
    for (code, expected) in cases {
        let mut handler = default_handler();
        handler.mode = InputMode::Prefix;
        let event = make_event(code, KeyModifiers::control());
        let action = handler.handle(&event);
        assert_eq!(std::mem::discriminant(&action), std::mem::discriminant(&expected));
    }
}

#[test]
fn prefix_unknown_key_returns_none_and_exits_prefix() {
    let mut handler = default_handler();
    handler.mode = InputMode::Prefix;
    let event = make_event(KeyCode::Char('?'), KeyModifiers::none());
    let action = handler.handle(&event);
    assert!(matches!(action, Action::NoOp));
    assert_eq!(handler.mode, InputMode::Normal);
}

#[test]
fn non_key_event_returns_none() {
    let mut handler = default_handler();
    let event = AppEvent::Resize { cols: 80, rows: 24 };
    let action = handler.handle(&event);
    assert!(matches!(action, Action::NoOp));
}

#[test]
fn key_to_bytes_regular_char() {
    let key = make_key(KeyCode::Char('x'), KeyModifiers::none());
    assert_eq!(key_to_bytes(key), b"x");
}

#[test]
fn key_to_bytes_ctrl_char() {
    let key = make_key(KeyCode::Char('a'), KeyModifiers::control());
    assert_eq!(key_to_bytes(key), vec![1]);
    let key = make_key(KeyCode::Char('c'), KeyModifiers::control());
    assert_eq!(key_to_bytes(key), vec![3]);
}

#[test]
fn key_to_bytes_special_keys() {
    assert_eq!(key_to_bytes(make_key(KeyCode::Enter, KeyModifiers::none())), vec![b'\r']);
    assert_eq!(key_to_bytes(make_key(KeyCode::Backspace, KeyModifiers::none())), vec![127]);
    assert_eq!(key_to_bytes(make_key(KeyCode::Tab, KeyModifiers::none())), vec![b'\t']);
    assert_eq!(key_to_bytes(make_key(KeyCode::Esc, KeyModifiers::none())), vec![0x1b]);
}

#[test]
fn key_to_bytes_arrow_keys() {
    assert_eq!(key_to_bytes(make_key(KeyCode::Up, KeyModifiers::none())), b"\x1b[A");
    assert_eq!(key_to_bytes(make_key(KeyCode::Down, KeyModifiers::none())), b"\x1b[B");
    assert_eq!(key_to_bytes(make_key(KeyCode::Right, KeyModifiers::none())), b"\x1b[C");
    assert_eq!(key_to_bytes(make_key(KeyCode::Left, KeyModifiers::none())), b"\x1b[D");
}

#[test]
fn full_sequence_ctrl_b_then_percent() {
    let mut handler = default_handler();

    let action = handler.handle(&make_event(KeyCode::Char('b'), KeyModifiers::control()));
    assert!(matches!(action, Action::NoOp));
    assert_eq!(handler.mode, InputMode::Prefix);

    let action = handler.handle(&make_event(KeyCode::Char('%'), KeyModifiers::none()));
    assert!(matches!(action, Action::SplitVertical));
    assert_eq!(handler.mode, InputMode::Normal);

    let action = handler.handle(&make_event(KeyCode::Char('l'), KeyModifiers::none()));
    assert!(matches!(action, Action::ForwardToPty(ref data) if data == b"l"));
}

#[test]
fn prefix_c_creates_new_window() {
    let mut handler = default_handler();
    handler.mode = InputMode::Prefix;
    let action = handler.handle(&make_event(KeyCode::Char('c'), KeyModifiers::none()));
    assert!(matches!(action, Action::NewWindow));
}

#[test]
fn prefix_number_switches_window() {
    for (ch, expected_idx) in [('1', 0), ('2', 1), ('9', 8)] {
        let mut handler = default_handler();
        handler.mode = InputMode::Prefix;
        let action = handler.handle(&make_event(KeyCode::Char(ch), KeyModifiers::none()));
        assert!(
            matches!(action, Action::SwitchWindow(idx) if idx == expected_idx),
            "expected SwitchWindow({}) for '{}'",
            expected_idx,
            ch
        );
    }
}

#[test]
fn custom_bindings_override_defaults() {
    let bindings = vec![(
        "split_vertical".to_string(),
        (KeyModifiers::none(), KeyCode::Char('v')),
    )];
    let config = Config {
        prefix_key: KeyCode::Char('b'),
        prefix_modifiers: KeyModifiers::control(),
        bindings,
    };
    let mut handler = InputHandler::new(&config);
    handler.mode = InputMode::Prefix;

    let action = handler.handle(&make_event(KeyCode::Char('v'), KeyModifiers::none()));
    assert!(matches!(action, Action::SplitVertical));

    handler.mode = InputMode::Prefix;
    let action = handler.handle(&make_event(KeyCode::Char('%'), KeyModifiers::none()));
    assert!(matches!(action, Action::NoOp));
}

#[test]
fn action_names_map_to_actions() {
    assert!(matches!(action_from_name("split_vertical"), Action::SplitVertical));
    assert!(matches!(action_from_name("toggle_zoom"), Action::ToggleZoom));
    assert!(matches!(action_from_name("resize_left"), Action::ResizeLeft));
    assert!(matches!(action_from_name("no_such_action"), Action::NoOp));
}

#[test]
fn key_to_bytes_unicode_and_navigation() {
    assert_eq!(key_to_bytes(make_key(KeyCode::Char('\u{e9}'), KeyModifiers::none())), vec![0xc3, 0xa9]);
    assert_eq!(key_to_bytes(make_key(KeyCode::Char('\u{3042}'), KeyModifiers::none())), "\u{3042}".as_bytes());
    assert_eq!(key_to_bytes(make_key(KeyCode::Home, KeyModifiers::none())), b"\x1b[H");
    assert_eq!(key_to_bytes(make_key(KeyCode::End, KeyModifiers::none())), b"\x1b[F");
    assert_eq!(key_to_bytes(make_key(KeyCode::Delete, KeyModifiers::none())), b"\x1b[3~");
    assert!(key_to_bytes(make_key(KeyCode::F(1), KeyModifiers::none())).is_empty());
}

#[test]
fn prefix_key_twice_forwards_nothing_special() {
    let mut handler = default_handler();
    let _ = handler.handle(&make_event(KeyCode::Char('b'), KeyModifiers::control()));
    let action = handler.handle(&make_event(KeyCode::Char('w'), KeyModifiers::none()));
    assert!(matches!(action, Action::NoOp));
    assert_eq!(handler.mode, InputMode::Normal);
}

#[test]
fn default_bindings_are_unique_keys() {
    let b = default_bindings();
    for i in 0..b.len() {
        for j in (i + 1)..b.len() {
            assert!(!(b[i].code == b[j].code && b[i].modifiers == b[j].modifiers));
        }
    }
}
