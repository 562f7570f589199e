use xmux::sidebar::{SidebarState, SIDEBAR_WIDTH};

#[test]
fn new_sidebar_has_default_width() {
    let sidebar = SidebarState::new();
    assert_eq!(sidebar.width, SIDEBAR_WIDTH);
    assert!(!sidebar.collapsed);
}

#[test]
fn effective_width_when_expanded() {
    let sidebar = SidebarState::new();
    assert_eq!(sidebar.effective_width(), SIDEBAR_WIDTH);
}

#[test]
fn effective_width_when_collapsed() {
    let mut sidebar = SidebarState::new();
    sidebar.collapsed = true;
    assert_eq!(sidebar.effective_width(), 0);
}

#[test]
fn toggle_changes_collapsed_state() {
    let mut sidebar = SidebarState::new();
    assert!(!sidebar.collapsed);
    sidebar.toggle();
    assert!(sidebar.collapsed);
    sidebar.toggle();
    assert!(!sidebar.collapsed);
}

use xmux::layout::Split;
use xmux::layout::Rect;
use xmux::sidebar::SidebarStyle;
use xmux::window::{Effect, Window};

#[test]
fn render_collapsed_writes_nothing() {
    let mut sidebar = SidebarState::new();
    sidebar.collapsed = true;
    let buf = sidebar.render(&[], &[], 0, 24).unwrap();
    assert!(buf.is_empty());
}

fn two_windows() -> Vec<Window> {
    let mut effects: Vec<Effect> = Vec::new();
    let first = Window::new(0, 80, 24, 0, &mut effects);
    let mut second = Window::new(1, 80, 24, 1, &mut effects);
    let area = Rect { x: 22, y: 0, width: 58, height: 24 };
    second.split_active_pane(Split::Vertical, area, 2, &mut effects);
    vec![first, second]
}

#[test]
fn render_lists_windows_with_title_rule_and_border() {
    let sidebar = SidebarState::new();
    let windows = two_windows();
    let names = vec!["bash".to_string(), "vim".to_string()];
    let out = sidebar.render(&windows, &names, 1, 6).unwrap();
    let header = &out[0];
    assert_eq!((header.col, header.row, header.style), (0, 0, SidebarStyle::Header));
    assert_eq!(header.text, format!(" {:^21}", "xmux"));
    assert_eq!(header.text.len(), 22);
    assert_eq!(out[1].style, SidebarStyle::Separator);
    assert_eq!(out[1].text, "\u{2500}".repeat(21));
    assert_eq!((out[2].row, out[2].style), (2, SidebarStyle::Window));
    assert_eq!(out[2].text, format!("{:<21}", "   1 bash"));
    assert_eq!((out[3].row, out[3].style), (3, SidebarStyle::ActiveWindow));
    assert_eq!(out[3].text, format!("{:<21}", " \u{25ba} 2 vim [2]"));
    assert_eq!(out[3].text.chars().count(), 21);
    assert_eq!((out[4].row, out[4].style, out[4].text.as_str()), (4, SidebarStyle::Blank, " ".repeat(21).as_str()));
    assert_eq!(out[5].row, 5);
    assert_eq!(out.len(), 2 + 2 + 2 + 6);
    for (r, t) in out[6..].iter().enumerate() {
        assert_eq!((t.col, t.row, t.style, t.text.as_str()), (21, r as u16, SidebarStyle::Border, "\u{2502}"));
    }
}

#[test]
fn render_cuts_long_names_and_stops_at_the_bottom() {
    let sidebar = SidebarState::new();
    let windows = two_windows();
    let names = vec!["a-very-long-program-name".to_string(), "other".to_string()];
    let out = sidebar.render(&windows, &names, 0, 3).unwrap();
    assert_eq!(out.len(), 2 + 1 + 3);
    assert_eq!(out[2].text, " \u{25ba} 1 a-very-long-pr");
    assert_eq!(out[2].text.len(), 21);
}

#[test]
fn render_refuses_a_cut_inside_a_character() {
    let sidebar = SidebarState::new();
    let windows = two_windows();
    let names = vec!["\u{3042}\u{3042}\u{3042}\u{3042}\u{3042}\u{3042}".to_string(), "x".to_string()];
    assert!(sidebar.render(&windows, &names, 1, 10).is_none());
}

#[test]
fn render_narrow_sidebar_cuts_the_title() {
    let sidebar = SidebarState { width: 3, collapsed: false };
    let out = sidebar.render(&[], &[], 0, 2).unwrap();
    assert_eq!(out[0].text, " xm");
    assert_eq!(out[1].text, "\u{2500}\u{2500}");
    assert_eq!(out.len(), 4);
}

#[test]
fn notified_window_is_marked() {
    let sidebar = SidebarState::new();
    let mut windows = two_windows();
    windows[1].has_notification = true;
    let names = vec!["bash".to_string(), "make".to_string()];
    let out = sidebar.render(&windows, &names, 0, 5).unwrap();
    assert_eq!((out[2].style, out[3].style), (SidebarStyle::ActiveWindow, SidebarStyle::NotifiedWindow));
    assert_eq!(out[3].text, format!("{:<21}", " \u{25cf} 2 make [2]"));
    windows[0].has_notification = true;
    let out = sidebar.render(&windows, &names, 0, 5).unwrap();
    assert_eq!(out[2].style, SidebarStyle::ActiveWindow);
    assert!(out[2].text.starts_with(" \u{25ba} 1 bash"));
}
