//! The application state machine: windows, the active window, the sidebar,
//! mouse selection and notifications. `App::update` decides, for each
//! event, the next state and the effects on pane programs to perform.
use vstd::prelude::*;
use vstd::string::StringExecFns;

use crate::config::Config;
use crate::event::AppEvent;
use crate::input::{
    key_step, spec_key_bytes, spec_prefix_action, Action, InputHandler, InputMode, KeyCombo,
    KeyEvent,
};
use crate::layout::{
    lemma_fits_when_bounded, lemma_rects_follow_ids, lemma_rects_in_range, sat_sub, LayoutNode,
    Rect, Split,
};
use crate::sidebar::SidebarState;
use crate::window::{
    after_split, close_layout_fits, close_result, effect_views, focus_target, lemma_close_keeps_wf,
    lemma_focus_target_in_window, lemma_resize_keeps_wf, lemma_split_keeps_wf, rect_of, resize_effects, resize_step, spawn_rect,
    split_layout, Direction, Effect, EffectView, PaneState, Window, WindowView,
};

verus! {

/// A mouse drag selection, from where the drag started to where it is now.
#[derive(Debug, Clone, Copy, PartialEq, Eq, Structural)]
pub struct Selection {
    pub start_col: u16,
    pub start_row: u16,
    pub end_col: u16,
    pub end_row: u16,
}

/// Whether screen position (`c1`, `r1`) comes no later than (`c2`, `r2`) in
/// reading order.
pub open spec fn reads_before_or_at(c1: u16, r1: u16, c2: u16, r2: u16) -> bool {
    r1 < r2 || (r1 == r2 && c1 <= c2)
}

impl Selection {
    /// The selection's ends as (start column, start row, end column, end
    /// row), the one first in reading order first.
    pub open spec fn spec_normalized(self) -> (u16, u16, u16, u16) {
        if reads_before_or_at(self.start_col, self.start_row, self.end_col, self.end_row) {
            (self.start_col, self.start_row, self.end_col, self.end_row)
        } else {
            (self.end_col, self.end_row, self.start_col, self.start_row)
        }
    }

    /// The selection's ends, the one first in reading order first.
    pub fn normalized(&self) -> (r: (u16, u16, u16, u16))
        ensures
            r == self.spec_normalized(),
    {
        if self.start_row < self.end_row || (self.start_row == self.end_row && self.start_col
            <= self.end_col) {
            (self.start_col, self.start_row, self.end_col, self.end_row)
        } else {
            (self.end_col, self.end_row, self.start_col, self.start_row)
        }
    }
}

/// A normalized selection starts no later than it ends, has the same two
/// ends as the selection, and normalizing does not depend on the direction
/// the selection was dragged in.
pub proof fn lemma_normalized(s: Selection)
    ensures
        ({
            let (sc, sr, ec, er) = s.spec_normalized();
            &&& reads_before_or_at(sc, sr, ec, er)
            &&& ((sc, sr, ec, er) == (s.start_col, s.start_row, s.end_col, s.end_row) || (sc, sr, ec, er)
                == (s.end_col, s.end_row, s.start_col, s.start_row))
        }),
        (Selection {
            start_col: s.end_col,
            start_row: s.end_row,
            end_col: s.start_col,
            end_row: s.start_row,
        }).spec_normalized() == s.spec_normalized(),
{
}

/// What a key press asks of the application, with the data to forward as a
/// sequence.
pub enum Command {
    Forward(Seq<u8>),
    Split(Split),
    Focus(Direction),
    Resize(Direction),
    ClosePane,
    ToggleSidebar,
    ToggleZoom,
    NewWindow,
    SwitchWindow(usize),
    Quit,
    Nothing,
}

/// The command an action stands for.
pub open spec fn command_of(a: Action) -> Command {
    match a {
        Action::ForwardToPty(d) => Command::Forward(d@),
        Action::SplitVertical => Command::Split(Split::Vertical),
        Action::SplitHorizontal => Command::Split(Split::Horizontal),
        Action::FocusUp => Command::Focus(Direction::Up),
        Action::FocusDown => Command::Focus(Direction::Down),
        Action::FocusLeft => Command::Focus(Direction::Left),
        Action::FocusRight => Command::Focus(Direction::Right),
        Action::ResizeUp => Command::Resize(Direction::Up),
        Action::ResizeDown => Command::Resize(Direction::Down),
        Action::ResizeLeft => Command::Resize(Direction::Left),
        Action::ResizeRight => Command::Resize(Direction::Right),
        Action::ClosePane => Command::ClosePane,
        Action::ToggleSidebar => Command::ToggleSidebar,
        Action::ToggleZoom => Command::ToggleZoom,
        Action::NewWindow => Command::NewWindow,
        Action::SwitchWindow(i) => Command::SwitchWindow(i),
        Action::Quit => Command::Quit,
        _ => Command::Nothing,
    }
}

/// The whole application.
pub struct App {
    pub windows: Vec<Window>,
    pub active_window_idx: usize,
    pub sidebar: SidebarState,
    pub selection: Option<Selection>,
    pub toast: Option<String>,
    pub next_pane_id: u32,
    pub input_handler: InputHandler,
}

/// The application with its windows and texts as sequences, and its key
/// handler as mode, prefix key and bindings.
pub struct AppView {
    pub windows: Seq<WindowView>,
    pub active_window_idx: usize,
    pub sidebar: SidebarState,
    pub selection: Option<Selection>,
    pub toast: Option<Seq<char>>,
    pub next_pane_id: u32,
    pub mode: InputMode,
    pub prefix: KeyCombo,
    pub bindings: Map<KeyCombo, Seq<char>>,
}

impl View for App {
    type V = AppView;

    open spec fn view(&self) -> AppView {
        AppView {
            windows: self.windows@.map_values(|w: Window| w@),
            active_window_idx: self.active_window_idx,
            sidebar: self.sidebar,
            selection: self.selection,
            toast: match self.toast {
                Some(t) => Some(t@),
                None => None,
            },
            next_pane_id: self.next_pane_id,
            mode: self.input_handler.mode,
            prefix: self.input_handler.spec_prefix(),
            bindings: self.input_handler.spec_bindings(),
        }
    }
}

/// The screen area left to the panes on a terminal of `cols` x `rows`.
pub open spec fn spec_pane_area(sidebar: SidebarState, cols: u16, rows: u16) -> Rect {
    let ew = sidebar.spec_effective_width();
    Rect { x: ew, y: 0, width: sat_sub(cols as int, ew as int) as u16, height: rows }
}

impl AppView {
    /// The active window.
    pub open spec fn active(self) -> WindowView {
        self.windows[self.active_window_idx as int]
    }

    /// The application is consistent: at least one window and a valid active
    /// one, every window consistent, no pane in two windows, and every pane id
    /// below the next id to hand out.
    pub open spec fn wf(self) -> bool {
        &&& self.windows.len() >= 1
        &&& self.active_window_idx < self.windows.len()
        &&& forall|i: int| 0 <= i < self.windows.len() ==> (#[trigger] self.windows[i]).wf()
        &&& forall|i: int, j: int, id: u32|
            0 <= i < self.windows.len() && 0 <= j < self.windows.len() && i != j
                && #[trigger] self.windows[i].has_pane(id) ==> !#[trigger] self.windows[j].has_pane(id)
        &&& forall|i: int, id: u32|
            0 <= i < self.windows.len() && #[trigger] self.windows[i].has_pane(id) ==> id < self.next_pane_id
    }

    /// Every window's layout, even split once more, fits on a terminal of
    /// `cols` x `rows` with the sidebar shown or collapsed.
    pub open spec fn screen_ok(self, cols: u16, rows: u16) -> bool {
        forall|i: int|
            0 <= i < self.windows.len() ==> {
                &&& (#[trigger] self.windows[i]).layout.height() + 1 + (if cols >= self.sidebar.width {
                    cols
                } else {
                    self.sidebar.width
                }) <= u16::MAX
                &&& self.windows[i].layout.height() + 1 + rows <= u16::MAX
            }
    }

    /// The application with window `i` replaced by `w`.
    pub open spec fn with_window(self, i: int, w: WindowView) -> AppView {
        AppView { windows: self.windows.update(i, w), ..self }
    }

    /// The index of the first window holding pane `id`.
    pub open spec fn window_of(self, id: u32) -> Option<int> {
        let i = first_window_with(self.windows, id);
        if i < self.windows.len() {
            Some(i)
        } else {
            None
        }
    }
}

/// Index of the first window in `ws` holding pane `id` (`ws.len()` if none).
pub open spec fn first_window_with(ws: Seq<WindowView>, id: u32) -> int
    decreases ws.len(),
{
    if ws.len() == 0 {
        0
    } else if ws[0].has_pane(id) {
        0
    } else {
        1 + first_window_with(ws.drop_first(), id)
    }
}

/// The resizes asked for when the active window is laid out on a terminal
/// of `cols` x `rows`.
pub open spec fn active_resize_effects(app: AppView, cols: u16, rows: u16) -> Seq<EffectView> {
    let w = app.active();
    resize_effects(w, w.layout.rects(spec_pane_area(app.sidebar, cols, rows)))
}

/// Closing the window `idx` once its last pane is gone: its panes are
/// dropped; with no window left the application ends (`false`); otherwise
/// the active index is kept unless it is now past the end, in which case the
/// last window becomes active, and the active window is resized.
pub open spec fn spec_remove_window(app: AppView, idx: int, cols: u16, rows: u16) -> (AppView, bool, Seq<EffectView>) {
    let dropped = app.windows[idx].panes.map_values(|p: PaneState| EffectView::DropPane { pane_id: p.id });
    let ws = app.windows.remove(idx);
    if ws.len() == 0 {
        (AppView { windows: ws, ..app }, false, dropped)
    } else {
        let a = if app.active_window_idx >= ws.len() { (ws.len() - 1) as usize } else { app.active_window_idx };
        let app2 = AppView { windows: ws, active_window_idx: a, ..app };
        (app2, true, dropped + active_resize_effects(app2, cols, rows))
    }
}

/// Closing pane `pane_id` of window `wi`, and the window with it when it
/// was the window's last pane.
pub open spec fn spec_close_in_window(app: AppView, wi: int, pane_id: u32, cols: u16, rows: u16) -> (AppView, bool, Seq<EffectView>) {
    let area = spec_pane_area(app.sidebar, cols, rows);
    let (w, keep, es) = close_result(app.windows[wi], pane_id, area);
    let app1 = app.with_window(wi, w);
    if keep {
        (app1, true, es)
    } else {
        let (app2, k, es2) = spec_remove_window(app1, wi, cols, rows);
        (app2, k, es + es2)
    }
}

/// The program of pane `pane_id` has ended: the pane is closed, wherever it is.
pub open spec fn spec_pane_exit(app: AppView, pane_id: u32, cols: u16, rows: u16) -> (AppView, bool, Seq<EffectView>) {
    match app.window_of(pane_id) {
        None => (app, true, seq![]),
        Some(wi) => spec_close_in_window(app, wi, pane_id, cols, rows),
    }
}

/// The panes with the notification flag of pane `id` set to `flag`.
pub open spec fn set_notification(panes: Seq<PaneState>, id: u32, flag: bool) -> Seq<PaneState> {
    panes.map_values(|p: PaneState| if p.id == id { PaneState { id: p.id, has_notification: flag } } else { p })
}

/// Whether some pane has a pending notification.
pub open spec fn any_notification(panes: Seq<PaneState>) -> bool {
    exists|i: int| 0 <= i < panes.len() && panes[i].has_notification
}

/// A new window holding only pane `id`.
pub open spec fn new_window_view(id: u32, window_index: usize) -> WindowView {
    WindowView {
        panes: seq![PaneState { id, has_notification: false }],
        layout: LayoutNode::Leaf { pane_id: id },
        active_pane_id: id,
        zoomed_pane_id: None,
        has_notification: false,
        window_index,
    }
}

/// The application with window `i` made active; the window's pending
/// notification mark is cleared, since it is now in view.
pub open spec fn switch_to(app: AppView, i: int) -> AppView {
    AppView {
        active_window_idx: i as usize,
        ..app.with_window(i, WindowView { has_notification: false, ..app.windows[i] })
    }
}

/// What a command does, on a terminal of `cols` x `rows`.
pub open spec fn spec_command(app: AppView, cmd: Command, cols: u16, rows: u16) -> (AppView, bool, Seq<EffectView>) {
    let area = spec_pane_area(app.sidebar, cols, rows);
    let ai = app.active_window_idx as int;
    let w = app.active();
    match cmd {
        Command::Forward(data) => {
            let a = w.active_pane_id;
            let w1 = if w.has_pane(a) { WindowView { panes: set_notification(w.panes, a, false), ..w } } else { w };
            let w2 = if any_notification(w1.panes) { w1 } else { WindowView { has_notification: false, ..w1 } };
            let es = if w.has_pane(a) { seq![EffectView::WriteToPane { pane_id: a, data }] } else { seq![] };
            (app.with_window(ai, w2), true, es)
        },
        Command::Split(dir) => {
            let w1 = WindowView { zoomed_pane_id: None, ..w };
            let es1 = resize_effects(w1, w1.layout.rects(area));
            let id = app.next_pane_id;
            let w2 = after_split(w1, dir, id);
            let r = spawn_rect(w2.layout.rects(area), id);
            let es2 = seq![EffectView::SpawnPane { pane_id: id, window_index: w.window_index, cols: r.width, rows: r.height }]
                + resize_effects(w2, w2.layout.rects(area));
            (AppView { next_pane_id: (id + 1) as u32, ..app.with_window(ai, w2) }, true, es1 + es2)
        },
        Command::Focus(dir) => (
            app.with_window(ai, WindowView { active_pane_id: focus_target(w, dir, area), ..w }),
            true,
            seq![],
        ),
        Command::Resize(dir) => match resize_step(w, dir, area) {
            Some(w2) => {
                let app1 = app.with_window(ai, w2);
                (app1, true, active_resize_effects(app1, cols, rows))
            },
            None => (app, true, seq![]),
        },
        Command::ClosePane => spec_close_in_window(app, ai, w.active_pane_id, cols, rows),
        Command::ToggleSidebar => {
            let app1 = AppView { sidebar: SidebarState { collapsed: !app.sidebar.collapsed, ..app.sidebar }, ..app };
            (app1, true, active_resize_effects(app1, cols, rows))
        },
        Command::NewWindow => {
            let id = app.next_pane_id;
            let idx = app.windows.len() as usize;
            (
                AppView {
                    windows: app.windows.push(new_window_view(id, idx)),
                    active_window_idx: idx,
                    next_pane_id: (id + 1) as u32,
                    ..app
                },
                true,
                seq![EffectView::SpawnPane { pane_id: id, window_index: idx, cols: area.width, rows: area.height }],
            )
        },
        Command::SwitchWindow(i) => if i < app.windows.len() {
            let app1 = switch_to(app, i as int);
            (app1, true, active_resize_effects(app1, cols, rows))
        } else {
            (app, true, seq![])
        },
        Command::ToggleZoom => if w.zoomed_pane_id is Some {
            let app1 = app.with_window(ai, WindowView { zoomed_pane_id: None, ..w });
            (app1, true, active_resize_effects(app1, cols, rows))
        } else {
            let a = w.active_pane_id;
            let app1 = app.with_window(ai, WindowView { zoomed_pane_id: Some(a), ..w });
            (
                app1,
                true,
                if w.has_pane(a) {
                    seq![EffectView::ResizePane { pane_id: a, cols: area.width, rows: area.height }]
                } else {
                    seq![]
                },
            )
        },
        Command::Quit => (app, false, seq![]),
        Command::Nothing => (app, true, seq![]),
    }
}

/// The key handler's step on `key`: the next mode and the command asked for.
pub open spec fn spec_input(app: AppView, key: KeyEvent) -> (InputMode, Command) {
    match app.mode {
        InputMode::Normal => if (key.modifiers, key.code) == app.prefix {
            (InputMode::Prefix, Command::Nothing)
        } else {
            (InputMode::Normal, Command::Forward(spec_key_bytes(key)))
        },
        InputMode::Prefix => (InputMode::Normal, command_of(spec_prefix_action(app.bindings, key))),
    }
}

/// Whether (`col`, `row`) is a cell of `r`.
pub open spec fn point_in(r: Rect, col: u16, row: u16) -> bool {
    col >= r.x && col < r.x + r.width && row >= r.y && row < r.y + r.height
}

/// The first pane among `rects` whose area holds (`col`, `row`).
pub open spec fn first_hit(rects: Seq<(u32, Rect)>, col: u16, row: u16) -> Option<(u32, Rect)>
    decreases rects.len(),
{
    if rects.len() == 0 {
        None
    } else if point_in(rects[0].1, col, row) {
        Some(rects[0])
    } else {
        first_hit(rects.drop_first(), col, row)
    }
}

/// A mouse click: in the sidebar, a click on a window's line (from the
/// third row on) switches to that window; in the pane area, when no pane is
/// zoomed, the clicked pane gets the focus; any other click changes nothing.
pub open spec fn spec_mouse_click(app: AppView, col: u16, row: u16, cols: u16, rows: u16) -> (AppView, Seq<EffectView>) {
    let ew = app.sidebar.spec_effective_width();
    let w = app.active();
    if col < ew {
        if row >= 2 && row - 2 < app.windows.len() {
            let app1 = switch_to(app, row - 2);
            (app1, active_resize_effects(app1, cols, rows))
        } else {
            (app, seq![])
        }
    } else if w.zoomed_pane_id is Some {
        (app, seq![])
    } else {
        match first_hit(w.layout.rects(spec_pane_area(app.sidebar, cols, rows)), col, row) {
            Some((id, _)) => (app.with_window(app.active_window_idx as int, WindowView { active_pane_id: id, ..w }), seq![]),
            None => (app, seq![]),
        }
    }
}

/// The pane whose text a selection starting at (`sc`, `sr`) is taken from,
/// and where that pane is shown: the zoomed pane over the whole pane area,
/// or else the first pane whose area holds the starting cell.
pub open spec fn selection_source(app: AppView, sc: u16, sr: u16, cols: u16, rows: u16) -> Option<(u32, Rect)> {
    let w = app.active();
    let area = spec_pane_area(app.sidebar, cols, rows);
    match w.zoomed_pane_id {
        Some(z) if w.has_pane(z) => Some((z, area)),
        _ => match first_hit(w.layout.rects(area), sc, sr) {
            Some((id, r)) => if w.has_pane(id) { Some((id, r)) } else { None },
            None => None,
        },
    }
}

/// The mouse button is released: the selection ends at (`col`, `row`), its
/// text is asked for (see `selection_source`), and the selection is cleared.
pub open spec fn spec_mouse_up(app: AppView, col: u16, row: u16, cols: u16, rows: u16) -> (AppView, Seq<EffectView>) {
    let app0 = AppView { selection: None, ..app };
    match app.selection {
        Some(s) => {
            let (sc, sr, ec, er) = (Selection { end_col: col, end_row: row, ..s }).spec_normalized();
            match selection_source(app, sc, sr, cols, rows) {
                Some((pid, rect)) => (app0, seq![EffectView::CopySelection {
                    pane_id: pid,
                    rect,
                    start_col: sc,
                    start_row: sr,
                    end_col: ec,
                    end_row: er,
                }]),
                None => (app0, seq![]),
            }
        },
        None => (app0, seq![]),
    }
}

/// The selection while the mouse is dragged to (`col`, `row`).
pub open spec fn spec_mouse_drag(sel: Option<Selection>, col: u16, row: u16) -> Option<Selection> {
    match sel {
        Some(s) => Some(Selection { end_col: col, end_row: row, ..s }),
        None => Some(Selection { start_col: col, start_row: row, end_col: col, end_row: row }),
    }
}

/// A notification from outside for window `window` (counting from 1) and
/// pane `pane`: the pane gets the notification mark, and so does the window
/// unless it is the active one. Without a window, every inactive window
/// gets the mark.
pub open spec fn spec_notify(app: AppView, window: Option<usize>, pane: Option<u32>) -> AppView {
    match window {
        Some(n) => {
            let idx = sat_sub(n as int, 1);
            if idx < app.windows.len() {
                let w = app.windows[idx];
                let w1 = match pane {
                    Some(p) => if w.has_pane(p) { WindowView { panes: set_notification(w.panes, p, true), ..w } } else { w },
                    None => w,
                };
                let w2 = if idx != app.active_window_idx { WindowView { has_notification: true, ..w1 } } else { w1 };
                app.with_window(idx, w2)
            } else {
                app
            }
        },
        None => AppView {
            windows: Seq::new(app.windows.len(), |i: int| if i != app.active_window_idx {
                WindowView { has_notification: true, ..app.windows[i] }
            } else {
                app.windows[i]
            }),
            ..app
        },
    }
}

/// What an event does on a terminal of `cols` x `rows`: the next state,
/// whether the application keeps running, and the effects to perform.
pub open spec fn spec_update(app: AppView, event: AppEvent, cols: u16, rows: u16) -> (AppView, bool, Seq<EffectView>) {
    match event {
        AppEvent::PtyOutput { pane_id, data } => (
            app,
            true,
            if app.window_of(pane_id) is Some { seq![EffectView::FeedPane { pane_id, data: data@ }] } else { seq![] },
        ),
        AppEvent::PtyExit { pane_id } => spec_pane_exit(app, pane_id, cols, rows),
        AppEvent::Resize { cols: c, rows: r } => (app, true, active_resize_effects(app, c, r)),
        AppEvent::MouseClick { col, row } => {
            let (a, es) = spec_mouse_click(AppView { selection: None, ..app }, col, row, cols, rows);
            (a, true, es)
        },
        AppEvent::MouseDrag { col, row } => (
            AppView { selection: spec_mouse_drag(app.selection, col, row), ..app },
            true,
            seq![],
        ),
        AppEvent::MouseUp { col, row } => {
            let (a, es) = spec_mouse_up(app, col, row, cols, rows);
            (a, true, es)
        },
        AppEvent::ToastExpired => (AppView { toast: None, ..app }, true, seq![]),
        AppEvent::ExternalNotification { window, pane, .. } => (spec_notify(app, window, pane), true, seq![]),
        AppEvent::KeyInput(key) => {
            let (mode, cmd) = spec_input(app, key);
            spec_command(AppView { mode, ..app }, cmd, cols, rows)
        },
    }
}

/// Whether the event makes the application hand out a new pane id.
pub open spec fn takes_new_pane(app: AppView, event: AppEvent) -> bool {
    match event {
        AppEvent::KeyInput(key) => match spec_input(app, key).1 {
            Command::Split(_) => true,
            Command::NewWindow => true,
            _ => false,
        },
        _ => false,
    }
}


/// A layout fits on the pane area of a terminal of `cols` x `rows` when it
/// is bounded as `screen_ok` asks, whether the sidebar is shown or not.
pub proof fn lemma_fits_pane_area(l: LayoutNode, sidebar: SidebarState, cols: u16, rows: u16)
    requires
        l.ratios_valid(),
        l.height() + (if cols >= sidebar.width { cols } else { sidebar.width }) <= u16::MAX,
        l.height() + rows <= u16::MAX,
    ensures
        l.fits(spec_pane_area(sidebar, cols, rows)),
        spec_pane_area(sidebar, cols, rows).x + spec_pane_area(sidebar, cols, rows).width <= u16::MAX,
        spec_pane_area(sidebar, cols, rows).y + spec_pane_area(sidebar, cols, rows).height <= u16::MAX,
{
    lemma_fits_when_bounded(l, spec_pane_area(sidebar, cols, rows));
}

proof fn lemma_view_update(ws: Seq<Window>, i: int, w: Window)
    requires
        0 <= i < ws.len(),
    ensures
        ws.update(i, w).map_values(|x: Window| x@) == ws.map_values(|x: Window| x@).update(i, w@),
{
    assert(ws.update(i, w).map_values(|x: Window| x@) =~= ws.map_values(|x: Window| x@).update(i, w@));
}

proof fn lemma_first_window_with(ws: Seq<WindowView>, id: u32)
    ensures
        0 <= first_window_with(ws, id) <= ws.len(),
        first_window_with(ws, id) < ws.len() ==> ws[first_window_with(ws, id)].has_pane(id),
        forall|j: int| 0 <= j < first_window_with(ws, id) ==> !ws[j].has_pane(id),
    decreases ws.len(),
{
    if ws.len() > 0 {
        lemma_first_window_with(ws.drop_first(), id);
        assert forall|j: int| 0 <= j < first_window_with(ws, id) implies !ws[j].has_pane(id) by {
            if j > 0 {
                assert(ws[j] == ws.drop_first()[j - 1]);
            }
        }
    }
}

/// Every window's layout has valid ratios and fits on the pane area of a
/// terminal of `cols` x `rows`, with the sidebar shown or collapsed.
pub open spec fn layouts_bounded(ws: Seq<WindowView>, sidebar: SidebarState, cols: u16, rows: u16) -> bool {
    forall|i: int|
        0 <= i < ws.len() ==> {
            &&& (#[trigger] ws[i]).layout.ratios_valid()
            &&& ws[i].layout.height() + (if cols >= sidebar.width { cols } else { sidebar.width }) <= u16::MAX
            &&& ws[i].layout.height() + rows <= u16::MAX
        }
}

proof fn lemma_set_notification(w: WindowView, i: int, id: u32, flag: bool)
    requires
        w.pane_ids().no_duplicates(),
        0 <= i < w.panes.len(),
        w.panes[i].id == id,
    ensures
        w.panes.update(i, PaneState { id, has_notification: flag }) == set_notification(w.panes, id, flag),
{
    assert forall|j: int| 0 <= j < w.panes.len() && j != i implies w.panes[j].id != id by {
        assert(w.pane_ids()[j] == w.panes[j].id && w.pane_ids()[i] == w.panes[i].id);
    }
    assert(w.panes.update(i, PaneState { id, has_notification: flag }) =~= set_notification(w.panes, id, flag));
}

fn window_has_notification_pane(w: &Window) -> (r: bool)
    ensures
        r == any_notification(w@.panes),
{
    let mut i: usize = 0;
    while i < w.panes.len()
        invariant
            i <= w.panes@.len(),
            forall|j: int| 0 <= j < i ==> !w.panes@[j].has_notification,
        decreases w.panes.len() - i,
    {
        if w.panes[i].has_notification {
            return true;
        }
        i = i + 1;
    }
    false
}

impl App {
    /// A new application on a terminal of `cols` x `rows`: the sidebar
    /// shown, one window with pane 0 started on the area beside the sidebar,
    /// and the key handler of `config`.
    pub fn new(config: &Config, term_cols: u16, term_rows: u16, effects: &mut Vec<Effect>) -> (r: App)
        ensures
            r@.wf(),
            r@.windows == seq![new_window_view(0, 0)],
            r@.active_window_idx == 0,
            r@.sidebar == SidebarState::new_spec(),
            r@.selection is None,
            r@.toast is None,
            r@.next_pane_id == 1,
            r.input_handler.mode == InputMode::Normal,
            r@.prefix == (config.prefix_modifiers, config.prefix_key),
            r@.bindings == crate::input::apply_bindings(crate::input::default_binding_map(), config.binding_list()),
            effect_views(final(effects)@) == effect_views(old(effects)@).push(EffectView::SpawnPane {
                pane_id: 0,
                window_index: 0,
                cols: sat_sub(term_cols as int, crate::sidebar::SIDEBAR_WIDTH as int) as u16,
                rows: term_rows,
            }),
    {
        let sidebar = SidebarState::new();
        let pane_cols = term_cols.saturating_sub(sidebar.effective_width());
        let window = Window::new(0, pane_cols, term_rows, 0, effects);
        let mut windows: Vec<Window> = Vec::new();
        windows.push(window);
        let app = App {
            windows,
            active_window_idx: 0,
            sidebar,
            selection: None,
            toast: None,
            next_pane_id: 1,
            input_handler: InputHandler::new(config),
        };
        proof {
            assert(app@.windows =~= seq![new_window_view(0, 0)]);
            assert forall|i: int, id: u32| 0 <= i < app@.windows.len() && #[trigger] app@.windows[i].has_pane(id) implies id < app@.next_pane_id by {
                assert(app@.windows[i].pane_ids() =~= seq![0u32]);
            }
        }
        app
    }

    /// The area beside the sidebar, on a terminal of `cols` x `rows`.
    pub fn pane_area(&self, term_cols: u16, term_rows: u16) -> (r: Rect)
        ensures
            r == spec_pane_area(self.sidebar, term_cols, term_rows),
    {
        let ew = self.sidebar.effective_width();
        Rect { x: ew, y: 0, width: term_cols.saturating_sub(ew), height: term_rows }
    }

    /// The first window holding pane `pane_id`.
    pub fn find_window_for_pane(&self, pane_id: u32) -> (r: Option<usize>)
        ensures
            r matches Some(i) ==> self@.window_of(pane_id) == Some(i as int),
            r is None ==> self@.window_of(pane_id) is None,
    {
        let ghost ws = self@.windows;
        let mut i: usize = 0;
        while i < self.windows.len()
            invariant
                ws == self@.windows,
                i <= self.windows@.len(),
                forall|j: int| 0 <= j < i ==> !ws[j].has_pane(pane_id),
            decreases self.windows.len() - i,
        {
            proof {
                assert(ws[i as int] == self.windows@[i as int]@);
            }
            if self.windows[i].contains_pane(pane_id) {
                proof {
                    lemma_first_window_with(ws, pane_id);
                    let f = first_window_with(ws, pane_id);
                    if f < i {
                        assert(!ws[f].has_pane(pane_id));
                    }
                    if f > i {
                        assert(!ws[i as int].has_pane(pane_id));
                    }
                }
                return Some(i);
            }
            i = i + 1;
        }
        proof {
            lemma_first_window_with(ws, pane_id);
            let f = first_window_with(ws, pane_id);
            if f < ws.len() {
                assert(!ws[f].has_pane(pane_id));
            }
        }
        None
    }

    fn alloc_pane_id(&mut self) -> (r: u32)
        requires
            old(self).next_pane_id < u32::MAX,
        ensures
            r == old(self).next_pane_id,
            *final(self) == (App { next_pane_id: (r + 1) as u32, ..*old(self) }),
    {
        let id = self.next_pane_id;
        self.next_pane_id = self.next_pane_id + 1;
        id
    }

    /// Asks for the panes of the active window to be resized to the pane
    /// area of a terminal of `cols` x `rows`.
    fn resize_active(&self, term_cols: u16, term_rows: u16, effects: &mut Vec<Effect>)
        requires
            self@.active_window_idx < self@.windows.len(),
            self@.active().layout.fits(spec_pane_area(self.sidebar, term_cols, term_rows)),
        ensures
            effect_views(final(effects)@) == effect_views(old(effects)@) + active_resize_effects(self@, term_cols, term_rows),
    {
        let area = self.pane_area(term_cols, term_rows);
        self.windows[self.active_window_idx].resize_all_panes(area, effects);
    }

    /// Makes window `idx` active, clears its notification mark and resizes
    /// its panes (see `switch_to`).
    fn switch_window(&mut self, idx: usize, term_cols: u16, term_rows: u16, effects: &mut Vec<Effect>)
        requires
            idx < old(self)@.windows.len(),
            old(self)@.wf(),
            old(self)@.screen_ok(term_cols, term_rows),
        ensures
            final(self)@ == switch_to(old(self)@, idx as int),
            effect_views(final(effects)@) == effect_views(old(effects)@) + active_resize_effects(
                switch_to(old(self)@, idx as int),
                term_cols,
                term_rows,
            ),
    {
        let ghost app = self@;
        self.windows[idx].has_notification = false;
        self.active_window_idx = idx;
        proof {
            assert(self@.windows =~= switch_to(app, idx as int).windows);
            assert(app.windows[idx as int].wf());
            assert(app.windows[idx as int].layout.height() + 1 + (if term_cols >= app.sidebar.width { term_cols } else { app.sidebar.width }) <= u16::MAX);
            lemma_fits_pane_area(app.windows[idx as int].layout, self.sidebar, term_cols, term_rows);
        }
        self.resize_active(term_cols, term_rows, effects);
    }

    /// Closes window `idx` after its last pane is gone (see `spec_remove_window`).
    fn remove_window(&mut self, idx: usize, term_cols: u16, term_rows: u16, effects: &mut Vec<Effect>) -> (r: bool)
        requires
            idx < old(self)@.windows.len(),
            layouts_bounded(old(self)@.windows, old(self).sidebar, term_cols, term_rows),
        ensures
            ({
                let (v, k, es) = spec_remove_window(old(self)@, idx as int, term_cols, term_rows);
                &&& final(self)@ == v
                &&& r == k
                &&& effect_views(final(effects)@) == effect_views(old(effects)@) + es
            }),
    {
        let ghost old_ws = self.windows@;
        let w = self.windows.remove(idx);
        proof {
            assert(self@.windows =~= old(self)@.windows.remove(idx as int));
        }
        let ghost dropped = old(self)@.windows[idx as int].panes.map_values(|p: PaneState| EffectView::DropPane { pane_id: p.id });
        let ghost start = effects@;
        let mut j: usize = 0;
        while j < w.panes.len()
            invariant
                j <= w.panes@.len(),
                w@ == old(self)@.windows[idx as int],
                dropped == old(self)@.windows[idx as int].panes.map_values(|p: PaneState| EffectView::DropPane { pane_id: p.id }),
                effect_views(effects@) == effect_views(start) + dropped.take(j as int),
            decreases w.panes.len() - j,
        {
            let ghost before = effects@;
            effects.push(Effect::DropPane { pane_id: w.panes[j].id });
            proof {
                assert(dropped.take(j + 1) =~= dropped.take(j as int).push(EffectView::DropPane { pane_id: w.panes@[j as int].id }));
                assert(effect_views(effects@) =~= effect_views(before).push(EffectView::DropPane { pane_id: w.panes@[j as int].id }));
            }
            j = j + 1;
        }
        proof {
            assert(dropped.take(j as int) =~= dropped);
        }
        if self.windows.len() == 0 {
            return false;
        }
        if self.active_window_idx >= self.windows.len() {
            self.active_window_idx = self.windows.len() - 1;
        }
        proof {
            let ws = self@.windows;
            let a = self.active_window_idx as int;
            assert(ws[a] == old(self)@.windows[if a < idx { a } else { a + 1 }]);
            lemma_fits_pane_area(ws[a].layout, self.sidebar, term_cols, term_rows);
        }
        let ghost mid = effects@;
        self.resize_active(term_cols, term_rows, effects);
        true
    }

    /// Closes pane `pane_id` of window `wi` (see `spec_close_in_window`).
    fn close_in_window(&mut self, wi: usize, pane_id: u32, term_cols: u16, term_rows: u16, effects: &mut Vec<Effect>) -> (r: bool)
        requires
            wi < old(self)@.windows.len(),
            old(self)@.windows[wi as int].wf(),
            layouts_bounded(old(self)@.windows, old(self).sidebar, term_cols, term_rows),
        ensures
            ({
                let (v, k, es) = spec_close_in_window(old(self)@, wi as int, pane_id, term_cols, term_rows);
                &&& final(self)@ == v
                &&& r == k
                &&& effect_views(final(effects)@) == effect_views(old(effects)@) + es
            }),
    {
        let area = self.pane_area(term_cols, term_rows);
        proof {
            let w = old(self)@.windows[wi as int];
            crate::layout::lemma_remove_preserves(w.layout, pane_id);
            if let Some((l, _)) = w.layout.spec_remove_pane(pane_id) {
                lemma_fits_pane_area(l, self.sidebar, term_cols, term_rows);
            }
        }
        let keep = self.windows[wi].close_pane(pane_id, area, effects);
        proof {
            lemma_view_update(old(self).windows@, wi as int, self.windows@[wi as int]);
            assert(self.windows@ == old(self).windows@.update(wi as int, self.windows@[wi as int]));
            lemma_close_keeps_wf(old(self)@.windows[wi as int], pane_id, area);
            let w2 = self@.windows[wi as int];
            assert forall|i: int| 0 <= i < self@.windows.len() implies {
                &&& (#[trigger] self@.windows[i]).layout.ratios_valid()
                &&& self@.windows[i].layout.height() + (if term_cols >= self.sidebar.width { term_cols } else { self.sidebar.width }) <= u16::MAX
                &&& self@.windows[i].layout.height() + term_rows <= u16::MAX
            } by {
                assert(old(self)@.windows[i].layout.ratios_valid());
            }
        }
        if keep {
            return true;
        }
        let ghost mid = effects@;
        let k = self.remove_window(wi, term_cols, term_rows, effects);
        proof {
            assert(effect_views(effects@) =~= effect_views(old(effects)@) + (effect_views(mid).skip(effect_views(old(effects)@).len() as int) + effect_views(effects@).skip(effect_views(mid).len() as int)));
        }
        k
    }

    /// Carries out the command that `action` stands for (see `spec_command`).
    pub fn run_action(&mut self, action: Action, term_cols: u16, term_rows: u16, effects: &mut Vec<Effect>) -> (r: bool)
        requires
            old(self)@.wf(),
            old(self)@.screen_ok(term_cols, term_rows),
            (command_of(action) is Split || command_of(action) is NewWindow) ==> old(self).next_pane_id < u32::MAX,
        ensures
            ({
                let (v, k, es) = spec_command(old(self)@, command_of(action), term_cols, term_rows);
                &&& final(self)@ == v
                &&& r == k
                &&& effect_views(final(effects)@) == effect_views(old(effects)@) + es
            }),
    {
        let ghost app = self@;
        let ai = self.active_window_idx;
        proof {
            assert(app.windows[ai as int] == self.windows@[ai as int]@);
            assert(app.active().wf());
            assert forall|i: int| 0 <= i < app.windows.len() implies {
                &&& (#[trigger] app.windows[i]).layout.ratios_valid()
                &&& app.windows[i].layout.height() + (if term_cols >= app.sidebar.width { term_cols } else { app.sidebar.width }) <= u16::MAX
                &&& app.windows[i].layout.height() + term_rows <= u16::MAX
            } by {
                assert(app.windows[i].wf());
            }
            lemma_fits_pane_area(app.active().layout, self.sidebar, term_cols, term_rows);
        }
        let area = self.pane_area(term_cols, term_rows);
        match action {
            Action::ForwardToPty(data) => {
                let a = self.windows[ai].active_pane_id;
                let ghost before = effects@;
                match self.windows[ai].pane_index(a) {
                    Some(i) => {
                        proof {
                            lemma_set_notification(app.active(), i as int, a, false);
                        }
                        self.windows[ai].panes.set(i, PaneState { id: a, has_notification: false });
                        effects.push(Effect::WriteToPane { pane_id: a, data });
                    },
                    None => {},
                }
                if !window_has_notification_pane(&self.windows[ai]) {
                    self.windows[ai].has_notification = false;
                }
                proof {
                    assert(self@.windows =~= app.windows.update(ai as int, self.windows@[ai as int]@));
                    assert(effect_views(effects@) =~= effect_views(old(effects)@) + spec_command(app, command_of(action), term_cols, term_rows).2);
                }
                true
            },
            Action::SplitVertical => {
                self.split(Split::Vertical, term_cols, term_rows, effects);
                true
            },
            Action::SplitHorizontal => {
                self.split(Split::Horizontal, term_cols, term_rows, effects);
                true
            },
            Action::FocusUp => {
                self.windows[ai].move_focus(Direction::Up, area);
                proof {
                    assert(self@.windows =~= app.windows.update(ai as int, self.windows@[ai as int]@));
                }
                true
            },
            Action::FocusDown => {
                self.windows[ai].move_focus(Direction::Down, area);
                proof {
                    assert(self@.windows =~= app.windows.update(ai as int, self.windows@[ai as int]@));
                }
                true
            },
            Action::FocusLeft => {
                self.windows[ai].move_focus(Direction::Left, area);
                proof {
                    assert(self@.windows =~= app.windows.update(ai as int, self.windows@[ai as int]@));
                }
                true
            },
            Action::FocusRight => {
                self.windows[ai].move_focus(Direction::Right, area);
                proof {
                    assert(self@.windows =~= app.windows.update(ai as int, self.windows@[ai as int]@));
                }
                true
            },
            Action::ResizeUp => {
                self.resize_pane(Direction::Up, term_cols, term_rows, effects);
                true
            },
            Action::ResizeDown => {
                self.resize_pane(Direction::Down, term_cols, term_rows, effects);
                true
            },
            Action::ResizeLeft => {
                self.resize_pane(Direction::Left, term_cols, term_rows, effects);
                true
            },
            Action::ResizeRight => {
                self.resize_pane(Direction::Right, term_cols, term_rows, effects);
                true
            },
            Action::ClosePane => {
                let pane_id = self.windows[ai].active_pane_id;
                self.close_in_window(ai, pane_id, term_cols, term_rows, effects)
            },
            Action::ToggleSidebar => {
                self.sidebar.toggle();
                proof {
                    lemma_fits_pane_area(app.active().layout, self.sidebar, term_cols, term_rows);
                }
                self.resize_active(term_cols, term_rows, effects);
                true
            },
            Action::NewWindow => {
                let pane_id = self.alloc_pane_id();
                let idx = self.windows.len();
                let w = Window::new(pane_id, area.width, area.height, idx, effects);
                self.windows.push(w);
                self.active_window_idx = self.windows.len() - 1;
                proof {
                    assert(self@.windows =~= app.windows.push(new_window_view(pane_id, idx)));
                }
                true
            },
            Action::SwitchWindow(idx) => {
                if idx < self.windows.len() {
                    self.switch_window(idx, term_cols, term_rows, effects);
                } else {
                    proof {
                        assert(effect_views(effects@) =~= effect_views(old(effects)@) + Seq::<EffectView>::empty());
                    }
                }
                true
            },
            Action::ToggleZoom => {
                if self.windows[ai].zoomed_pane_id.is_some() {
                    self.windows[ai].zoomed_pane_id = None;
                    proof {
                        assert(self@.windows =~= app.windows.update(ai as int, self.windows@[ai as int]@));
                    }
                    self.resize_active(term_cols, term_rows, effects);
                } else {
                    let pane_id = self.windows[ai].active_pane_id;
                    self.windows[ai].zoomed_pane_id = Some(pane_id);
                    proof {
                        assert(self@.windows =~= app.windows.update(ai as int, self.windows@[ai as int]@));
                    }
                    let ghost before = effects@;
                    if self.windows[ai].contains_pane(pane_id) {
                        effects.push(Effect::ResizePane { pane_id, cols: area.width, rows: area.height });
                    }
                    proof {
                        assert(effect_views(effects@) =~= effect_views(old(effects)@) + spec_command(app, command_of(action), term_cols, term_rows).2);
                    }
                }
                true
            },
            Action::Quit => {
                proof {
                    assert(effect_views(effects@) =~= effect_views(old(effects)@) + Seq::<EffectView>::empty());
                }
                false
            },
            _ => {
                proof {
                    assert(effect_views(effects@) =~= effect_views(old(effects)@) + Seq::<EffectView>::empty());
                }
                true
            },
        }
    }

    /// Takes a resize step in `direction` around the active pane of the
    /// active window (see `spec_command`).
    fn resize_pane(&mut self, direction: Direction, term_cols: u16, term_rows: u16, effects: &mut Vec<Effect>)
        requires
            old(self)@.wf(),
            old(self)@.screen_ok(term_cols, term_rows),
        ensures
            ({
                let (v, k, es) = spec_command(old(self)@, Command::Resize(direction), term_cols, term_rows);
                &&& final(self)@ == v
                &&& effect_views(final(effects)@) == effect_views(old(effects)@) + es
            }),
    {
        let ghost app = self@;
        let ai = self.active_window_idx;
        let area = self.pane_area(term_cols, term_rows);
        proof {
            assert(app.windows[ai as int] == self.windows@[ai as int]@);
            assert(app.active().wf());
            assert(app.active().layout.height() + 1 + (if term_cols >= app.sidebar.width { term_cols } else { app.sidebar.width }) <= u16::MAX);
            lemma_resize_keeps_wf(app.active(), direction, area);
        }
        let moved = self.windows[ai].resize_active_pane(direction, area, effects);
        proof {
            assert(self@.windows =~= app.windows.update(ai as int, self.windows@[ai as int]@));
            if !moved {
                assert(self@.windows =~= app.windows);
                assert(effect_views(effects@) =~= effect_views(old(effects)@) + Seq::<EffectView>::empty());
            }
        }
    }

    /// Splits the active pane in `direction` with a new pane: the zoom ends,
    /// the panes are resized, then the window splits (see `spec_command`).
    fn split(&mut self, direction: Split, term_cols: u16, term_rows: u16, effects: &mut Vec<Effect>)
        requires
            old(self)@.wf(),
            old(self)@.screen_ok(term_cols, term_rows),
            old(self).next_pane_id < u32::MAX,
        ensures
            ({
                let (v, k, es) = spec_command(old(self)@, Command::Split(direction), term_cols, term_rows);
                &&& final(self)@ == v
                &&& effect_views(final(effects)@) == effect_views(old(effects)@) + es
            }),
    {
        let ghost app = self@;
        let ai = self.active_window_idx;
        let area = self.pane_area(term_cols, term_rows);
        proof {
            assert(app.windows[ai as int] == self.windows@[ai as int]@);
            assert(app.active().wf());
        }
        self.windows[ai].zoomed_pane_id = None;
        let ghost w1 = self.windows@[ai as int]@;
        proof {
            assert(app.active().layout.height() + 1 + (if term_cols >= app.sidebar.width { term_cols } else { app.sidebar.width }) <= u16::MAX);
            lemma_fits_pane_area(w1.layout, self.sidebar, term_cols, term_rows);
        }
        self.windows[ai].resize_all_panes(area, effects);
        let ghost mid = effects@;
        let id = self.alloc_pane_id();
        proof {
            lemma_split_keeps_wf(app.active(), direction, id);
            assert(split_layout(w1, direction, id) == split_layout(app.active(), direction, id));
            lemma_fits_pane_area(split_layout(w1, direction, id), self.sidebar, term_cols, term_rows);
        }
        self.windows[ai].split_active_pane(direction, area, id, effects);
        proof {
            assert(self@.windows =~= app.windows.update(ai as int, after_split(w1, direction, id)));
            assert(effect_views(effects@) =~= effect_views(old(effects)@) + spec_command(app, Command::Split(direction), term_cols, term_rows).2);
        }
    }

    fn first_hit_exec(rects: &Vec<(u32, Rect)>, col: u16, row: u16, w: &Window, need_pane: bool) -> (r: Option<(u32, Rect)>)
        requires
            forall|k: int| 0 <= k < rects@.len() ==> {
                &&& (#[trigger] rects@[k]).1.x + rects@[k].1.width <= u16::MAX
                &&& rects@[k].1.y + rects@[k].1.height <= u16::MAX
            },
        ensures
            !need_pane ==> r == first_hit(rects@, col, row),
            need_pane ==> r == match first_hit(rects@, col, row) {
                Some((id, rr)) => if w@.has_pane(id) { Some((id, rr)) } else { None },
                None => None,
            },
    {
        let mut i: usize = 0;
        proof {
            assert(rects@.skip(0) =~= rects@);
        }
        while i < rects.len()
            invariant
                i <= rects@.len(),
                first_hit(rects@, col, row) == first_hit(rects@.skip(i as int), col, row),
                forall|k: int| 0 <= k < rects@.len() ==> {
                    &&& (#[trigger] rects@[k]).1.x + rects@[k].1.width <= u16::MAX
                    &&& rects@[k].1.y + rects@[k].1.height <= u16::MAX
                },
            decreases rects.len() - i,
        {
            let (id, rect) = rects[i];
            proof {
                assert(rects@.skip(i as int)[0] == rects@[i as int]);
                assert(rects@.skip(i as int).drop_first() =~= rects@.skip(i + 1));
            }
            if col >= rect.x && col < rect.x + rect.width && row >= rect.y && row < rect.y + rect.height {
                if need_pane && !w.contains_pane(id) {
                    return None;
                }
                return Some((id, rect));
            }
            i = i + 1;
        }
        proof {
            assert(rects@.skip(i as int) =~= Seq::<(u32, Rect)>::empty());
        }
        None
    }

    /// A mouse click at (`col`, `row`) (see `spec_mouse_click`).
    pub fn handle_mouse_click(&mut self, col: u16, row: u16, term_cols: u16, term_rows: u16, effects: &mut Vec<Effect>)
        requires
            old(self)@.wf(),
            old(self)@.screen_ok(term_cols, term_rows),
        ensures
            ({
                let (v, es) = spec_mouse_click(old(self)@, col, row, term_cols, term_rows);
                &&& final(self)@ == v
                &&& effect_views(final(effects)@) == effect_views(old(effects)@) + es
            }),
            final(self)@.selection == old(self)@.selection,
    {
        let ghost app = self@;
        let sidebar_width = self.sidebar.effective_width();
        let ai = self.active_window_idx;
        proof {
            assert(app.windows[ai as int] == self.windows@[ai as int]@);
        }
        if col < sidebar_width {
            if row >= 2 {
                let idx = (row - 2) as usize;
                if idx < self.windows.len() {
                    self.switch_window(idx, term_cols, term_rows, effects);
                    return;
                }
            }
            proof {
                assert(effect_views(effects@) =~= effect_views(old(effects)@) + Seq::<EffectView>::empty());
            }
            return;
        }
        proof {
            assert(effect_views(effects@) =~= effect_views(old(effects)@) + Seq::<EffectView>::empty());
        }
        if self.windows[ai].zoomed_pane_id.is_some() {
            return;
        }
        let area = self.pane_area(term_cols, term_rows);
        proof {
            assert(app.active().wf());
            lemma_fits_pane_area(app.active().layout, self.sidebar, term_cols, term_rows);
            lemma_rects_in_range(app.active().layout, area);
        }
        let rects = self.windows[ai].layout.compute_rects(area);
        let hit = Self::first_hit_exec(&rects, col, row, &self.windows[ai], false);
        if let Some((id, _)) = hit {
            self.windows[ai].active_pane_id = id;
            proof {
                assert(self@.windows =~= app.windows.update(ai as int, self.windows@[ai as int]@));
            }
        }
    }

    /// The mouse is dragged to (`col`, `row`): the selection starts there or
    /// now ends there.
    pub fn handle_mouse_drag(&mut self, col: u16, row: u16)
        ensures
            final(self)@ == (AppView { selection: spec_mouse_drag(old(self)@.selection, col, row), ..old(self)@ }),
    {
        match self.selection {
            Some(sel) => {
                self.selection = Some(Selection { end_col: col, end_row: row, ..sel });
            },
            None => {
                self.selection = Some(Selection { start_col: col, start_row: row, end_col: col, end_row: row });
            },
        }
    }

    /// The mouse button is released at (`col`, `row`) (see `spec_mouse_up`).
    pub fn handle_mouse_up(&mut self, col: u16, row: u16, term_cols: u16, term_rows: u16, effects: &mut Vec<Effect>)
        requires
            old(self)@.wf(),
            old(self)@.screen_ok(term_cols, term_rows),
        ensures
            ({
                let (v, es) = spec_mouse_up(old(self)@, col, row, term_cols, term_rows);
                &&& final(self)@ == v
                &&& effect_views(final(effects)@) == effect_views(old(effects)@) + es
            }),
    {
        let ghost app = self@;
        let sel = self.selection;
        self.selection = None;
        proof {
            assert(effect_views(effects@) =~= effect_views(old(effects)@) + Seq::<EffectView>::empty());
        }
        if let Some(s) = sel {
            let s2 = Selection { end_col: col, end_row: row, ..s };
            let (sc, sr, ec, er) = s2.normalized();
            let ai = self.active_window_idx;
            let area = self.pane_area(term_cols, term_rows);
            proof {
                assert(app.windows[ai as int] == self.windows@[ai as int]@);
                assert(app.active().wf());
                lemma_fits_pane_area(app.active().layout, self.sidebar, term_cols, term_rows);
                lemma_rects_in_range(app.active().layout, area);
            }
            let mut source: Option<(u32, Rect)> = None;
            if let Some(z) = self.windows[ai].zoomed_pane_id {
                if self.windows[ai].contains_pane(z) {
                    source = Some((z, area));
                }
            }
            if source.is_none() {
                let rects = self.windows[ai].layout.compute_rects(area);
                source = Self::first_hit_exec(&rects, sc, sr, &self.windows[ai], true);
            }
            assert(source == selection_source(app, sc, sr, term_cols, term_rows));
            if let Some((pane_id, rect)) = source {
                effects.push(Effect::CopySelection {
                    pane_id,
                    rect,
                    start_col: sc,
                    start_row: sr,
                    end_col: ec,
                    end_row: er,
                });
                proof {
                    assert(effect_views(effects@) =~= effect_views(old(effects)@) + spec_mouse_up(app, col, row, term_cols, term_rows).1);
                }
            }
        }
    }

    /// A notification from outside (see `spec_notify`).
    pub fn handle_notification(&mut self, window: Option<usize>, pane: Option<u32>)
        requires
            old(self)@.wf(),
        ensures
            final(self)@ == spec_notify(old(self)@, window, pane),
    {
        let ghost app = self@;
        match window {
            Some(win_num) => {
                let idx = win_num.saturating_sub(1);
                if idx < self.windows.len() {
                    proof {
                        assert(app.windows[idx as int] == self.windows@[idx as int]@);
                        assert(app.windows[idx as int].wf());
                    }
                    if let Some(pane_id) = pane {
                        match self.windows[idx].pane_index(pane_id) {
                            Some(i) => {
                                proof {
                                    lemma_set_notification(app.windows[idx as int], i as int, pane_id, true);
                                }
                                self.windows[idx].panes.set(i, PaneState { id: pane_id, has_notification: true });
                            },
                            None => {},
                        }
                    }
                    if idx != self.active_window_idx {
                        self.windows[idx].has_notification = true;
                    }
                    proof {
                        assert(self@.windows =~= app.windows.update(idx as int, self.windows@[idx as int]@));
                    }
                }
            },
            None => {
                let mut i: usize = 0;
                while i < self.windows.len()
                    invariant
                        i <= self.windows@.len(),
                        self.windows@.len() == app.windows.len(),
                        self.active_window_idx == app.active_window_idx,
                        self@ == (AppView { windows: self@.windows, ..app }),
                        forall|j: int| 0 <= j < self.windows@.len() ==> #[trigger] self@.windows[j] == if j < i && j != app.active_window_idx {
                            WindowView { has_notification: true, ..app.windows[j] }
                        } else {
                            app.windows[j]
                        },
                    decreases self.windows.len() - i,
                {
                    if i != self.active_window_idx {
                        let ghost pre = self.windows@;
                        let ghost prev_view = self@;
                        proof {
                            assert(self@.windows[i as int] == app.windows[i as int]);
                        }
                        self.windows[i].has_notification = true;
                        proof {
                            assert(self.windows@ == pre.update(i as int, self.windows@[i as int]));
                            assert forall|j: int| 0 <= j < self.windows@.len() implies #[trigger] self@.windows[j] == if j < i + 1 && j != app.active_window_idx {
                                WindowView { has_notification: true, ..app.windows[j] }
                            } else {
                                app.windows[j]
                            } by {
                                if j != i {
                                    assert(self.windows@[j] == pre[j]);
                                    assert(prev_view.windows[j] == if j < i && j != app.active_window_idx {
                                        WindowView { has_notification: true, ..app.windows[j] }
                                    } else {
                                        app.windows[j]
                                    });
                                    assert(self@.windows[j] == prev_view.windows[j]);
                                } else {
                                    assert(pre.map_values(|w: Window| w@)[j] == app.windows[j]);
                                    assert(pre[j]@ == app.windows[j]);
                                    assert(self@.windows[j] == self.windows@[j]@);
                                }
                            }
                        }
                    }
                    i = i + 1;
                }
                proof {
                    assert(self@.windows =~= spec_notify(app, window, pane).windows);
                }
            },
        }
    }

    /// Handles an event on a terminal of `cols` x `rows`: updates the state,
    /// appends the effects to perform to `effects`, and returns whether the
    /// application keeps running (see `spec_update`). The key handler's step
    /// is `key_step`.
    pub fn update(&mut self, event: AppEvent, term_cols: u16, term_rows: u16, effects: &mut Vec<Effect>) -> (r: bool)
        requires
            old(self)@.wf(),
            old(self)@.screen_ok(term_cols, term_rows),
            event matches AppEvent::Resize { cols, rows } ==> old(self)@.screen_ok(cols, rows),
            takes_new_pane(old(self)@, event) ==> old(self).next_pane_id < u32::MAX,
        ensures
            ({
                let (v, k, es) = spec_update(old(self)@, event, term_cols, term_rows);
                &&& final(self)@ == v
                &&& r == k
                &&& effect_views(final(effects)@) == effect_views(old(effects)@) + es
            }),
            r ==> final(self)@.wf(),
    {
        let ghost app = self@;
        let ghost ev = event;
        let n = self.windows.len();
        assert(n == app.windows.len());
        let r = self.update_inner(event, term_cols, term_rows, effects);
        proof {
            lemma_update_keeps_wf(app, ev, term_cols, term_rows);
        }
        r
    }

    fn update_inner(&mut self, event: AppEvent, term_cols: u16, term_rows: u16, effects: &mut Vec<Effect>) -> (r: bool)
        requires
            old(self)@.wf(),
            old(self)@.screen_ok(term_cols, term_rows),
            event matches AppEvent::Resize { cols, rows } ==> old(self)@.screen_ok(cols, rows),
            takes_new_pane(old(self)@, event) ==> old(self).next_pane_id < u32::MAX,
        ensures
            ({
                let (v, k, es) = spec_update(old(self)@, event, term_cols, term_rows);
                &&& final(self)@ == v
                &&& r == k
                &&& effect_views(final(effects)@) == effect_views(old(effects)@) + es
            }),
    {
        let ghost app = self@;
        proof {
            assert forall|i: int| 0 <= i < app.windows.len() implies {
                &&& (#[trigger] app.windows[i]).layout.ratios_valid()
                &&& app.windows[i].layout.height() + (if term_cols >= app.sidebar.width { term_cols } else { app.sidebar.width }) <= u16::MAX
                &&& app.windows[i].layout.height() + term_rows <= u16::MAX
            } by {
                assert(app.windows[i].wf());
            }
        }
        match event {
            AppEvent::PtyOutput { pane_id, data } => {
                let found = self.find_window_for_pane(pane_id);
                if found.is_some() {
                    let ghost before = effects@;
                    effects.push(Effect::FeedPane { pane_id, data });
                    proof {
                        assert(effect_views(effects@) =~= effect_views(before).push(EffectView::FeedPane { pane_id, data: data@ }));
                    }
                } else {
                    proof {
                        assert(effect_views(effects@) =~= effect_views(old(effects)@) + Seq::<EffectView>::empty());
                    }
                }
                true
            },
            AppEvent::PtyExit { pane_id } => {
                match self.find_window_for_pane(pane_id) {
                    None => {
                        proof {
                            assert(effect_views(effects@) =~= effect_views(old(effects)@) + Seq::<EffectView>::empty());
                        }
                        true
                    },
                    Some(wi) => {
                        proof {
                            assert(app.windows[wi as int].wf());
                        }
                        self.close_in_window(wi, pane_id, term_cols, term_rows, effects)
                    },
                }
            },
            AppEvent::Resize { cols, rows } => {
                proof {
                    let ai = app.active_window_idx as int;
                    assert(app.windows[ai].wf());
                    assert(app.windows[ai].layout.height() + 1 + (if cols >= app.sidebar.width { cols } else { app.sidebar.width }) <= u16::MAX);
                    lemma_fits_pane_area(app.active().layout, self.sidebar, cols, rows);
                }
                self.resize_active(cols, rows, effects);
                true
            },
            AppEvent::MouseClick { col, row } => {
                self.selection = None;
                self.handle_mouse_click(col, row, term_cols, term_rows, effects);
                true
            },
            AppEvent::MouseDrag { col, row } => {
                self.handle_mouse_drag(col, row);
                proof {
                    assert(effect_views(effects@) =~= effect_views(old(effects)@) + Seq::<EffectView>::empty());
                }
                true
            },
            AppEvent::MouseUp { col, row } => {
                self.handle_mouse_up(col, row, term_cols, term_rows, effects);
                true
            },
            AppEvent::ToastExpired => {
                self.toast = None;
                proof {
                    assert(effect_views(effects@) =~= effect_views(old(effects)@) + Seq::<EffectView>::empty());
                }
                true
            },
            AppEvent::ExternalNotification { window, pane, .. } => {
                self.handle_notification(window, pane);
                proof {
                    assert(effect_views(effects@) =~= effect_views(old(effects)@) + Seq::<EffectView>::empty());
                }
                true
            },
            AppEvent::KeyInput(key) => {
                let action = self.input_handler.handle_key_event(key);
                proof {
                    assert(self@ == (AppView { mode: spec_input(app, key).0, ..app }));
                    assert(command_of(action) == spec_input(app, key).1);
                }
                self.run_action(action, term_cols, term_rows, effects)
            },
        }
    }
}


proof fn lemma_with_window_wf(app: AppView, i: int, w: WindowView)
    requires
        app.wf(),
        0 <= i < app.windows.len(),
        w.wf(),
        forall|id: u32| w.has_pane(id) ==> app.windows[i].has_pane(id),
    ensures
        app.with_window(i, w).wf(),
{
    let a2 = app.with_window(i, w);
    assert forall|k: int| 0 <= k < a2.windows.len() implies (#[trigger] a2.windows[k]).wf() by {
        if k != i {
            assert(a2.windows[k] == app.windows[k]);
        }
    }
    assert forall|p: int, q: int, id: u32|
        0 <= p < a2.windows.len() && 0 <= q < a2.windows.len() && p != q
            && #[trigger] a2.windows[p].has_pane(id) implies !#[trigger] a2.windows[q].has_pane(id) by {
        if p == i {
            assert(app.windows[i].has_pane(id));
            assert(a2.windows[q] == app.windows[q]);
        } else if q == i {
            assert(a2.windows[p] == app.windows[p]);
            if w.has_pane(id) {
                assert(app.windows[i].has_pane(id));
            }
        } else {
            assert(a2.windows[p] == app.windows[p]);
            assert(a2.windows[q] == app.windows[q]);
        }
    }
    assert forall|k: int, id: u32| 0 <= k < a2.windows.len() && #[trigger] a2.windows[k].has_pane(id) implies id < a2.next_pane_id by {
        if k == i {
            assert(app.windows[i].has_pane(id));
        } else {
            assert(a2.windows[k] == app.windows[k]);
        }
    }
}

proof fn lemma_switch_to_wf(app: AppView, i: int)
    requires
        app.wf(),
        0 <= i < app.windows.len(),
    ensures
        switch_to(app, i).wf(),
{
    let w = app.windows[i];
    let w2 = WindowView { has_notification: false, ..w };
    lemma_same_panes_wf(w, w2);
    lemma_with_window_wf(app, i, w2);
}

proof fn lemma_same_panes_wf(w: WindowView, w2: WindowView)
    requires
        w.wf(),
        w2.pane_ids() == w.pane_ids(),
        w2.layout == w.layout,
        w.has_pane(w2.active_pane_id),
        w2.zoomed_pane_id matches Some(z) ==> w.has_pane(z),
    ensures
        w2.wf(),
        forall|id: u32| w2.has_pane(id) == w.has_pane(id),
{
    assert forall|id: u32| w2.has_pane(id) == w.has_pane(id) by {}
    assert forall|id: u32| w2.has_pane(id) <==> w2.layout.ids().contains(id) by {
        assert(w.has_pane(id) <==> w.layout.ids().contains(id));
    }
}

proof fn lemma_set_notification_ids(w: WindowView, id: u32, flag: bool)
    ensures
        (WindowView { panes: set_notification(w.panes, id, flag), ..w }).pane_ids() == w.pane_ids(),
{
    assert((WindowView { panes: set_notification(w.panes, id, flag), ..w }).pane_ids() =~= w.pane_ids());
}

proof fn lemma_remove_window_wf(app: AppView, idx: int, cols: u16, rows: u16)
    requires
        app.wf(),
        0 <= idx < app.windows.len(),
    ensures
        spec_remove_window(app, idx, cols, rows).1 ==> spec_remove_window(app, idx, cols, rows).0.wf(),
{
    let (a2, k, _) = spec_remove_window(app, idx, cols, rows);
    if k {
        let ws = a2.windows;
        assert(ws == app.windows.remove(idx));
        assert forall|p: int| 0 <= p < ws.len() implies (#[trigger] ws[p]).wf() by {
            let pp = if p < idx { p } else { p + 1 };
            assert(ws[p] == app.windows[pp]);
        }
        assert forall|p: int, q: int, id: u32|
            0 <= p < ws.len() && 0 <= q < ws.len() && p != q && #[trigger] ws[p].has_pane(id) implies !#[trigger] ws[q].has_pane(id) by {
            let pp = if p < idx { p } else { p + 1 };
            let qq = if q < idx { q } else { q + 1 };
            assert(ws[p] == app.windows[pp]);
            assert(ws[q] == app.windows[qq]);
        }
        assert forall|p: int, id: u32| 0 <= p < ws.len() && #[trigger] ws[p].has_pane(id) implies id < a2.next_pane_id by {
            let pp = if p < idx { p } else { p + 1 };
            assert(ws[p] == app.windows[pp]);
        }
    }
}

proof fn lemma_close_in_window_wf(app: AppView, wi: int, pane_id: u32, cols: u16, rows: u16)
    requires
        app.wf(),
        0 <= wi < app.windows.len(),
    ensures
        spec_close_in_window(app, wi, pane_id, cols, rows).1 ==> spec_close_in_window(app, wi, pane_id, cols, rows).0.wf(),
{
    let area = spec_pane_area(app.sidebar, cols, rows);
    let w = app.windows[wi];
    assert(w.wf());
    lemma_close_keeps_wf(w, pane_id, area);
    let (w1, keep, _) = close_result(w, pane_id, area);
    lemma_with_window_wf(app, wi, w1);
    if !keep {
        lemma_remove_window_wf(app.with_window(wi, w1), wi, cols, rows);
    }
}

/// Every event that the application survives leaves it consistent: at
/// least one window and a valid active one, consistent windows, no pane in
/// two windows, and fresh pane ids still above all ids in use.
pub proof fn lemma_update_keeps_wf(app: AppView, event: AppEvent, cols: u16, rows: u16)
    requires
        app.wf(),
        app.windows.len() <= usize::MAX,
        takes_new_pane(app, event) ==> app.next_pane_id < u32::MAX,
    ensures
        spec_update(app, event, cols, rows).1 ==> spec_update(app, event, cols, rows).0.wf(),
{
    let ai = app.active_window_idx as int;
    let w = app.active();
    assert(w.wf());
    let area = spec_pane_area(app.sidebar, cols, rows);
    match event {
        AppEvent::PtyExit { pane_id } => {
            if let Some(wi) = app.window_of(pane_id) {
                lemma_first_window_with(app.windows, pane_id);
                lemma_close_in_window_wf(app, wi, pane_id, cols, rows);
            }
        },
        AppEvent::MouseClick { col, row } => {
            let app0 = AppView { selection: None, ..app };
            assert(app0.wf());
            if col < app.sidebar.spec_effective_width() && row >= 2 && row - 2 < app.windows.len() {
                lemma_switch_to_wf(app0, row - 2);
            }
            if !(col < app.sidebar.spec_effective_width()) && w.zoomed_pane_id is None {
                let rects = w.layout.rects(area);
                if let Some((id, r)) = first_hit(rects, col, row) {
                    lemma_first_hit_member(rects, col, row);
                    lemma_rects_follow_ids(w.layout, area);
                    let k = choose|k: int| 0 <= k < rects.len() && rects[k] == (id, r);
                    assert(w.layout.ids()[k] == id);
                    assert(w.layout.ids().contains(id));
                    assert(w.has_pane(id) <==> w.layout.ids().contains(id));
                    let w2 = WindowView { active_pane_id: id, ..w };
                    lemma_same_panes_wf(w, w2);
                    lemma_with_window_wf(app0, ai, w2);
                }
            }
        },
        AppEvent::ExternalNotification { window, pane, .. } => {
            match window {
                Some(n) => {
                    let idx = sat_sub(n as int, 1);
                    if idx < app.windows.len() {
                        let wn = app.windows[idx];
                        assert(wn.wf());
                        let w1 = match pane {
                            Some(p) => if wn.has_pane(p) { WindowView { panes: set_notification(wn.panes, p, true), ..wn } } else { wn },
                            None => wn,
                        };
                        if let Some(p) = pane {
                            lemma_set_notification_ids(wn, p, true);
                        }
                        assert(w1.pane_ids() == wn.pane_ids());
                        let w2 = if idx != app.active_window_idx { WindowView { has_notification: true, ..w1 } } else { w1 };
                        assert(w2.pane_ids() == wn.pane_ids());
                        assert forall|id: u32| w2.has_pane(id) == wn.has_pane(id) by {}
                        assert forall|id: u32| w2.has_pane(id) <==> w2.layout.ids().contains(id) by {
                            assert(wn.has_pane(id) <==> wn.layout.ids().contains(id));
                        }
                        if let Some(z) = w2.zoomed_pane_id {
                            assert(wn.has_pane(z));
                        }
                        assert(w2.has_pane(w2.active_pane_id)) by {
                            assert(wn.has_pane(wn.active_pane_id));
                        }
                        assert(w2.wf());
                        lemma_with_window_wf(app, idx, w2);
                    }
                },
                None => {
                    let a2 = spec_notify(app, window, pane);
                    assert forall|i: int| 0 <= i < a2.windows.len() implies #[trigger] a2.windows[i].pane_ids() == app.windows[i].pane_ids()
                        && a2.windows[i].layout == app.windows[i].layout
                        && a2.windows[i].active_pane_id == app.windows[i].active_pane_id
                        && a2.windows[i].zoomed_pane_id == app.windows[i].zoomed_pane_id by {
                    }
                    assert forall|i: int, id: u32| 0 <= i < a2.windows.len() implies #[trigger] a2.windows[i].has_pane(id) == app.windows[i].has_pane(id) by {
                        assert(a2.windows[i].pane_ids() == app.windows[i].pane_ids());
                    }
                    assert forall|i: int| 0 <= i < a2.windows.len() implies (#[trigger] a2.windows[i]).wf() by {
                        assert(app.windows[i].wf());
                        assert(a2.windows[i].pane_ids() == app.windows[i].pane_ids());
                        assert forall|id: u32| a2.windows[i].has_pane(id) == app.windows[i].has_pane(id) by {}
                    }
                },
            }
        },
        AppEvent::KeyInput(key) => {
            let (mode, cmd) = spec_input(app, key);
            let app1 = AppView { mode, ..app };
            assert(app1.wf());
            match cmd {
                Command::Forward(data) => {
                    let a = w.active_pane_id;
                    let w1 = if w.has_pane(a) { WindowView { panes: set_notification(w.panes, a, false), ..w } } else { w };
                    lemma_set_notification_ids(w, a, false);
                    assert(w1.pane_ids() == w.pane_ids());
                    let w2 = if any_notification(w1.panes) { w1 } else { WindowView { has_notification: false, ..w1 } };
                    assert(w2.pane_ids() == w.pane_ids());
                    assert forall|id: u32| w2.has_pane(id) == w.has_pane(id) by {}
                    assert forall|id: u32| w2.has_pane(id) <==> w2.layout.ids().contains(id) by {
                        assert(w.has_pane(id) <==> w.layout.ids().contains(id));
                    }
                    if let Some(z) = w2.zoomed_pane_id {
                        assert(w.has_pane(z));
                    }
                    assert(w2.wf());
                    lemma_with_window_wf(app1, ai, w2);
                },
                Command::Split(dir) => {
                    let id = app.next_pane_id;
                    let w1 = WindowView { zoomed_pane_id: None, ..w };
                    lemma_same_panes_wf(w, w1);
                    assert(!w1.has_pane(id));
                    lemma_split_keeps_wf(w1, dir, id);
                    let w2 = after_split(w1, dir, id);
                    let a2 = AppView { next_pane_id: (id + 1) as u32, ..app1.with_window(ai, w2) };
                    assert(spec_command(app1, cmd, cols, rows).0 == a2);
                    assert forall|k: int| 0 <= k < a2.windows.len() implies (#[trigger] a2.windows[k]).wf() by {
                        if k != ai {
                            assert(a2.windows[k] == app.windows[k]);
                        }
                    }
                    assert forall|p: int, q: int, pid: u32|
                        0 <= p < a2.windows.len() && 0 <= q < a2.windows.len() && p != q
                            && #[trigger] a2.windows[p].has_pane(pid) implies !#[trigger] a2.windows[q].has_pane(pid) by {
                        if p == ai {
                            assert(a2.windows[q] == app.windows[q]);
                            if pid == id {
                                if app.windows[q].has_pane(pid) {
                                    assert(pid < app.next_pane_id);
                                }
                            } else {
                                assert(app.windows[ai].has_pane(pid));
                            }
                        } else if q == ai {
                            assert(a2.windows[p] == app.windows[p]);
                            assert(pid < app.next_pane_id);
                            if a2.windows[q].has_pane(pid) {
                                assert(app.windows[ai].has_pane(pid));
                            }
                        } else {
                            assert(a2.windows[p] == app.windows[p]);
                            assert(a2.windows[q] == app.windows[q]);
                        }
                    }
                    assert forall|k: int, pid: u32| 0 <= k < a2.windows.len() && #[trigger] a2.windows[k].has_pane(pid) implies pid < a2.next_pane_id by {
                        if k == ai {
                            if pid != id {
                                assert(app.windows[ai].has_pane(pid));
                            }
                        } else {
                            assert(a2.windows[k] == app.windows[k]);
                        }
                    }
                },
                Command::Focus(dir) => {
                    lemma_focus_target_in_window(w, dir, area);
                    let w2 = WindowView { active_pane_id: focus_target(w, dir, area), ..w };
                    lemma_same_panes_wf(w, w2);
                    lemma_with_window_wf(app1, ai, w2);
                },
                Command::Resize(dir) => {
                    lemma_resize_keeps_wf(w, dir, area);
                    if let Some(w2) = resize_step(w, dir, area) {
                        assert forall|id: u32| w2.has_pane(id) implies app1.windows[ai].has_pane(id) by {
                            assert(w2.pane_ids() == w.pane_ids());
                        }
                        lemma_with_window_wf(app1, ai, w2);
                    }
                },
                Command::ClosePane => {
                    lemma_close_in_window_wf(app1, ai, w.active_pane_id, cols, rows);
                },
                Command::NewWindow => {
                    let id = app.next_pane_id;
                    let idx = app.windows.len() as usize;
                    assert(idx == app.windows.len());
                    let nw = new_window_view(id, idx);
                    let a2 = spec_command(app1, cmd, cols, rows).0;
                    assert(nw.pane_ids() =~= seq![id]);
                    assert(nw.layout.ids() =~= seq![id]);
                    assert forall|pid: u32| nw.has_pane(pid) <==> pid == id by {
                        if nw.has_pane(pid) {
                            assert(nw.pane_ids()[0] == pid);
                        }
                        if pid == id {
                            assert(nw.pane_ids()[0] == id);
                        }
                    }
                    assert forall|pid: u32| nw.has_pane(pid) <==> nw.layout.ids().contains(pid) by {
                        if nw.layout.ids().contains(pid) {
                            assert(nw.layout.ids()[0] == pid);
                        }
                        if pid == id {
                            assert(nw.layout.ids()[0] == id);
                        }
                    }
                    assert(nw.wf());
                    assert forall|k: int| 0 <= k < a2.windows.len() implies (#[trigger] a2.windows[k]).wf() by {
                        if k < app.windows.len() {
                            assert(a2.windows[k] == app.windows[k]);
                        }
                    }
                    assert forall|p: int, q: int, pid: u32|
                        0 <= p < a2.windows.len() && 0 <= q < a2.windows.len() && p != q
                            && #[trigger] a2.windows[p].has_pane(pid) implies !#[trigger] a2.windows[q].has_pane(pid) by {
                        if p == idx {
                            assert(a2.windows[q] == app.windows[q]);
                            if app.windows[q].has_pane(pid) {
                                assert(pid < app.next_pane_id);
                            }
                        } else if q == idx {
                            assert(a2.windows[p] == app.windows[p]);
                            assert(pid < app.next_pane_id);
                        } else {
                            assert(a2.windows[p] == app.windows[p]);
                            assert(a2.windows[q] == app.windows[q]);
                        }
                    }
                    assert forall|k: int, pid: u32| 0 <= k < a2.windows.len() && #[trigger] a2.windows[k].has_pane(pid) implies pid < a2.next_pane_id by {
                        if k < app.windows.len() {
                            assert(a2.windows[k] == app.windows[k]);
                        }
                    }
                },
                Command::SwitchWindow(i) => {
                    if i < app.windows.len() {
                        lemma_switch_to_wf(app1, i as int);
                    }
                },
                Command::ToggleZoom => {
                    if w.zoomed_pane_id is Some {
                        let w2 = WindowView { zoomed_pane_id: None, ..w };
                        lemma_same_panes_wf(w, w2);
                        lemma_with_window_wf(app1, ai, w2);
                    } else {
                        let w2 = WindowView { zoomed_pane_id: Some(w.active_pane_id), ..w };
                        lemma_same_panes_wf(w, w2);
                        lemma_with_window_wf(app1, ai, w2);
                    }
                },
                _ => {},
            }
        },
        _ => {},
    }
}

proof fn lemma_first_hit_member(rects: Seq<(u32, Rect)>, col: u16, row: u16)
    ensures
        first_hit(rects, col, row) matches Some(p) ==> exists|k: int| 0 <= k < rects.len() && rects[k] == p,
    decreases rects.len(),
{
    if rects.len() > 0 {
        lemma_first_hit_member(rects.drop_first(), col, row);
        if !point_in(rects[0].1, col, row) {
            if let Some(p) = first_hit(rects, col, row) {
                let k = choose|k: int| 0 <= k < rects.drop_first().len() && rects.drop_first()[k] == p;
                assert(rects[k + 1] == p);
            }
        } else {
            assert(rects[0] == first_hit(rects, col, row).unwrap());
        }
    }
}

impl App {
    /// The text of a selection has been taken from its pane: when there is
    /// any, it goes to the clipboard and a "Copied!" toast is shown until the
    /// timer runs out.
    pub fn finish_copy(&mut self, text: String, effects: &mut Vec<Effect>)
        ensures
            text@.len() > 0 ==> {
                &&& final(self)@ == (AppView { toast: Some("Copied!"@), ..old(self)@ })
                &&& effect_views(final(effects)@) == effect_views(old(effects)@) + seq![
                    EffectView::CopyToClipboard { text: text@ },
                    EffectView::StartToastTimer,
                ]
            },
            text@.len() == 0 ==> final(self)@ == old(self)@ && final(effects)@ == old(effects)@,
    {
        if !text.as_str().is_empty() {
            let ghost t = text@;
            effects.push(Effect::CopyToClipboard { text });
            effects.push(Effect::StartToastTimer);
            self.toast = Some(String::from_str("Copied!"));
            proof {
                assert(effect_views(final(effects)@) =~= effect_views(old(effects)@) + seq![
                    EffectView::CopyToClipboard { text: t },
                    EffectView::StartToastTimer,
                ]);
            }
        }
    }

    /// Whether every window's layout, even split once more, fits on a
    /// terminal of `cols` x `rows` (see `screen_ok`).
    pub fn screen_fits(&self, term_cols: u16, term_rows: u16) -> (r: bool)
        ensures
            r == self@.screen_ok(term_cols, term_rows),
    {
        let wide: u64 = if term_cols >= self.sidebar.width { term_cols as u64 } else { self.sidebar.width as u64 };
        let mut i: usize = 0;
        while i < self.windows.len()
            invariant
                i <= self.windows@.len(),
                wide == (if term_cols >= self.sidebar.width { term_cols } else { self.sidebar.width }),
                forall|j: int| 0 <= j < i ==> {
                    &&& (#[trigger] self@.windows[j]).layout.height() + 1 + wide <= u16::MAX
                    &&& self@.windows[j].layout.height() + 1 + term_rows <= u16::MAX
                },
            decreases self.windows.len() - i,
        {
            proof {
                assert(self@.windows[i as int] == self.windows@[i as int]@);
            }
            if !self.windows[i].layout.height_at_most(65534) {
                return false;
            }
            let h = self.windows[i].layout.tree_height();
            if h + 1 + wide > 65535 || h + 1 + (term_rows as u64) > 65535 {
                return false;
            }
            i = i + 1;
        }
        true
    }

    /// Whether the event will make the application hand out a new pane id
    /// (see `takes_new_pane`).
    pub fn event_takes_new_pane(&self, event: &AppEvent) -> (r: bool)
        ensures
            r == takes_new_pane(self@, *event),
    {
        match event {
            AppEvent::KeyInput(key) => {
                if self.input_handler.mode == InputMode::Prefix {
                    match self.input_handler.prefix_action(*key) {
                        Action::SplitVertical => true,
                        Action::SplitHorizontal => true,
                        Action::NewWindow => true,
                        _ => false,
                    }
                } else {
                    false
                }
            },
            _ => false,
        }
    }
}

} // verus!
