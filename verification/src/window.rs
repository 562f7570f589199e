//! Windows: a layout of panes with one of them active, and the effects on
//! the pane programs that their operations ask for.
use vstd::prelude::*;

use crate::layout::{
    axis_len, lemma_stepped_ratio, spec_first_len, spec_split_rect, stepped_ratio,
    first_index, lemma_first_index, lemma_fits_when_bounded, lemma_rects_follow_ids, lemma_resize_preserves,
    lemma_split_preserves, lemma_remove_preserves, lemma_rects_in_range, LayoutNode, Rect, Split,
};

verus! {

/// What a pane looks like to the window logic: its id and whether an
/// outside notification is pending for it.
#[derive(Debug, Clone, Copy, PartialEq, Eq, Structural)]
pub struct PaneState {
    pub id: u32,
    pub has_notification: bool,
}

/// Work on the pane programs and the terminal that the logic asks for; the
/// caller performs it in order.
#[derive(Debug)]
pub enum Effect {
    /// Start a shell in a new pseudo-terminal of the given size.
    SpawnPane { pane_id: u32, window_index: usize, cols: u16, rows: u16 },
    /// Resize a pane's pseudo-terminal and screen.
    ResizePane { pane_id: u32, cols: u16, rows: u16 },
    /// Send bytes to a pane's program.
    WriteToPane { pane_id: u32, data: Vec<u8> },
    /// Feed output of a pane's program to its screen.
    FeedPane { pane_id: u32, data: Vec<u8> },
    /// Close a pane's pseudo-terminal and forget the pane.
    DropPane { pane_id: u32 },
    /// Take the text between two screen positions from a pane that is shown
    /// in `rect`, and hand it back to the application.
    CopySelection { pane_id: u32, rect: Rect, start_col: u16, start_row: u16, end_col: u16, end_row: u16 },
    /// Put text on the system clipboard.
    CopyToClipboard { text: String },
    /// Report `ToastExpired` in a second.
    StartToastTimer,
}

/// An effect with its data as sequences.
pub enum EffectView {
    SpawnPane { pane_id: u32, window_index: usize, cols: u16, rows: u16 },
    ResizePane { pane_id: u32, cols: u16, rows: u16 },
    WriteToPane { pane_id: u32, data: Seq<u8> },
    FeedPane { pane_id: u32, data: Seq<u8> },
    DropPane { pane_id: u32 },
    CopySelection { pane_id: u32, rect: Rect, start_col: u16, start_row: u16, end_col: u16, end_row: u16 },
    CopyToClipboard { text: Seq<char> },
    StartToastTimer,
}

impl View for Effect {
    type V = EffectView;

    open spec fn view(&self) -> EffectView {
        match *self {
            Effect::SpawnPane { pane_id, window_index, cols, rows } => EffectView::SpawnPane {
                pane_id,
                window_index,
                cols,
                rows,
            },
            Effect::ResizePane { pane_id, cols, rows } => EffectView::ResizePane { pane_id, cols, rows },
            Effect::WriteToPane { pane_id, data } => EffectView::WriteToPane { pane_id, data: data@ },
            Effect::FeedPane { pane_id, data } => EffectView::FeedPane { pane_id, data: data@ },
            Effect::DropPane { pane_id } => EffectView::DropPane { pane_id },
            Effect::CopySelection { pane_id, rect, start_col, start_row, end_col, end_row } =>
                EffectView::CopySelection { pane_id, rect, start_col, start_row, end_col, end_row },
            Effect::CopyToClipboard { text } => EffectView::CopyToClipboard { text: text@ },
            Effect::StartToastTimer => EffectView::StartToastTimer,
        }
    }
}

/// The effects of a list, as views.
pub open spec fn effect_views(es: Seq<Effect>) -> Seq<EffectView> {
    es.map_values(|e: Effect| e@)
}

/// A direction to move the focus in.
#[derive(Debug, Clone, Copy, PartialEq, Eq, Structural)]
pub enum Direction {
    Up,
    Down,
    Left,
    Right,
}

/// A window: its panes, how they are laid out, which one has the focus and
/// which one (if any) is zoomed to fill the whole pane area.
#[derive(Debug)]
pub struct Window {
    pub panes: Vec<PaneState>,
    pub layout: LayoutNode,
    pub active_pane_id: u32,
    pub zoomed_pane_id: Option<u32>,
    pub has_notification: bool,
    pub window_index: usize,
}

/// A window with its panes as a sequence.
pub struct WindowView {
    pub panes: Seq<PaneState>,
    pub layout: LayoutNode,
    pub active_pane_id: u32,
    pub zoomed_pane_id: Option<u32>,
    pub has_notification: bool,
    pub window_index: usize,
}

impl View for Window {
    type V = WindowView;

    open spec fn view(&self) -> WindowView {
        WindowView {
            panes: self.panes@,
            layout: self.layout,
            active_pane_id: self.active_pane_id,
            zoomed_pane_id: self.zoomed_pane_id,
            has_notification: self.has_notification,
            window_index: self.window_index,
        }
    }
}

impl WindowView {
    /// The ids of the panes, in the order they are kept.
    pub open spec fn pane_ids(self) -> Seq<u32> {
        self.panes.map_values(|p: PaneState| p.id)
    }

    /// Whether the window has a pane with this id.
    pub open spec fn has_pane(self, id: u32) -> bool {
        self.pane_ids().contains(id)
    }

    /// The window is consistent: pane ids are distinct and are exactly the
    /// panes of the layout, the layout's ratios are valid, and the active
    /// pane and the zoomed pane (if any) belong to the window.
    pub open spec fn wf(self) -> bool {
        &&& self.pane_ids().no_duplicates()
        &&& self.layout.ids().no_duplicates()
        &&& forall|id: u32| self.has_pane(id) <==> self.layout.ids().contains(id)
        &&& self.layout.ratios_valid()
        &&& self.has_pane(self.active_pane_id)
        &&& (self.zoomed_pane_id matches Some(z) ==> self.has_pane(z))
    }
}

/// The resizes asked for when the panes are given the areas `rects`: one
/// per pane of the window whose area has cells, in order.
pub open spec fn resize_effects(w: WindowView, rects: Seq<(u32, Rect)>) -> Seq<EffectView>
    decreases rects.len(),
{
    if rects.len() == 0 {
        seq![]
    } else {
        let prev = resize_effects(w, rects.drop_last());
        let (id, r) = rects.last();
        if w.has_pane(id) && r.width > 0 && r.height > 0 {
            prev.push(EffectView::ResizePane { pane_id: id, cols: r.width, rows: r.height })
        } else {
            prev
        }
    }
}

/// Whether `area` stays in the `u16` coordinate range.
pub open spec fn area_in_range(area: Rect) -> bool {
    area.x + area.width <= u16::MAX && area.y + area.height <= u16::MAX
}

/// The area of the first pane `id` among `rects`.
pub open spec fn rect_of(rects: Seq<(u32, Rect)>, id: u32) -> Option<Rect>
    decreases rects.len(),
{
    if rects.len() == 0 {
        None
    } else if rects[0].0 == id {
        Some(rects[0].1)
    } else {
        rect_of(rects.drop_first(), id)
    }
}

/// The layout after the active pane has been split with a new pane `new_id`.
pub open spec fn split_layout(w: WindowView, direction: Split, new_id: u32) -> LayoutNode {
    match w.layout.spec_split_pane(w.active_pane_id, new_id, direction) {
        Some(l) => l,
        None => w.layout,
    }
}

/// The window after its active pane has been split: the new pane `new_id`
/// joins the panes and becomes active.
pub open spec fn after_split(w: WindowView, direction: Split, new_id: u32) -> WindowView {
    WindowView {
        panes: w.panes.push(PaneState { id: new_id, has_notification: false }),
        layout: split_layout(w, direction, new_id),
        active_pane_id: new_id,
        ..w
    }
}

/// The size a new pane is started with: its area in the new layout.
pub open spec fn spawn_rect(rects: Seq<(u32, Rect)>, new_id: u32) -> Rect {
    match rect_of(rects, new_id) {
        Some(r) => r,
        None => Rect { x: 0, y: 0, width: 80, height: 24 },
    }
}

/// The panes without the pane `id` (unchanged when there is none).
pub open spec fn remove_pane_state(w: WindowView, id: u32) -> Seq<PaneState> {
    if w.has_pane(id) {
        w.panes.remove(first_index(w.pane_ids(), id))
    } else {
        w.panes
    }
}

/// The layout after `pane_id` has been closed, when the window keeps panes.
pub open spec fn close_layout_fits(w: WindowView, pane_id: u32, area: Rect) -> bool {
    match w.layout.spec_remove_pane(pane_id) {
        Some((l, _)) => l.fits(area),
        None => true,
    }
}

/// Closing `pane_id`: the zoom ends if that pane was zoomed. A window with
/// a single pane is left as it is and reports `false` (the caller closes
/// the window). Otherwise the pane leaves the layout and the panes, the
/// focus moves to the first pane of the subtree that took its place if it
/// was active, the pane is dropped and the others are resized; `true`.
pub open spec fn close_result(w: WindowView, pane_id: u32, area: Rect) -> (WindowView, bool, Seq<EffectView>) {
    let w1 = WindowView {
        zoomed_pane_id: if w.zoomed_pane_id == Some(pane_id) { None } else { w.zoomed_pane_id },
        ..w
    };
    if w.panes.len() <= 1 {
        (w1, false, seq![])
    } else {
        match w.layout.spec_remove_pane(pane_id) {
            Some((l, remaining)) => {
                let w2 = WindowView {
                    panes: remove_pane_state(w, pane_id),
                    layout: l,
                    active_pane_id: if w.active_pane_id == pane_id { remaining } else { w.active_pane_id },
                    ..w1
                };
                let dropped = if w.has_pane(pane_id) {
                    seq![EffectView::DropPane { pane_id }]
                } else {
                    seq![]
                };
                (w2, true, dropped + resize_effects(w2, l.rects(area)))
            },
            None => (w1, true, seq![]),
        }
    }
}

/// How far the pane area `r` is from the active pane area `a` in `dir`,
/// when it lies entirely on that side and overlaps `a` across it.
pub open spec fn focus_distance(dir: Direction, a: Rect, r: Rect) -> Option<int> {
    let h_overlap = r.x < a.x + a.width && r.x + r.width > a.x;
    let v_overlap = r.y < a.y + a.height && r.y + r.height > a.y;
    match dir {
        Direction::Up => if h_overlap && r.y + r.height <= a.y {
            Some(a.y - (r.y + r.height))
        } else {
            None
        },
        Direction::Down => if h_overlap && r.y >= a.y + a.height {
            Some(r.y - (a.y + a.height))
        } else {
            None
        },
        Direction::Left => if v_overlap && r.x + r.width <= a.x {
            Some(a.x - (r.x + r.width))
        } else {
            None
        },
        Direction::Right => if v_overlap && r.x >= a.x + a.width {
            Some(r.x - (a.x + a.width))
        } else {
            None
        },
    }
}

/// The nearest pane other than `active_id` in `dir`, with its distance; the
/// first in order among equally near ones.
pub open spec fn best_focus(rects: Seq<(u32, Rect)>, active_id: u32, a: Rect, dir: Direction) -> Option<(u32, int)>
    decreases rects.len(),
{
    if rects.len() == 0 {
        None
    } else {
        let prev = best_focus(rects.drop_last(), active_id, a, dir);
        let (id, r) = rects.last();
        if id == active_id {
            prev
        } else {
            match focus_distance(dir, a, r) {
                Some(d) => match prev {
                    Some((_, bd)) => if d < bd { Some((id, d)) } else { prev },
                    None => Some((id, d)),
                },
                None => prev,
            }
        }
    }
}

/// The pane that gets the focus when it moves in `dir`: the nearest pane in
/// that direction, or the active pane when there is none or a pane is zoomed.
pub open spec fn focus_target(w: WindowView, dir: Direction, area: Rect) -> u32 {
    let rects = w.layout.rects(area);
    if w.zoomed_pane_id is Some {
        w.active_pane_id
    } else {
        match rect_of(rects, w.active_pane_id) {
            None => w.active_pane_id,
            Some(a) => match best_focus(rects, w.active_pane_id, a, dir) {
                Some((id, _)) => id,
                None => w.active_pane_id,
            },
        }
    }
}

proof fn lemma_best_focus_member(rects: Seq<(u32, Rect)>, active_id: u32, a: Rect, dir: Direction)
    ensures
        best_focus(rects, active_id, a, dir) matches Some((id, _)) ==> exists|i: int| 0 <= i < rects.len() && rects[i].0 == id,
    decreases rects.len(),
{
    if rects.len() > 0 {
        lemma_best_focus_member(rects.drop_last(), active_id, a, dir);
        if let Some((id, _)) = best_focus(rects, active_id, a, dir) {
            if id == rects.last().0 {
                assert(rects[rects.len() - 1].0 == id);
            } else {
                let i = choose|i: int| 0 <= i < rects.drop_last().len() && rects.drop_last()[i].0 == id;
                assert(rects[i].0 == id);
            }
        }
    }
}

/// Whether the `k`-th entry of `rects` is a pane other than `active_id`
/// that lies in `dir` of the active pane's area `a`.
pub open spec fn focus_candidate(rects: Seq<(u32, Rect)>, active_id: u32, a: Rect, dir: Direction, k: int) -> bool {
    0 <= k < rects.len() && rects[k].0 != active_id && focus_distance(dir, a, rects[k].1) is Some
}

/// The nearest pane in `dir` is a candidate at the least distance, the
/// first in order among equally near ones; there is none only when no
/// entry is a candidate.
pub proof fn lemma_best_focus_law(rects: Seq<(u32, Rect)>, active_id: u32, a: Rect, dir: Direction)
    ensures
        best_focus(rects, active_id, a, dir) is None <==> !exists|k: int| #[trigger] focus_candidate(rects, active_id, a, dir, k),
        best_focus(rects, active_id, a, dir) matches Some((id, d)) ==> exists|k: int|
            {
                &&& #[trigger] focus_candidate(rects, active_id, a, dir, k)
                &&& rects[k].0 == id
                &&& focus_distance(dir, a, rects[k].1) == Some(d)
                &&& forall|j: int| #[trigger] focus_candidate(rects, active_id, a, dir, j) ==> focus_distance(dir, a, rects[j].1)->0 >= d
                &&& forall|j: int| 0 <= j < k && #[trigger] focus_candidate(rects, active_id, a, dir, j) ==> focus_distance(dir, a, rects[j].1)->0 > d
            },
    decreases rects.len(),
{
    if rects.len() == 0 {
        return;
    }
    let n = rects.len() - 1;
    let p = rects.drop_last();
    lemma_best_focus_law(p, active_id, a, dir);
    assert forall|j: int| 0 <= j < n implies #[trigger] focus_candidate(rects, active_id, a, dir, j) == focus_candidate(p, active_id, a, dir, j) by {
        assert(p[j] == rects[j]);
    }
    let last_cand = focus_candidate(rects, active_id, a, dir, n);
    assert(rects.last() == rects[n]);
    let prev = best_focus(p, active_id, a, dir);
    if !last_cand {
        assert forall|j: int| #[trigger] focus_candidate(rects, active_id, a, dir, j) implies j < n && focus_candidate(p, active_id, a, dir, j) by {}
        if let Some((id, d)) = prev {
            let k = choose|k: int|
                {
                    &&& #[trigger] focus_candidate(p, active_id, a, dir, k)
                    &&& p[k].0 == id
                    &&& focus_distance(dir, a, p[k].1) == Some(d)
                    &&& forall|j: int| #[trigger] focus_candidate(p, active_id, a, dir, j) ==> focus_distance(dir, a, p[j].1)->0 >= d
                    &&& forall|j: int| 0 <= j < k && #[trigger] focus_candidate(p, active_id, a, dir, j) ==> focus_distance(dir, a, p[j].1)->0 > d
                };
            assert(focus_candidate(rects, active_id, a, dir, k));
            assert(rects[k] == p[k]);
            assert forall|j: int| #[trigger] focus_candidate(rects, active_id, a, dir, j) implies focus_distance(dir, a, rects[j].1)->0 >= d by {
                assert(focus_candidate(p, active_id, a, dir, j));
                assert(p[j] == rects[j]);
            }
            assert forall|j: int| 0 <= j < k && #[trigger] focus_candidate(rects, active_id, a, dir, j) implies focus_distance(dir, a, rects[j].1)->0 > d by {
                assert(focus_candidate(p, active_id, a, dir, j));
                assert(p[j] == rects[j]);
            }
        } else {
            if exists|k: int| #[trigger] focus_candidate(rects, active_id, a, dir, k) {
                let k = choose|k: int| #[trigger] focus_candidate(rects, active_id, a, dir, k);
                assert(focus_candidate(p, active_id, a, dir, k));
            }
        }
    } else {
        let dl = focus_distance(dir, a, rects[n].1)->0;
        assert(focus_candidate(rects, active_id, a, dir, n));
        match prev {
            None => {
                assert forall|j: int| #[trigger] focus_candidate(rects, active_id, a, dir, j) implies j == n by {
                    if j < n {
                        assert(focus_candidate(p, active_id, a, dir, j));
                    }
                }
            },
            Some((pid, bd)) => {
                let k = choose|k: int|
                    {
                        &&& #[trigger] focus_candidate(p, active_id, a, dir, k)
                        &&& p[k].0 == pid
                        &&& focus_distance(dir, a, p[k].1) == Some(bd)
                        &&& forall|j: int| #[trigger] focus_candidate(p, active_id, a, dir, j) ==> focus_distance(dir, a, p[j].1)->0 >= bd
                        &&& forall|j: int| 0 <= j < k && #[trigger] focus_candidate(p, active_id, a, dir, j) ==> focus_distance(dir, a, p[j].1)->0 > bd
                    };
                assert(rects[k] == p[k]);
                assert(focus_candidate(rects, active_id, a, dir, k));
                if dl < bd {
                    assert forall|j: int| #[trigger] focus_candidate(rects, active_id, a, dir, j) implies focus_distance(dir, a, rects[j].1)->0 >= dl by {
                        if j < n {
                            assert(focus_candidate(p, active_id, a, dir, j));
                            assert(p[j] == rects[j]);
                        }
                    }
                    assert forall|j: int| 0 <= j < n && #[trigger] focus_candidate(rects, active_id, a, dir, j) implies focus_distance(dir, a, rects[j].1)->0 > dl by {
                        assert(focus_candidate(p, active_id, a, dir, j));
                        assert(p[j] == rects[j]);
                    }
                } else {
                    assert forall|j: int| #[trigger] focus_candidate(rects, active_id, a, dir, j) implies focus_distance(dir, a, rects[j].1)->0 >= bd by {
                        if j < n {
                            assert(focus_candidate(p, active_id, a, dir, j));
                            assert(p[j] == rects[j]);
                        }
                    }
                    assert forall|j: int| 0 <= j < k && #[trigger] focus_candidate(rects, active_id, a, dir, j) implies focus_distance(dir, a, rects[j].1)->0 > bd by {
                        assert(focus_candidate(p, active_id, a, dir, j));
                        assert(p[j] == rects[j]);
                    }
                }
            },
        }
    }
}

/// Moving the focus in `dir`: with a pane zoomed, or when the active pane
/// has no area, the focus stays; otherwise it goes to the pane at the least
/// distance among those lying in `dir` of the active pane and overlapping
/// it across `dir`, the first in layout order among equally near ones, and
/// stays when there is none.
pub proof fn lemma_move_focus_law(w: WindowView, dir: Direction, area: Rect)
    ensures
        ({
            let rects = w.layout.rects(area);
            let t = focus_target(w, dir, area);
            let act = w.active_pane_id;
            &&& w.zoomed_pane_id is Some ==> t == act
            &&& rect_of(rects, act) is None ==> t == act
            &&& w.zoomed_pane_id is None ==> (rect_of(rects, act) matches Some(a) ==> {
                &&& (!exists|k: int| #[trigger] focus_candidate(rects, act, a, dir, k)) ==> t == act
                &&& (exists|k: int| #[trigger] focus_candidate(rects, act, a, dir, k)) ==> exists|k: int|
                    {
                        &&& #[trigger] focus_candidate(rects, act, a, dir, k)
                        &&& rects[k].0 == t
                        &&& forall|j: int| #[trigger] focus_candidate(rects, act, a, dir, j)
                            ==> focus_distance(dir, a, rects[j].1)->0 >= focus_distance(dir, a, rects[k].1)->0
                        &&& forall|j: int| 0 <= j < k && #[trigger] focus_candidate(rects, act, a, dir, j)
                            ==> focus_distance(dir, a, rects[j].1)->0 > focus_distance(dir, a, rects[k].1)->0
                    }
            })
        }),
{
    let rects = w.layout.rects(area);
    if let Some(a) = rect_of(rects, w.active_pane_id) {
        lemma_best_focus_law(rects, w.active_pane_id, a, dir);
    }
}

/// Moving the focus, in plain geometry: unless a pane is zoomed or the
/// active pane (area `a`) has no area, a pane qualifies in `dir` when it is
/// another pane lying wholly on that side of `a` and sharing at least one
/// line with `a` across that side (a column for up and down, a row for left
/// and right); its gap is the number of lines between it and `a`. When some
/// pane qualifies, the focus goes to a qualifying pane with the least gap,
/// the first in layout order among equally near ones; when none does, the
/// focus stays.
pub proof fn lemma_move_focus_geometry(w: WindowView, dir: Direction, area: Rect)
    ensures
        ({
            let rects = w.layout.rects(area);
            let act = w.active_pane_id;
            let t = focus_target(w, dir, area);
            w.zoomed_pane_id is None ==> (rect_of(rects, act) matches Some(a) ==> {
                let qualifies = |r: Rect|
                    match dir {
                        Direction::Up => r.x < a.x + a.width && r.x + r.width > a.x && r.y + r.height <= a.y,
                        Direction::Down => r.x < a.x + a.width && r.x + r.width > a.x && r.y >= a.y + a.height,
                        Direction::Left => r.y < a.y + a.height && r.y + r.height > a.y && r.x + r.width <= a.x,
                        Direction::Right => r.y < a.y + a.height && r.y + r.height > a.y && r.x >= a.x + a.width,
                    };
                let gap = |r: Rect|
                    match dir {
                        Direction::Up => a.y - (r.y + r.height),
                        Direction::Down => r.y - (a.y + a.height),
                        Direction::Left => a.x - (r.x + r.width),
                        Direction::Right => r.x - (a.x + a.width),
                    };
                &&& (forall|k: int| 0 <= k < rects.len() && rects[k].0 != act ==> !qualifies(#[trigger] rects[k].1))
                    ==> t == act
                &&& (exists|k: int| 0 <= k < rects.len() && rects[k].0 != act && qualifies(#[trigger] rects[k].1))
                    ==> exists|k: int|
                    {
                        &&& 0 <= k < rects.len()
                        &&& #[trigger] rects[k].0 == t
                        &&& t != act
                        &&& qualifies(rects[k].1)
                        &&& forall|j: int| 0 <= j < rects.len() && rects[j].0 != act && qualifies(#[trigger] rects[j].1)
                            ==> gap(rects[j].1) >= gap(rects[k].1) && (j < k ==> gap(rects[j].1) > gap(rects[k].1))
                    }
            })
        }),
{
    let rects = w.layout.rects(area);
    let act = w.active_pane_id;
    let t = focus_target(w, dir, area);
    if w.zoomed_pane_id is None {
        if let Some(a) = rect_of(rects, act) {
            lemma_best_focus_law(rects, act, a, dir);
            let qualifies = |r: Rect|
                match dir {
                    Direction::Up => r.x < a.x + a.width && r.x + r.width > a.x && r.y + r.height <= a.y,
                    Direction::Down => r.x < a.x + a.width && r.x + r.width > a.x && r.y >= a.y + a.height,
                    Direction::Left => r.y < a.y + a.height && r.y + r.height > a.y && r.x + r.width <= a.x,
                    Direction::Right => r.y < a.y + a.height && r.y + r.height > a.y && r.x >= a.x + a.width,
                };
            let gap = |r: Rect|
                match dir {
                    Direction::Up => a.y - (r.y + r.height),
                    Direction::Down => r.y - (a.y + a.height),
                    Direction::Left => a.x - (r.x + r.width),
                    Direction::Right => r.x - (a.x + a.width),
                };
            assert forall|r: Rect| #[trigger] focus_distance(dir, a, r) == (if qualifies(r) { Some(gap(r)) } else { None }) by {}
            assert forall|k: int| #[trigger] focus_candidate(rects, act, a, dir, k)
                <==> (0 <= k < rects.len() && rects[k].0 != act && qualifies(rects[k].1)) by {
                if 0 <= k < rects.len() {
                    assert(focus_distance(dir, a, rects[k].1) == (if qualifies(rects[k].1) { Some(gap(rects[k].1)) } else { None }));
                }
            }
            if exists|k: int| 0 <= k < rects.len() && rects[k].0 != act && qualifies(#[trigger] rects[k].1) {
                let k0 = choose|k: int| 0 <= k < rects.len() && rects[k].0 != act && qualifies(#[trigger] rects[k].1);
                assert(focus_candidate(rects, act, a, dir, k0));
                let (id, d) = best_focus(rects, act, a, dir).unwrap();
                let k = choose|k: int|
                    {
                        &&& #[trigger] focus_candidate(rects, act, a, dir, k)
                        &&& rects[k].0 == id
                        &&& focus_distance(dir, a, rects[k].1) == Some(d)
                        &&& forall|j: int| #[trigger] focus_candidate(rects, act, a, dir, j) ==> focus_distance(dir, a, rects[j].1)->0 >= d
                        &&& forall|j: int| 0 <= j < k && #[trigger] focus_candidate(rects, act, a, dir, j) ==> focus_distance(dir, a, rects[j].1)->0 > d
                    };
                assert(t == id);
                assert forall|j: int| 0 <= j < rects.len() && rects[j].0 != act && qualifies(#[trigger] rects[j].1)
                    implies gap(rects[j].1) >= gap(rects[k].1) && (j < k ==> gap(rects[j].1) > gap(rects[k].1)) by {
                    assert(focus_candidate(rects, act, a, dir, j));
                    assert(focus_distance(dir, a, rects[j].1) == Some(gap(rects[j].1)));
                    assert(focus_distance(dir, a, rects[k].1) == Some(gap(rects[k].1)));
                }
            } else {
                assert forall|k: int| 0 <= k < rects.len() && rects[k].0 != act implies !qualifies(#[trigger] rects[k].1) by {}
                if exists|k: int| #[trigger] focus_candidate(rects, act, a, dir, k) {
                    let k = choose|k: int| #[trigger] focus_candidate(rects, act, a, dir, k);
                    assert(qualifies(rects[k].1));
                }
            }
        }
    }
}

proof fn lemma_seq_remove(s: Seq<u32>, i: int)
    requires
        s.no_duplicates(),
        0 <= i < s.len(),
    ensures
        s.remove(i).no_duplicates(),
        forall|x: u32| s.remove(i).contains(x) <==> (s.contains(x) && x != s[i]),
{
    let t = s.remove(i);
    assert forall|p: int, q: int| 0 <= p < t.len() && 0 <= q < t.len() && p != q implies t[p] != t[q] by {
        let pp = if p < i { p } else { p + 1 };
        let qq = if q < i { q } else { q + 1 };
        assert(t[p] == s[pp] && t[q] == s[qq]);
    }
    assert forall|x: u32| t.contains(x) <==> (s.contains(x) && x != s[i]) by {
        if t.contains(x) {
            let k = choose|k: int| 0 <= k < t.len() && t[k] == x;
            let kk = if k < i { k } else { k + 1 };
            assert(s[kk] == x);
        }
        if s.contains(x) && x != s[i] {
            let k = choose|k: int| 0 <= k < s.len() && s[k] == x;
            if k < i {
                assert(t[k] == x);
            } else {
                assert(t[k - 1] == x);
            }
        }
    }
}

proof fn lemma_seq_insert(s: Seq<u32>, i: int, v: u32)
    requires
        s.no_duplicates(),
        !s.contains(v),
        0 <= i <= s.len(),
    ensures
        s.insert(i, v).no_duplicates(),
        forall|x: u32| s.insert(i, v).contains(x) <==> (s.contains(x) || x == v),
{
    let t = s.insert(i, v);
    assert forall|x: u32| t.contains(x) <==> (s.contains(x) || x == v) by {
        if t.contains(x) {
            let k = choose|k: int| 0 <= k < t.len() && t[k] == x;
            if k < i {
                assert(s[k] == x);
            } else if k > i {
                assert(s[k - 1] == x);
            }
        }
        if s.contains(x) {
            let k = choose|k: int| 0 <= k < s.len() && s[k] == x;
            if k < i {
                assert(t[k] == x);
            } else {
                assert(t[k + 1] == x);
            }
        }
        if x == v {
            assert(t[i] == v);
        }
    }
    assert forall|p: int, q: int| 0 <= p < t.len() && 0 <= q < t.len() && p != q implies t[p] != t[q] by {
        if p != i && q != i {
            let pp = if p < i { p } else { p - 1 };
            let qq = if q < i { q } else { q - 1 };
            assert(t[p] == s[pp] && t[q] == s[qq]);
        } else if p == i {
            let qq = if q < i { q } else { q - 1 };
            assert(t[q] == s[qq]);
        } else {
            let pp = if p < i { p } else { p - 1 };
            assert(t[p] == s[pp]);
        }
    }
}

/// Splitting the active pane of a consistent window with a fresh pane id
/// gives a consistent window holding that pane as well.
pub proof fn lemma_split_keeps_wf(w: WindowView, direction: Split, new_id: u32)
    requires
        w.wf(),
        !w.has_pane(new_id),
    ensures
        after_split(w, direction, new_id).wf(),
        forall|id: u32| after_split(w, direction, new_id).has_pane(id) <==> (w.has_pane(id) || id == new_id),
        split_layout(w, direction, new_id).height() <= w.layout.height() + 1,
{
    let w2 = after_split(w, direction, new_id);
    crate::layout::lemma_split_ids_pub(w.layout, w.active_pane_id, new_id, direction);
    lemma_split_preserves(w.layout, w.active_pane_id, new_id, direction);
    lemma_first_index(w.layout.ids(), w.active_pane_id);
    lemma_seq_insert(w.layout.ids(), first_index(w.layout.ids(), w.active_pane_id) + 1, new_id);
    assert(w2.pane_ids() =~= w.pane_ids().push(new_id));
    assert(w.pane_ids().push(new_id) =~= w.pane_ids().insert(w.pane_ids().len() as int, new_id));
    lemma_seq_insert(w.pane_ids(), w.pane_ids().len() as int, new_id);
    assert(w.layout.ids().contains(w.active_pane_id));
    assert(!w.layout.ids().contains(new_id));
    let l = split_layout(w, direction, new_id);
    assert forall|id: u32| w2.has_pane(id) <==> l.ids().contains(id) by {
        assert(w.has_pane(id) <==> w.layout.ids().contains(id));
    }
    assert(w2.has_pane(new_id));
}

/// Closing a pane of a consistent window keeps it consistent; when the
/// window keeps panes, exactly the closed pane is gone.
pub proof fn lemma_close_keeps_wf(w: WindowView, pane_id: u32, area: Rect)
    requires
        w.wf(),
    ensures
        close_result(w, pane_id, area).0.wf(),
        close_result(w, pane_id, area).0.layout.height() <= w.layout.height(),
        close_result(w, pane_id, area).1 && w.has_pane(pane_id) ==> forall|id: u32|
            close_result(w, pane_id, area).0.has_pane(id) <==> (w.has_pane(id) && id != pane_id),
        !w.has_pane(pane_id) || !close_result(w, pane_id, area).1 ==> forall|id: u32|
            close_result(w, pane_id, area).0.has_pane(id) <==> w.has_pane(id),
{
    let w1 = WindowView {
        zoomed_pane_id: if w.zoomed_pane_id == Some(pane_id) { None } else { w.zoomed_pane_id },
        ..w
    };
    assert(w1.pane_ids() == w.pane_ids());
    assert forall|id: u32| w1.has_pane(id) <==> w1.layout.ids().contains(id) by {
        assert(w.has_pane(id) <==> w.layout.ids().contains(id));
    }
    if let Some(z) = w1.zoomed_pane_id {
        assert(w.zoomed_pane_id == Some(z));
        assert(w.has_pane(z));
    }
    assert(w1.wf());
    crate::layout::lemma_remove_pub(w.layout, pane_id);
    if w.panes.len() > 1 && w.has_pane(pane_id) && w.layout is Leaf {
        let p = w.pane_ids();
        assert(w.layout.ids() == seq![w.layout->pane_id]);
        assert(w.has_pane(p[0]) && w.has_pane(p[1]));
        assert(w.layout.ids().contains(p[0]) && w.layout.ids().contains(p[1]));
        assert(p[0] == w.layout.ids()[0]);
        assert(p[1] == w.layout.ids()[0]);
        assert(false);
    }
    if w.panes.len() > 1 {
        lemma_remove_preserves(w.layout, pane_id);
        if let Some((l, rem)) = w.layout.spec_remove_pane(pane_id) {
            let s = w.layout.ids();
            lemma_first_index(s, pane_id);
            lemma_seq_remove(s, first_index(s, pane_id));
            let p = w.pane_ids();
            lemma_first_index(p, pane_id);
            lemma_seq_remove(p, first_index(p, pane_id));
            let w2 = close_result(w, pane_id, area).0;
            assert(w.layout.ids().contains(pane_id));
            assert(w.has_pane(pane_id));
            assert(w2.pane_ids() =~= p.remove(first_index(p, pane_id)));
            assert forall|id: u32| w2.has_pane(id) <==> (w.has_pane(id) && id != pane_id) by {
                assert(w.has_pane(id) <==> w.layout.ids().contains(id));
            }
            assert forall|id: u32| w2.has_pane(id) <==> l.ids().contains(id) by {
                assert(w.has_pane(id) <==> w.layout.ids().contains(id));
            }
            assert(w2.has_pane(w2.active_pane_id)) by {
                if w.active_pane_id != pane_id {
                    assert(w.has_pane(w.active_pane_id));
                } else {
                    assert(l.ids().contains(rem));
                }
            }
            if let Some(z) = w2.zoomed_pane_id {
                assert(w.has_pane(z));
            }
        }
    }
}

/// Closing `pane_id` in a window whose layout holds each of its panes once:
/// the zoom ends exactly when that pane was zoomed; a window with at most
/// one pane keeps its panes, layout and focus and reports `false`; any
/// other window reports `true`, and when it held the pane, the pane leaves
/// both the layout and the panes, every other pane stays as it was, and the
/// focus moves to the pane that removing it from the layout names if the
/// closed pane was active, else stays; a pane it does not hold changes
/// nothing but the zoom.
pub proof fn lemma_close_law(w: WindowView, pane_id: u32, area: Rect)
    requires
        w.pane_ids().no_duplicates(),
        w.layout.ids().no_duplicates(),
        forall|id: u32| w.has_pane(id) <==> w.layout.ids().contains(id),
    ensures
        ({
            let (w2, keep, _) = close_result(w, pane_id, area);
            &&& w2.zoomed_pane_id == (if w.zoomed_pane_id == Some(pane_id) { None } else { w.zoomed_pane_id })
            &&& keep <==> w.panes.len() > 1
            &&& (w.panes.len() <= 1 || !w.has_pane(pane_id)) ==> {
                &&& w2.panes == w.panes
                &&& w2.layout == w.layout
                &&& w2.active_pane_id == w.active_pane_id
            }
            &&& (w.panes.len() > 1 && w.has_pane(pane_id)) ==> {
                &&& w.layout.spec_remove_pane(pane_id) matches Some((l, rem))
                &&& w2.layout == l
                &&& !w2.has_pane(pane_id)
                &&& !w2.layout.ids().contains(pane_id)
                &&& forall|p: PaneState| #[trigger] w2.panes.contains(p) <==> (w.panes.contains(p) && p.id != pane_id)
                &&& forall|id: u32| id != pane_id ==> (#[trigger] w2.layout.ids().contains(id) <==> w.layout.ids().contains(id))
                &&& w2.active_pane_id == (if w.active_pane_id == pane_id { rem } else { w.active_pane_id })
            }
        }),
{
    crate::layout::lemma_remove_pub(w.layout, pane_id);
    if w.panes.len() > 1 && w.has_pane(pane_id) {
        let p = w.pane_ids();
        let s = w.layout.ids();
        if w.layout is Leaf {
            assert(s == seq![w.layout->pane_id]);
            assert(w.has_pane(p[0]) && w.has_pane(p[1]));
            assert(s.contains(p[0]) && s.contains(p[1]));
            assert(p[0] == s[0]);
            assert(p[1] == s[0]);
            assert(false);
        }
        assert(s.contains(pane_id));
        lemma_first_index(s, pane_id);
        lemma_seq_remove(s, first_index(s, pane_id));
        lemma_first_index(p, pane_id);
        lemma_seq_remove(p, first_index(p, pane_id));
        let i = first_index(p, pane_id);
        let w2 = close_result(w, pane_id, area).0;
        assert(w2.panes == w.panes.remove(i));
        assert(w2.pane_ids() =~= p.remove(i));
        assert forall|q: PaneState| #[trigger] w2.panes.contains(q) <==> (w.panes.contains(q) && q.id != pane_id) by {
            if w2.panes.contains(q) {
                let j = choose|j: int| 0 <= j < w2.panes.len() && w2.panes[j] == q;
                let jj = if j < i { j } else { j + 1 };
                assert(w.panes[jj] == q);
                assert(p[jj] == q.id && p[i] == pane_id);
            }
            if w.panes.contains(q) && q.id != pane_id {
                let j = choose|j: int| 0 <= j < w.panes.len() && w.panes[j] == q;
                assert(p[j] == q.id);
                assert(j != i);
                let jj = if j < i { j } else { j - 1 };
                assert(w2.panes[jj] == q);
            }
        }
    }
}

proof fn lemma_no_dup_concat(a: Seq<u32>, b: Seq<u32>)
    requires
        (a + b).no_duplicates(),
    ensures
        a.no_duplicates(),
        b.no_duplicates(),
        forall|x: u32| b.contains(x) ==> !a.contains(x),
{
    let ab = a + b;
    assert forall|p: int, q: int| 0 <= p < a.len() && 0 <= q < a.len() && p != q implies a[p] != a[q] by {
        assert(ab[p] == a[p] && ab[q] == a[q]);
    }
    assert forall|p: int, q: int| 0 <= p < b.len() && 0 <= q < b.len() && p != q implies b[p] != b[q] by {
        assert(ab[a.len() + p] == b[p] && ab[a.len() + q] == b[q]);
    }
    assert forall|x: u32| b.contains(x) implies !a.contains(x) by {
        if a.contains(x) {
            let p = choose|p: int| 0 <= p < a.len() && a[p] == x;
            let q = choose|q: int| 0 <= q < b.len() && b[q] == x;
            assert(ab[p] == x && ab[a.len() + q] == x);
        }
    }
}

/// Removing a pane from a layout whose panes are distinct gives its space
/// to the subtree beside it: every remaining pane outside that subtree
/// keeps the area it had.
pub proof fn lemma_remove_keeps_other_areas(node: LayoutNode, target: u32, area: Rect)
    requires
        node.ids().no_duplicates(),
    ensures
        node.spec_remove_pane(target) matches Some((n, r)) ==> {
            &&& node.sibling_of(target) matches Some(s)
            &&& forall|id: u32| #[trigger] n.ids().contains(id) && !s.ids().contains(id)
                ==> rect_of(n.rects(area), id) == rect_of(node.rects(area), id)
        },
    decreases node,
{
    crate::layout::lemma_remove_names_sibling_first(node, target);
    if let LayoutNode::Split { direction: d, ratio, first, second } = node {
        let (fa, sa) = spec_split_rect(area, d, ratio);
        let a = first.ids();
        let b = second.ids();
        assert(node.ids() == a + b);
        lemma_no_dup_concat(a, b);
        if let Some((n, r)) = node.spec_remove_pane(target) {
            if !first.is_leaf_of(target) && !second.is_leaf_of(target) {
                let s = node.sibling_of(target)->0;
                crate::layout::lemma_remove_pub(*first, target);
                crate::layout::lemma_remove_pub(*second, target);
                lemma_remove_keeps_other_areas(*first, target, fa);
                lemma_remove_keeps_other_areas(*second, target, sa);
                if let Some((f, _)) = first.spec_remove_pane(target) {
                    assert(a.contains(target));
                    assert(n == LayoutNode::Split { direction: d, ratio, first: Box::new(f), second });
                    assert(s == first.sibling_of(target)->0);
                    lemma_first_index(a, target);
                    lemma_seq_remove(a, first_index(a, target));
                    assert forall|id: u32| #[trigger] n.ids().contains(id) && !s.ids().contains(id)
                        implies rect_of(n.rects(area), id) == rect_of(node.rects(area), id) by {
                        assert(n.ids() == f.ids() + b);
                        crate::layout::lemma_contains_concat(f.ids(), b, id);
                        lemma_rect_of_concat(f.rects(fa), second.rects(sa), id);
                        lemma_rect_of_concat(first.rects(fa), second.rects(sa), id);
                        lemma_rect_in_tree(f, fa, id);
                        lemma_rect_in_tree(*first, fa, id);
                    }
                } else if let Some((t, _)) = second.spec_remove_pane(target) {
                    assert(b.contains(target)) by {
                        crate::layout::lemma_contains_concat(a, b, target);
                        if *first is Leaf {
                            assert(a == seq![first->pane_id]);
                            if a.contains(target) {
                                assert(a[0] == target);
                            }
                        }
                    }
                    assert(s == second.sibling_of(target)->0);
                    lemma_first_index(b, target);
                    lemma_seq_remove(b, first_index(b, target));
                    assert forall|id: u32| #[trigger] n.ids().contains(id) && !s.ids().contains(id)
                        implies rect_of(n.rects(area), id) == rect_of(node.rects(area), id) by {
                        assert(n.ids() == a + t.ids());
                        crate::layout::lemma_contains_concat(a, t.ids(), id);
                        lemma_rect_of_concat(first.rects(fa), t.rects(sa), id);
                        lemma_rect_of_concat(first.rects(fa), second.rects(sa), id);
                        lemma_rect_in_tree(*first, fa, id);
                    }
                }
            }
        }
    }
}

/// Moving the focus keeps it on a pane of the window.
pub proof fn lemma_focus_target_in_window(w: WindowView, direction: Direction, area: Rect)
    requires
        w.wf(),
    ensures
        w.has_pane(focus_target(w, direction, area)),
{
    let rects = w.layout.rects(area);
    lemma_rects_follow_ids(w.layout, area);
    if w.zoomed_pane_id is None {
        if let Some(a) = rect_of(rects, w.active_pane_id) {
            lemma_best_focus_member(rects, w.active_pane_id, a, direction);
            if let Some((id, _)) = best_focus(rects, w.active_pane_id, a, direction) {
                let i = choose|i: int| 0 <= i < rects.len() && rects[i].0 == id;
                assert(w.layout.ids()[i] == id);
                assert(w.layout.ids().contains(id));
            }
        }
    }
}

/// Which way a resize step in `dir` moves a border: left and right move
/// the nearest vertical border back or forward, up and down the nearest
/// horizontal one.
pub open spec fn resize_axis(dir: Direction) -> (Split, bool) {
    match dir {
        Direction::Left => (Split::Vertical, false),
        Direction::Right => (Split::Vertical, true),
        Direction::Up => (Split::Horizontal, false),
        Direction::Down => (Split::Horizontal, true),
    }
}

/// The window, laid out on `area`, after a resize step in `dir` around its
/// active pane: the zoom ends and the nearest border of that axis above the
/// active pane moves one line (see `LayoutNode::spec_resize`); `None` when
/// there is no such border or it cannot move.
pub open spec fn resize_step(w: WindowView, dir: Direction, area: Rect) -> Option<WindowView> {
    let (axis, grow) = resize_axis(dir);
    match w.layout.spec_resize(area, w.active_pane_id, axis, grow) {
        Some(l) => Some(WindowView { layout: l, zoomed_pane_id: None, ..w }),
        None => None,
    }
}

/// A resize step keeps a consistent window consistent, with the same panes,
/// layout height and number of borders.
pub proof fn lemma_resize_keeps_wf(w: WindowView, dir: Direction, area: Rect)
    requires
        w.wf(),
    ensures
        resize_step(w, dir, area) matches Some(w2) ==> {
            &&& w2.wf()
            &&& w2.panes == w.panes
            &&& w2.layout.ids() == w.layout.ids()
            &&& w2.layout.height() == w.layout.height()
        },
{
    let (axis, grow) = resize_axis(dir);
    lemma_resize_preserves(w.layout, area, w.active_pane_id, axis, grow);
    if let Some(w2) = resize_step(w, dir, area) {
        assert(w2.pane_ids() == w.pane_ids());
        assert(w2.layout.ids() == w.layout.ids());
        assert forall|id: u32| w2.has_pane(id) <==> w2.layout.ids().contains(id) by {
            assert(w.has_pane(id) <==> w.layout.ids().contains(id));
        }
    }
}

proof fn lemma_rect_of_some(rects: Seq<(u32, Rect)>, id: u32)
    ensures
        rect_of(rects, id) is Some <==> exists|i: int| 0 <= i < rects.len() && rects[i].0 == id,
    decreases rects.len(),
{
    if rects.len() > 0 {
        lemma_rect_of_some(rects.drop_first(), id);
        if rects[0].0 != id {
            if exists|i: int| 0 <= i < rects.len() && rects[i].0 == id {
                let i = choose|i: int| 0 <= i < rects.len() && rects[i].0 == id;
                assert(rects.drop_first()[i - 1].0 == id);
            }
            if exists|i: int| 0 <= i < rects.drop_first().len() && rects.drop_first()[i].0 == id {
                let i = choose|i: int| 0 <= i < rects.drop_first().len() && rects.drop_first()[i].0 == id;
                assert(rects[i + 1].0 == id);
            }
        }
    }
}

proof fn lemma_rect_of_concat(a: Seq<(u32, Rect)>, b: Seq<(u32, Rect)>, id: u32)
    ensures
        rect_of(a + b, id) == match rect_of(a, id) {
            Some(r) => Some(r),
            None => rect_of(b, id),
        },
    decreases a.len(),
{
    if a.len() == 0 {
        assert(a + b =~= b);
    } else {
        assert((a + b).drop_first() =~= a.drop_first() + b);
        lemma_rect_of_concat(a.drop_first(), b, id);
    }
}

/// The area of pane `id` in a tree laid out on `area`, when `id` is a pane
/// of the tree.
proof fn lemma_rect_in_tree(t: LayoutNode, area: Rect, id: u32)
    ensures
        rect_of(t.rects(area), id) is Some <==> t.ids().contains(id),
{
    lemma_rects_follow_ids(t, area);
    lemma_rect_of_some(t.rects(area), id);
    if t.ids().contains(id) {
        let k = choose|k: int| 0 <= k < t.ids().len() && t.ids()[k] == id;
        assert(t.rects(area)[k].0 == id);
    }
    if exists|i: int| 0 <= i < t.rects(area).len() && t.rects(area)[i].0 == id {
        let i = choose|i: int| 0 <= i < t.rects(area).len() && t.rects(area)[i].0 == id;
        assert(t.ids()[i] == id);
    }
}

/// With no split of `direction` above pane `id`, the pane spans its tree's
/// whole area along that axis.
proof fn lemma_axis_kept(t: LayoutNode, area: Rect, id: u32, direction: Split)
    requires
        t.ids().contains(id),
        !t.on_path(id, direction),
    ensures
        rect_of(t.rects(area), id) matches Some(r) && axis_len(r, direction) == axis_len(area, direction)
            && axis_pos(r, direction) == axis_pos(area, direction),
    decreases t,
{
    match t {
        LayoutNode::Leaf { pane_id } => {
            assert(t.ids()[0] == pane_id);
            assert(t.rects(area)[0] == (pane_id, area));
        },
        LayoutNode::Split { direction: d, ratio, first, second } => {
            let (fa, sa) = spec_split_rect(area, d, ratio);
            lemma_rect_of_concat(first.rects(fa), second.rects(sa), id);
            if first.ids().contains(id) {
                lemma_axis_kept(*first, fa, id, direction);
            } else {
                assert(t.ids() == first.ids() + second.ids());
                if !second.ids().contains(id) {
                    let k = choose|k: int| 0 <= k < t.ids().len() && t.ids()[k] == id;
                    if k < first.ids().len() {
                        assert(first.ids()[k] == id);
                    } else {
                        assert(second.ids()[k - first.ids().len()] == id);
                    }
                }
                lemma_rect_in_tree(*first, fa, id);
                lemma_axis_kept(*second, sa, id, direction);
            }
        },
    }
}

/// A resize step changes the length of pane `id` along the step's axis.
pub proof fn lemma_resize_moves_pane(node: LayoutNode, area: Rect, id: u32, direction: Split, grow: bool)
    requires
        node.ratios_valid(),
    ensures
        node.spec_resize(area, id, direction, grow) matches Some(n) ==> {
            &&& rect_of(node.rects(area), id) matches Some(r1)
            &&& rect_of(n.rects(area), id) matches Some(r2)
            &&& axis_len(r1, direction) != axis_len(r2, direction)
        },
    decreases node,
{
    if let LayoutNode::Split { direction: d, ratio, first, second } = node {
        if let Some(n) = node.spec_resize(area, id, direction, grow) {
            let (fa, sa) = spec_split_rect(area, d, ratio);
            let len = axis_len(area, d);
            lemma_rect_of_concat(first.rects(fa), second.rects(sa), id);
            if first.ids().contains(id) {
                if first.on_path(id, direction) {
                    let f = first.spec_resize(fa, id, direction, grow).unwrap();
                    lemma_resize_moves_pane(*first, fa, id, direction, grow);
                    lemma_rect_of_concat(f.rects(fa), second.rects(sa), id);
                } else {
                    let r2 = stepped_ratio(len, ratio, grow);
                    let (fb, sb) = spec_split_rect(area, d, r2);
                    lemma_stepped_ratio(len, ratio, grow);
                    lemma_axis_kept(*first, fa, id, direction);
                    lemma_axis_kept(*first, fb, id, direction);
                    lemma_rect_of_concat(first.rects(fb), second.rects(sb), id);
                }
            } else {
                lemma_rect_in_tree(*first, fa, id);
                if second.on_path(id, direction) {
                    let t = second.spec_resize(sa, id, direction, grow).unwrap();
                    lemma_resize_moves_pane(*second, sa, id, direction, grow);
                    lemma_rect_of_concat(first.rects(fa), t.rects(sa), id);
                } else {
                    let r2 = stepped_ratio(len, ratio, grow);
                    let (fb, sb) = spec_split_rect(area, d, r2);
                    lemma_stepped_ratio(len, ratio, grow);
                    lemma_rect_in_tree(*first, fb, id);
                    lemma_axis_kept(*second, sa, id, direction);
                    lemma_axis_kept(*second, sb, id, direction);
                    lemma_rect_of_concat(first.rects(fb), second.rects(sb), id);
                }
            }
        }
    }
}

/// The coordinate at which a rectangle starts along the axis that a split
/// of `direction` divides: its left column for a vertical split, its top
/// row for a horizontal one.
pub open spec fn axis_pos(r: Rect, direction: Split) -> int {
    match direction {
        Split::Vertical => r.x as int,
        Split::Horizontal => r.y as int,
    }
}

/// A resize step moves pane `id` along the step's axis: forward (`grow`)
/// neither of its edges along that axis moves back and one moves forward;
/// back, neither moves forward and one moves back. On an area of at most
/// 1000 lines along that axis exactly one edge moves, by one line.
pub proof fn lemma_resize_moves_edge(node: LayoutNode, area: Rect, id: u32, direction: Split, grow: bool)
    requires
        node.ratios_valid(),
        area.x + area.width + node.height() <= u16::MAX,
        area.y + area.height + node.height() <= u16::MAX,
    ensures
        node.spec_resize(area, id, direction, grow) matches Some(n) ==> {
            &&& rect_of(node.rects(area), id) matches Some(r1)
            &&& rect_of(n.rects(area), id) matches Some(r2)
            &&& {
                let s1 = axis_pos(r1, direction);
                let e1 = s1 + axis_len(r1, direction);
                let s2 = axis_pos(r2, direction);
                let e2 = s2 + axis_len(r2, direction);
                &&& grow ==> s1 <= s2 && e1 <= e2 && (s1 < s2 || e1 < e2)
                &&& !grow ==> s2 <= s1 && e2 <= e1 && (s2 < s1 || e2 < e1)
                &&& axis_len(area, direction) <= 1000 ==> if grow {
                    (s2 == s1 && e2 == e1 + 1) || (s2 == s1 + 1 && e2 == e1)
                } else {
                    (s2 == s1 && e2 + 1 == e1) || (s2 + 1 == s1 && e2 == e1)
                }
            }
        },
    decreases node,
{
    if let LayoutNode::Split { direction: d, ratio, first, second } = node {
        if let Some(n) = node.spec_resize(area, id, direction, grow) {
            let (fa, sa) = spec_split_rect(area, d, ratio);
            let len = axis_len(area, d);
            let fl = spec_first_len(len, ratio);
            assert(fl <= len) by (nonlinear_arith)
                requires
                    fl == spec_first_len(len, ratio),
                    ratio <= 1000,
            {
                assert(len as int * ratio as int <= len as int * 1000);
            }
            lemma_rect_of_concat(first.rects(fa), second.rects(sa), id);
            if first.ids().contains(id) {
                if first.on_path(id, direction) {
                    let f = first.spec_resize(fa, id, direction, grow).unwrap();
                    lemma_resize_moves_edge(*first, fa, id, direction, grow);
                    lemma_rect_of_concat(f.rects(fa), second.rects(sa), id);
                } else {
                    let r2 = stepped_ratio(len, ratio, grow);
                    let (fb, sb) = spec_split_rect(area, d, r2);
                    lemma_stepped_ratio(len, ratio, grow);
                    let fl2 = spec_first_len(len, r2);
                    assert(fl2 <= len) by (nonlinear_arith)
                        requires
                            fl2 == spec_first_len(len, r2),
                            r2 <= 1000,
                    {
                        assert(len as int * r2 as int <= len as int * 1000);
                    }
                    lemma_axis_kept(*first, fa, id, direction);
                    lemma_axis_kept(*first, fb, id, direction);
                    lemma_rect_of_concat(first.rects(fb), second.rects(sb), id);
                }
            } else {
                lemma_rect_in_tree(*first, fa, id);
                if second.on_path(id, direction) {
                    let t = second.spec_resize(sa, id, direction, grow).unwrap();
                    lemma_resize_moves_edge(*second, sa, id, direction, grow);
                    lemma_rect_of_concat(first.rects(fa), t.rects(sa), id);
                } else {
                    let r2 = stepped_ratio(len, ratio, grow);
                    let (fb, sb) = spec_split_rect(area, d, r2);
                    lemma_stepped_ratio(len, ratio, grow);
                    let fl2 = spec_first_len(len, r2);
                    assert(fl2 <= len) by (nonlinear_arith)
                        requires
                            fl2 == spec_first_len(len, r2),
                            r2 <= 1000,
                    {
                        assert(len as int * r2 as int <= len as int * 1000);
                    }
                    lemma_rect_in_tree(*first, fb, id);
                    lemma_axis_kept(*second, sa, id, direction);
                    lemma_axis_kept(*second, sb, id, direction);
                    lemma_rect_of_concat(first.rects(fb), second.rects(sb), id);
                }
            }
        }
    }
}

/// A resize step, in plain geometry: on a window laid out on `area`, a step
/// down moves the active pane's top or bottom edge down (the other edge
/// does not move up), a step up moves one of them up (the other does not
/// move down), and likewise right and left with its left and right edges;
/// so up undoes the direction of down, and left that of right. On an area
/// of at most 1000 lines along the step's axis, exactly one of those two
/// edges moves, by one line.
pub proof fn lemma_resize_step_direction(w: WindowView, dir: Direction, area: Rect)
    requires
        w.wf(),
        area.x + area.width + w.layout.height() <= u16::MAX,
        area.y + area.height + w.layout.height() <= u16::MAX,
    ensures
        resize_step(w, dir, area) matches Some(w2) ==> {
            &&& rect_of(w.layout.rects(area), w.active_pane_id) matches Some(r1)
            &&& rect_of(w2.layout.rects(area), w2.active_pane_id) matches Some(r2)
            &&& match dir {
                Direction::Down => r1.y <= r2.y && r1.y + r1.height <= r2.y + r2.height
                    && (r1.y < r2.y || r1.y + r1.height < r2.y + r2.height),
                Direction::Up => r2.y <= r1.y && r2.y + r2.height <= r1.y + r1.height
                    && (r2.y < r1.y || r2.y + r2.height < r1.y + r1.height),
                Direction::Right => r1.x <= r2.x && r1.x + r1.width <= r2.x + r2.width
                    && (r1.x < r2.x || r1.x + r1.width < r2.x + r2.width),
                Direction::Left => r2.x <= r1.x && r2.x + r2.width <= r1.x + r1.width
                    && (r2.x < r1.x || r2.x + r2.width < r1.x + r1.width),
            }
            &&& area.height <= 1000 ==> match dir {
                Direction::Down => (r2.y == r1.y && r2.y + r2.height == r1.y + r1.height + 1)
                    || (r2.y == r1.y + 1 && r2.y + r2.height == r1.y + r1.height),
                Direction::Up => (r2.y == r1.y && r2.y + r2.height + 1 == r1.y + r1.height)
                    || (r2.y + 1 == r1.y && r2.y + r2.height == r1.y + r1.height),
                _ => true,
            }
            &&& area.width <= 1000 ==> match dir {
                Direction::Right => (r2.x == r1.x && r2.x + r2.width == r1.x + r1.width + 1)
                    || (r2.x == r1.x + 1 && r2.x + r2.width == r1.x + r1.width),
                Direction::Left => (r2.x == r1.x && r2.x + r2.width + 1 == r1.x + r1.width)
                    || (r2.x + 1 == r1.x && r2.x + r2.width == r1.x + r1.width),
                _ => true,
            }
        },
{
    let (axis, grow) = resize_axis(dir);
    lemma_resize_moves_edge(w.layout, area, w.active_pane_id, axis, grow);
}

/// A resize step in `dir` changes the active pane's width (left, right)
/// or height (up, down) on the window's area.
pub proof fn lemma_resize_step_moves_active(w: WindowView, dir: Direction, area: Rect)
    requires
        w.wf(),
    ensures
        resize_step(w, dir, area) matches Some(w2) ==> {
            &&& rect_of(w.layout.rects(area), w.active_pane_id) matches Some(r1)
            &&& rect_of(w2.layout.rects(area), w2.active_pane_id) matches Some(r2)
            &&& axis_len(r1, resize_axis(dir).0) != axis_len(r2, resize_axis(dir).0)
        },
{
    let (axis, grow) = resize_axis(dir);
    lemma_resize_moves_pane(w.layout, area, w.active_pane_id, axis, grow);
}

impl Window {
    /// A window with the single pane `first_pane_id`, active and not zoomed;
    /// asks for the pane's program to be started with the given size.
    pub fn new(first_pane_id: u32, cols: u16, rows: u16, window_index: usize, effects: &mut Vec<Effect>) -> (r: Self)
        ensures
            r@ == (WindowView {
                panes: seq![PaneState { id: first_pane_id, has_notification: false }],
                layout: LayoutNode::Leaf { pane_id: first_pane_id },
                active_pane_id: first_pane_id,
                zoomed_pane_id: None,
                has_notification: false,
                window_index,
            }),
            r@.wf(),
            effect_views(final(effects)@) == effect_views(old(effects)@).push(
                EffectView::SpawnPane { pane_id: first_pane_id, window_index, cols, rows },
            ),
    {
        effects.push(Effect::SpawnPane { pane_id: first_pane_id, window_index, cols, rows });
        let mut panes: Vec<PaneState> = Vec::new();
        panes.push(PaneState { id: first_pane_id, has_notification: false });
        let w = Window {
            panes,
            layout: LayoutNode::single(first_pane_id),
            active_pane_id: first_pane_id,
            zoomed_pane_id: None,
            has_notification: false,
            window_index,
        };
        proof {
            assert(effect_views(effects@) =~= effect_views(old(effects)@).push(
                EffectView::SpawnPane { pane_id: first_pane_id, window_index, cols, rows },
            ));
            assert(w@.pane_ids() =~= seq![first_pane_id]);
            assert(w@.layout.ids() =~= seq![first_pane_id]);
            assert(w@.has_pane(first_pane_id)) by {
                assert(w@.pane_ids()[0] == first_pane_id);
            }
            assert forall|id: u32| w@.has_pane(id) <==> w@.layout.ids().contains(id) by {
                if w@.layout.ids().contains(id) {
                    assert(w@.layout.ids()[0] == id);
                }
                if w@.has_pane(id) {
                    assert(w@.pane_ids()[0] == id);
                }
            }
        }
        w
    }

    /// Number of panes.
    pub fn pane_count(&self) -> (r: usize)
        ensures
            r == self@.panes.len(),
    {
        self.panes.len()
    }

    /// Whether the window has the pane `pane_id`.
    pub fn contains_pane(&self, pane_id: u32) -> (r: bool)
        ensures
            r == self@.has_pane(pane_id),
    {
        match self.pane_index(pane_id) {
            Some(_) => true,
            None => false,
        }
    }

    /// Position of the pane `pane_id` among the panes.
    pub fn pane_index(&self, pane_id: u32) -> (r: Option<usize>)
        ensures
            r is Some <==> self@.has_pane(pane_id),
            r matches Some(i) ==> i < self@.panes.len() && self@.panes[i as int].id == pane_id,
            r matches Some(i) ==> forall|j: int| 0 <= j < i ==> self@.panes[j].id != pane_id,
    {
        let mut i: usize = 0;
        while i < self.panes.len()
            invariant
                i <= self@.panes.len(),
                forall|j: int| 0 <= j < i ==> self@.panes[j].id != pane_id,
            decreases self.panes.len() - i,
        {
            if self.panes[i].id == pane_id {
                proof {
                    assert(self@.pane_ids()[i as int] == pane_id);
                }
                return Some(i);
            }
            i = i + 1;
        }
        proof {
            if self@.has_pane(pane_id) {
                let k = choose|k: int| 0 <= k < self@.pane_ids().len() && self@.pane_ids()[k] == pane_id;
                assert(self@.panes[k].id == pane_id);
            }
        }
        None
    }

    /// Asks for each pane to be resized to its area when the layout is laid
    /// out on `pane_area` (panes whose area has no cells are left as they are).
    pub fn resize_all_panes(&self, pane_area: Rect, effects: &mut Vec<Effect>)
        requires
            self.layout.fits(pane_area),
        ensures
            effect_views(final(effects)@) == effect_views(old(effects)@) + resize_effects(
                self@,
                self.layout.rects(pane_area),
            ),
    {
        let rects = self.layout.compute_rects(pane_area);
        let mut i: usize = 0;
        proof {
            assert(rects@.take(0) =~= Seq::<(u32, Rect)>::empty());
            assert(effect_views(effects@) =~= effect_views(old(effects)@) + resize_effects(self@, rects@.take(0)));
        }
        while i < rects.len()
            invariant
                i <= rects@.len(),
                effect_views(effects@) == effect_views(old(effects)@) + resize_effects(self@, rects@.take(i as int)),
            decreases rects.len() - i,
        {
            let (pane_id, rect) = rects[i];
            proof {
                assert(rects@.take(i + 1).drop_last() =~= rects@.take(i as int));
                assert(rects@.take(i + 1).last() == rects@[i as int]);
            }
            let ghost before = effects@;
            if self.contains_pane(pane_id) && rect.width > 0 && rect.height > 0 {
                effects.push(Effect::ResizePane { pane_id, cols: rect.width, rows: rect.height });
                proof {
                    assert(effect_views(effects@) =~= effect_views(before).push(
                        EffectView::ResizePane { pane_id, cols: rect.width, rows: rect.height },
                    ));
                }
            }
            i = i + 1;
            proof {
                assert(effect_views(effects@) =~= effect_views(old(effects)@) + resize_effects(self@, rects@.take(i as int)));
            }
        }
        proof {
            assert(rects@.take(i as int) =~= rects@);
        }
    }

    /// Splits the active pane in `direction`: the new pane `new_pane_id`
    /// takes the second half, is started with the size of its area, all panes
    /// are resized, and the new pane becomes active.
    pub fn split_active_pane(&mut self, direction: Split, pane_area: Rect, new_pane_id: u32, effects: &mut Vec<Effect>)
        requires
            split_layout(old(self)@, direction, new_pane_id).fits(pane_area),
        ensures
            final(self)@ == after_split(old(self)@, direction, new_pane_id),
            effect_views(final(effects)@) == effect_views(old(effects)@) + seq![
                EffectView::SpawnPane {
                    pane_id: new_pane_id,
                    window_index: old(self)@.window_index,
                    cols: spawn_rect(final(self).layout.rects(pane_area), new_pane_id).width,
                    rows: spawn_rect(final(self).layout.rects(pane_area), new_pane_id).height,
                },
            ] + resize_effects(final(self)@, final(self).layout.rects(pane_area)),
    {
        let active = self.active_pane_id;
        let _ = self.layout.split_pane(active, new_pane_id, direction);
        let rects = self.layout.compute_rects(pane_area);
        assert(self.layout == split_layout(old(self)@, direction, new_pane_id));
        let mut i: usize = 0;
        proof {
            assert(rects@.skip(0) =~= rects@);
        }
        while i < rects.len() && rects[i].0 != new_pane_id
            invariant
                i <= rects@.len(),
                rect_of(rects@, new_pane_id) == rect_of(rects@.skip(i as int), new_pane_id),
            decreases rects.len() - i,
        {
            proof {
                assert(rects@.skip(i as int).drop_first() =~= rects@.skip(i + 1));
            }
            i = i + 1;
        }
        let new_rect = if i < rects.len() {
            rects[i].1
        } else {
            Rect { x: 0, y: 0, width: 80, height: 24 }
        };
        proof {
            if i >= rects@.len() {
                assert(rects@.skip(i as int) =~= Seq::<(u32, Rect)>::empty());
            } else {
                assert(rects@.skip(i as int)[0] == rects@[i as int]);
            }
        }
        assert(new_rect == spawn_rect(rects@, new_pane_id));
        let ghost before = effects@;
        effects.push(Effect::SpawnPane {
            pane_id: new_pane_id,
            window_index: self.window_index,
            cols: new_rect.width,
            rows: new_rect.height,
        });
        self.panes.push(PaneState { id: new_pane_id, has_notification: false });
        self.active_pane_id = new_pane_id;
        proof {
            assert(self@.panes =~= old(self)@.panes.push(PaneState { id: new_pane_id, has_notification: false }));
            assert(self@ == after_split(old(self)@, direction, new_pane_id));
            assert(effect_views(effects@) =~= effect_views(before).push(EffectView::SpawnPane {
                pane_id: new_pane_id,
                window_index: self.window_index,
                cols: new_rect.width,
                rows: new_rect.height,
            }));
        }
        self.resize_all_panes(pane_area, effects);
        proof {
            assert(effect_views(effects@) =~= effect_views(old(effects)@) + seq![
                EffectView::SpawnPane {
                    pane_id: new_pane_id,
                    window_index: old(self)@.window_index,
                    cols: new_rect.width,
                    rows: new_rect.height,
                },
            ] + resize_effects(self@, self.layout.rects(pane_area)));
        }
    }

    /// Closes the pane `pane_id` (see `close_result`); returns whether the
    /// window keeps panes.
    pub fn close_pane(&mut self, pane_id: u32, pane_area: Rect, effects: &mut Vec<Effect>) -> (r: bool)
        requires
            close_layout_fits(old(self)@, pane_id, pane_area),
        ensures
            ({
                let (w, keep, es) = close_result(old(self)@, pane_id, pane_area);
                &&& final(self)@ == w
                &&& r == keep
                &&& effect_views(final(effects)@) == effect_views(old(effects)@) + es
            }),
    {
        let is_zoomed = match self.zoomed_pane_id {
            Some(z) => z == pane_id,
            None => false,
        };
        if is_zoomed {
            self.zoomed_pane_id = None;
        }
        if self.panes.len() <= 1 {
            proof {
                assert(effect_views(effects@) =~= effect_views(old(effects)@) + Seq::<EffectView>::empty());
            }
            return false;
        }
        let ghost w0 = self@;
        let removed = self.layout.remove_pane(pane_id);
        match removed {
            Some(remaining) => {
                let ghost before = effects@;
                match self.pane_index(pane_id) {
                    Some(i) => {
                        proof {
                            lemma_first_index(w0.pane_ids(), pane_id);
                            assert(w0.pane_ids()[i as int] == pane_id);
                            if first_index(w0.pane_ids(), pane_id) < i {
                                let f = first_index(w0.pane_ids(), pane_id);
                                assert(w0.panes[f].id == pane_id);
                            }
                            assert(first_index(w0.pane_ids(), pane_id) == i);
                        }
                        let _ = self.panes.remove(i);
                        effects.push(Effect::DropPane { pane_id });
                    },
                    None => {},
                }
                if self.active_pane_id == pane_id {
                    self.active_pane_id = remaining;
                }
                let ghost mid = effects@;
                let ghost res = close_result(old(self)@, pane_id, pane_area);
                let ghost w = res.0;
                let ghost es = res.2;
                proof {
                    assert(self@.panes =~= w.panes);
                    assert(self@ == w);
                    let dropped = if old(self)@.has_pane(pane_id) {
                        seq![EffectView::DropPane { pane_id }]
                    } else {
                        seq![]
                    };
                    assert(effect_views(mid) =~= effect_views(before) + dropped);
                }
                self.resize_all_panes(pane_area, effects);
                proof {
                    assert(effect_views(effects@) =~= effect_views(old(effects)@) + es);
                }
            },
            None => {
                proof {
                    assert(effect_views(effects@) =~= effect_views(old(effects)@) + Seq::<EffectView>::empty());
                }
            },
        }
        true
    }

    /// Moves the focus to the nearest pane in `direction` (see `focus_target`).
    pub fn move_focus(&mut self, direction: Direction, pane_area: Rect)
        requires
            old(self).layout.fits(pane_area),
            area_in_range(pane_area),
        ensures
            final(self)@ == (WindowView {
                active_pane_id: focus_target(old(self)@, direction, pane_area),
                ..old(self)@
            }),
    {
        if self.zoomed_pane_id.is_some() {
            return;
        }
        let rects = self.layout.compute_rects(pane_area);
        proof {
            lemma_rects_in_range(self.layout, pane_area);
        }
        let active = self.active_pane_id;
        let mut i: usize = 0;
        proof {
            assert(rects@.skip(0) =~= rects@);
        }
        while i < rects.len() && rects[i].0 != active
            invariant
                i <= rects@.len(),
                rect_of(rects@, active) == rect_of(rects@.skip(i as int), active),
            decreases rects.len() - i,
        {
            proof {
                assert(rects@.skip(i as int).drop_first() =~= rects@.skip(i + 1));
            }
            i = i + 1;
        }
        if i >= rects.len() {
            proof {
                assert(rects@.skip(i as int) =~= Seq::<(u32, Rect)>::empty());
            }
            return;
        }
        let a = rects[i].1;
        proof {
            assert(rects@.skip(i as int)[0] == rects@[i as int]);
            assert(rect_of(rects@, active) == Some(a));
        }
        let mut best: Option<(u32, i32)> = None;
        let mut j: usize = 0;
        proof {
            assert(rects@.take(0) =~= Seq::<(u32, Rect)>::empty());
        }
        while j < rects.len()
            invariant
                j <= rects@.len(),
                a == rects@[i as int].1,
                i < rects@.len(),
                forall|k: int| 0 <= k < rects@.len() ==> {
                    &&& (#[trigger] rects@[k]).1.x + rects@[k].1.width <= u16::MAX
                    &&& rects@[k].1.y + rects@[k].1.height <= u16::MAX
                },
                match best {
                    None => best_focus(rects@.take(j as int), active, a, direction) is None,
                    Some((id, d)) => best_focus(rects@.take(j as int), active, a, direction) == Some((id, d as int)),
                },
            decreases rects.len() - j,
        {
            let (id, r) = rects[j];
            proof {
                assert(rects@.take(j + 1).drop_last() =~= rects@.take(j as int));
                assert(rects@.take(j + 1).last() == rects@[j as int]);
                assert(a.x + a.width <= u16::MAX && a.y + a.height <= u16::MAX) by {
                    assert(rects@[i as int].1 == a);
                }
                assert(r.x + r.width <= u16::MAX && r.y + r.height <= u16::MAX) by {
                    assert(rects@[j as int].1 == r);
                }
            }
            if id != active {
                let h_overlap = r.x < a.x + a.width && r.x + r.width > a.x;
                let v_overlap = r.y < a.y + a.height && r.y + r.height > a.y;
                let (is_valid, distance) = match direction {
                    Direction::Up => (h_overlap && (r.y + r.height) <= a.y, a.y as i32 - (r.y + r.height) as i32),
                    Direction::Down => (h_overlap && r.y >= a.y + a.height, r.y as i32 - (a.y + a.height) as i32),
                    Direction::Left => (v_overlap && (r.x + r.width) <= a.x, a.x as i32 - (r.x + r.width) as i32),
                    Direction::Right => (v_overlap && r.x >= a.x + a.width, r.x as i32 - (a.x + a.width) as i32),
                };
                proof {
                    assert(is_valid ==> focus_distance(direction, a, r) == Some(distance as int));
                    assert(!is_valid ==> focus_distance(direction, a, r) is None);
                }
                let better = match best {
                    None => true,
                    Some((_, bd)) => distance < bd,
                };
                if is_valid && better {
                    best = Some((id, distance));
                }
            }
            j = j + 1;
        }
        proof {
            assert(rects@.take(j as int) =~= rects@);
        }
        if let Some((id, _)) = best {
            self.active_pane_id = id;
        }
    }

    /// Takes a resize step in `direction` around the active pane (see
    /// `resize_step`) and asks for the panes to be resized to their new
    /// areas; returns whether a border moved, the window being unchanged
    /// otherwise.
    pub fn resize_active_pane(&mut self, direction: Direction, pane_area: Rect, effects: &mut Vec<Effect>) -> (r: bool)
        requires
            old(self)@.wf(),
            pane_area.x + pane_area.width + old(self)@.layout.height() <= u16::MAX,
            pane_area.y + pane_area.height + old(self)@.layout.height() <= u16::MAX,
        ensures
            r == resize_step(old(self)@, direction, pane_area) is Some,
            r ==> Some(final(self)@) == resize_step(old(self)@, direction, pane_area),
            r ==> ({
                let axis = resize_axis(direction).0;
                &&& rect_of(old(self)@.layout.rects(pane_area), old(self).active_pane_id) matches Some(r1)
                &&& rect_of(final(self)@.layout.rects(pane_area), final(self).active_pane_id) matches Some(r2)
                &&& axis_len(r1, axis) != axis_len(r2, axis)
            }),
            r ==> effect_views(final(effects)@) == effect_views(old(effects)@) + resize_effects(
                final(self)@,
                final(self)@.layout.rects(pane_area),
            ),
            !r ==> final(self)@ == old(self)@ && final(effects)@ == old(effects)@,
    {
        let (axis, grow) = match direction {
            Direction::Left => (Split::Vertical, false),
            Direction::Right => (Split::Vertical, true),
            Direction::Up => (Split::Horizontal, false),
            Direction::Down => (Split::Horizontal, true),
        };
        let active = self.active_pane_id;
        proof {
            lemma_resize_keeps_wf(old(self)@, direction, pane_area);
            lemma_resize_step_moves_active(old(self)@, direction, pane_area);
            lemma_fits_when_bounded(self.layout, pane_area);
        }
        if self.layout.resize_pane(pane_area, active, axis, grow) {
            self.zoomed_pane_id = None;
            proof {
                lemma_fits_when_bounded(self.layout, pane_area);
            }
            self.resize_all_panes(pane_area, effects);
            true
        } else {
            false
        }
    }
}

} // verus!
