//! What the screen shows: selected cells, the style of each border cell,
//! where the cursor goes and where the toast message goes.
use vstd::prelude::*;
use vstd::string::StringExecFns;

use crate::app::{lemma_fits_pane_area, reads_before_or_at, spec_pane_area, App};
use crate::layout::{
    border_in_range, first_index, lemma_borders_in_range, lemma_first_index, lemma_rects_in_range, sat_sub,
    Border, Rect, Split,
};
use crate::window::{rect_of, Window, WindowView};

verus! {

/// Whether the screen cell (`col`, `row`) lies within the normalized
/// selection (start column, start row, end column, end row), ends included.
pub open spec fn spec_is_selected(selection: Option<(u16, u16, u16, u16)>, col: u16, row: u16) -> bool {
    match selection {
        None => false,
        Some((sc, sr, ec, er)) => reads_before_or_at(sc, sr, col, row) && reads_before_or_at(col, row, ec, er),
    }
}

/// Whether the screen cell (`col`, `row`) is selected.
pub fn is_selected(selection: Option<(u16, u16, u16, u16)>, screen_col: u16, screen_row: u16) -> (r: bool)
    ensures
        r == spec_is_selected(selection, screen_col, screen_row),
{
    let (sc, sr, ec, er) = match selection {
        Some(s) => s,
        None => return false,
    };
    if screen_row < sr || screen_row > er {
        return false;
    }
    if screen_row == sr && screen_row == er {
        return screen_col >= sc && screen_col <= ec;
    }
    if screen_row == sr {
        return screen_col >= sc;
    }
    if screen_row == er {
        return screen_col <= ec;
    }
    true
}

/// How a border cell is drawn: marked for a pending notification of a pane
/// beside it, highlighted beside the active pane, or plain.
#[derive(Debug, Clone, Copy, PartialEq, Eq, Structural)]
pub enum BorderStyle {
    Notified,
    Active,
    Plain,
}

/// Whether the pane area `r` lies along `border` (right beside or right
/// after it) and covers its `i`-th cell.
pub open spec fn borders_cell(r: Rect, border: Border, i: u16) -> bool {
    match border.orientation {
        Split::Vertical => {
            let by = border.y + i;
            (r.x + r.width == border.x || r.x == border.x + 1) && by >= r.y && by < r.y + r.height
        },
        Split::Horizontal => {
            let bx = border.x + i;
            (r.y + r.height == border.y || r.y == border.y + 1) && bx >= r.x && bx < r.x + r.width
        },
    }
}

/// Whether the pane `id` of the window has a pending notification.
pub open spec fn pane_notified(w: WindowView, id: u32) -> bool {
    w.has_pane(id) && w.panes[first_index(w.pane_ids(), id)].has_notification
}

/// The style of the `i`-th cell of `border`, with the panes laid out at
/// `rects`: `Notified` when a pane other than the active one, with a pending
/// notification, lies along that cell; otherwise `Active` when the active
/// pane does; otherwise `Plain`.
pub open spec fn spec_border_style(w: WindowView, rects: Seq<(u32, Rect)>, border: Border, i: u16) -> BorderStyle {
    if exists|k: int|
        0 <= k < rects.len() && rects[k].0 != w.active_pane_id && borders_cell(rects[k].1, border, i)
            && pane_notified(w, rects[k].0) {
        BorderStyle::Notified
    } else if rect_of(rects, w.active_pane_id) matches Some(a) && borders_cell(a, border, i) {
        BorderStyle::Active
    } else {
        BorderStyle::Plain
    }
}

/// Whether the `i`-th cell of `border`, and the line just past the border,
/// stay in the `u16` range.
pub open spec fn cell_in_range(border: Border, i: u16) -> bool {
    match border.orientation {
        Split::Vertical => border.x + 1 <= u16::MAX && border.y + i <= u16::MAX,
        Split::Horizontal => border.y + 1 <= u16::MAX && border.x + i <= u16::MAX,
    }
}

fn borders_cell_exec(r: Rect, border: Border, i: u16) -> (b: bool)
    requires
        r.x + r.width <= u16::MAX,
        r.y + r.height <= u16::MAX,
        cell_in_range(border, i),
    ensures
        b == borders_cell(r, border, i),
{
    match border.orientation {
        Split::Vertical => {
            let by = border.y + i;
            (r.x + r.width == border.x || r.x == border.x + 1) && by >= r.y && by < r.y + r.height
        },
        Split::Horizontal => {
            let bx = border.x + i;
            (r.y + r.height == border.y || r.y == border.y + 1) && bx >= r.x && bx < r.x + r.width
        },
    }
}

/// The style of the `i`-th cell of `border` (see `spec_border_style`).
pub fn border_cell_style(window: &Window, rects: &Vec<(u32, Rect)>, border: Border, i: u16) -> (r: BorderStyle)
    requires
        forall|k: int| 0 <= k < rects@.len() ==> {
            &&& (#[trigger] rects@[k]).1.x + rects@[k].1.width <= u16::MAX
            &&& rects@[k].1.y + rects@[k].1.height <= u16::MAX
        },
        cell_in_range(border, i),
    ensures
        r == spec_border_style(window@, rects@, border, i),
{
    let active = window.active_pane_id;
    let mut notified = false;
    let mut k: usize = 0;
    while k < rects.len()
        invariant
            k <= rects@.len(),
            active == window@.active_pane_id,
            forall|j: int| 0 <= j < rects@.len() ==> {
                &&& (#[trigger] rects@[j]).1.x + rects@[j].1.width <= u16::MAX
                &&& rects@[j].1.y + rects@[j].1.height <= u16::MAX
            },
            cell_in_range(border, i),
            notified <==> exists|j: int|
                0 <= j < k && rects@[j].0 != active && borders_cell(rects@[j].1, border, i) && pane_notified(window@, rects@[j].0),
        decreases rects.len() - k,
    {
        let (id, rect) = rects[k];
        if id != active && borders_cell_exec(rect, border, i) {
            match window.pane_index(id) {
                Some(p) => {
                    proof {
                        lemma_first_index(window@.pane_ids(), id);
                        let f = first_index(window@.pane_ids(), id);
                        assert(window@.pane_ids()[p as int] == id);
                        if f < p {
                            assert(window@.panes[f].id == id);
                        }
                        if p < f {
                            assert(window@.pane_ids()[p as int] == id);
                        }
                        assert(f == p);
                    }
                    if window.panes[p].has_notification {
                        notified = true;
                    }
                },
                None => {},
            }
        }
        k = k + 1;
    }
    if notified {
        return BorderStyle::Notified;
    }
    let mut a: usize = 0;
    proof {
        assert(rects@.skip(0) =~= rects@);
    }
    while a < rects.len() && rects[a].0 != active
        invariant
            a <= rects@.len(),
            rect_of(rects@, active) == rect_of(rects@.skip(a as int), active),
        decreases rects.len() - a,
    {
        proof {
            assert(rects@.skip(a as int).drop_first() =~= rects@.skip(a + 1));
        }
        a = a + 1;
    }
    if a < rects.len() {
        proof {
            assert(rects@.skip(a as int)[0] == rects@[a as int]);
        }
        if borders_cell_exec(rects[a].1, border, i) {
            return BorderStyle::Active;
        }
    } else {
        proof {
            assert(rects@.skip(a as int) =~= Seq::<(u32, Rect)>::empty());
        }
    }
    BorderStyle::Plain
}

/// Where the cursor of a pane shown at `rect` appears on the screen, for a
/// cursor at (`cursor_row`, `cursor_col`) of the pane's screen; `None` when
/// that falls outside `rect` (the cursor is then not shown).
pub fn cursor_cell(rect: Rect, cursor_row: u16, cursor_col: u16) -> (r: Option<(u16, u16)>)
    requires
        rect.x + cursor_col <= u16::MAX,
        rect.y + cursor_row <= u16::MAX,
        rect.x + rect.width <= u16::MAX,
        rect.y + rect.height <= u16::MAX,
    ensures
        r == (if cursor_col < rect.width && cursor_row < rect.height {
            Some(((rect.x + cursor_col) as u16, (rect.y + cursor_row) as u16))
        } else {
            None::<(u16, u16)>
        }),
{
    let cx = rect.x + cursor_col;
    let cy = rect.y + cursor_row;
    if cx < rect.x + rect.width && cy < rect.y + rect.height {
        Some((cx, cy))
    } else {
        None
    }
}

/// Where a toast message goes: the message padded with a space on each
/// side, in the bottom right corner, one column from the right edge and on
/// the second line from the bottom. The width is the padded message's byte
/// length, taken as a `u16`.
pub open spec fn spec_toast_width(msg: Seq<char>) -> int {
    ((vstd::utf8::encode_utf8(msg).len() + 2) % 65536) as int
}

/// The position (column, row) and text of a toast message on a terminal of
/// `cols` x `rows`.
pub fn toast_layout(msg: &str, term_cols: u16, term_rows: u16) -> (r: (u16, u16, String))
    requires
        spec_toast_width(msg@) < u16::MAX,
    ensures
        r.0 == sat_sub(term_cols as int, spec_toast_width(msg@) + 1),
        r.1 == sat_sub(term_rows as int, 2),
        r.2@ == seq![' '] + msg@ + seq![' '],
{
    proof {
        reveal_strlit(" ");
    }
    let mut padded = String::from_str(" ");
    padded.append(msg);
    padded.append(" ");
    let len = msg.as_bytes().len();
    let width: u16 = (((len % 65536) + 2) % 65536) as u16;
    assert(width == spec_toast_width(msg@));
    let x = term_cols.saturating_sub(width + 1);
    let y = term_rows.saturating_sub(2);
    (x, y, padded)
}

/// One cell of a border between panes: where it is, which way its border
/// runs, and how it is drawn.
#[derive(Debug, Clone, Copy, PartialEq, Eq, Structural)]
pub struct BorderCell {
    pub x: u16,
    pub y: u16,
    pub orientation: Split,
    pub style: BorderStyle,
}

/// The `i`-th cell of `b`, counted from its top or left end.
pub open spec fn border_cell(w: WindowView, rects: Seq<(u32, Rect)>, b: Border, i: int) -> BorderCell {
    match b.orientation {
        Split::Vertical => BorderCell {
            x: b.x,
            y: (b.y + i) as u16,
            orientation: Split::Vertical,
            style: spec_border_style(w, rects, b, i as u16),
        },
        Split::Horizontal => BorderCell {
            x: (b.x + i) as u16,
            y: b.y,
            orientation: Split::Horizontal,
            style: spec_border_style(w, rects, b, i as u16),
        },
    }
}

/// Every cell of `borders`, border after border, each from its start.
pub open spec fn border_cells(w: WindowView, rects: Seq<(u32, Rect)>, borders: Seq<Border>) -> Seq<BorderCell>
    decreases borders.len(),
{
    if borders.len() == 0 {
        seq![]
    } else {
        border_cells(w, rects, borders.drop_last()) + Seq::new(
            borders.last().length as nat,
            |i: int| border_cell(w, rects, borders.last(), i),
        )
    }
}

/// Every cell of `borders` with its style (see `border_cells`), for the
/// panes of `window` laid out at `rects`.
pub fn plan_border_cells(window: &Window, rects: &Vec<(u32, Rect)>, borders: &Vec<Border>) -> (r: Vec<BorderCell>)
    requires
        forall|k: int| 0 <= k < rects@.len() ==> {
            &&& (#[trigger] rects@[k]).1.x + rects@[k].1.width <= u16::MAX
            &&& rects@[k].1.y + rects@[k].1.height <= u16::MAX
        },
        forall|k: int| 0 <= k < borders@.len() ==> border_in_range(#[trigger] borders@[k]),
    ensures
        r@ == border_cells(window@, rects@, borders@),
{
    let mut out: Vec<BorderCell> = Vec::new();
    let mut k: usize = 0;
    while k < borders.len()
        invariant
            k <= borders@.len(),
            forall|j: int| 0 <= j < rects@.len() ==> {
                &&& (#[trigger] rects@[j]).1.x + rects@[j].1.width <= u16::MAX
                &&& rects@[j].1.y + rects@[j].1.height <= u16::MAX
            },
            forall|j: int| 0 <= j < borders@.len() ==> border_in_range(#[trigger] borders@[j]),
            out@ == border_cells(window@, rects@, borders@.take(k as int)),
        decreases borders.len() - k,
    {
        let b = borders[k];
        assert(border_in_range(borders@[k as int]));
        let ghost before = out@;
        let mut i: u16 = 0;
        while i < b.length
            invariant
                i <= b.length,
                k < borders@.len(),
                b == borders@[k as int],
                border_in_range(b),
                forall|j: int| 0 <= j < rects@.len() ==> {
                    &&& (#[trigger] rects@[j]).1.x + rects@[j].1.width <= u16::MAX
                    &&& rects@[j].1.y + rects@[j].1.height <= u16::MAX
                },
                before == border_cells(window@, rects@, borders@.take(k as int)),
                out@ == before + Seq::new(i as nat, |j: int| border_cell(window@, rects@, b, j)),
            decreases b.length - i,
        {
            let style = border_cell_style(window, rects, b, i);
            let cell = match b.orientation {
                Split::Vertical => BorderCell { x: b.x, y: b.y + i, orientation: Split::Vertical, style },
                Split::Horizontal => BorderCell { x: b.x + i, y: b.y, orientation: Split::Horizontal, style },
            };
            out.push(cell);
            i = i + 1;
            proof {
                assert(out@ =~= before + Seq::new(i as nat, |j: int| border_cell(window@, rects@, b, j)));
            }
        }
        proof {
            assert(borders@.take(k + 1).drop_last() =~= borders@.take(k as int));
            assert(borders@.take(k + 1).last() == b);
        }
        k = k + 1;
    }
    proof {
        assert(borders@.take(borders@.len() as int) =~= borders@);
    }
    out
}

/// The area of the first pane `id` among `rects` (see `rect_of`).
pub fn find_rect(rects: &Vec<(u32, Rect)>, id: u32) -> (r: Option<Rect>)
    ensures
        r == rect_of(rects@, id),
{
    let mut a: usize = 0;
    proof {
        assert(rects@.skip(0) =~= rects@);
    }
    while a < rects.len() && rects[a].0 != id
        invariant
            a <= rects@.len(),
            rect_of(rects@, id) == rect_of(rects@.skip(a as int), id),
        decreases rects.len() - a,
    {
        proof {
            assert(rects@.skip(a as int).drop_first() =~= rects@.skip(a + 1));
        }
        a = a + 1;
    }
    if a < rects.len() {
        proof {
            assert(rects@.skip(a as int)[0] == rects@[a as int]);
        }
        Some(rects[a].1)
    } else {
        proof {
            assert(rects@.skip(a as int) =~= Seq::<(u32, Rect)>::empty());
        }
        None
    }
}

/// What the screen shows besides the sidebar and the contents of the
/// panes: the area left to the panes, the panes to draw and where, the
/// cells of the borders between them, the pane whose cursor is shown and
/// where that pane is, the toast message placed on the screen, and the
/// selection in reading order.
pub struct Frame {
    pub pane_area: Rect,
    pub panes: Vec<(u32, Rect)>,
    pub borders: Vec<BorderCell>,
    pub cursor_pane: Option<(u32, Rect)>,
    pub toast: Option<(u16, u16, String)>,
    pub selection: Option<(u16, u16, u16, u16)>,
}

impl App {
    /// The frame to draw on a terminal of `cols` x `rows`. With a zoomed
    /// pane in the active window, that pane alone fills the pane area and
    /// has the cursor; otherwise every pane of the active window goes where
    /// its layout puts it, with the cells of the borders between panes, and
    /// the active pane has the cursor.
    pub fn frame(&self, cols: u16, rows: u16) -> (r: Frame)
        requires
            self@.wf(),
            self@.screen_ok(cols, rows),
            self@.toast matches Some(t) ==> spec_toast_width(t) < u16::MAX,
        ensures
            r.pane_area == spec_pane_area(self.sidebar, cols, rows),
            r.selection == (match self.selection {
                Some(s) => Some(s.spec_normalized()),
                None => None,
            }),
            self@.toast is Some <==> r.toast is Some,
            r.toast matches Some(t) ==> {
                &&& t.0 == sat_sub(cols as int, spec_toast_width(self@.toast->0) + 1)
                &&& t.1 == sat_sub(rows as int, 2)
                &&& t.2@ == seq![' '] + self@.toast->0 + seq![' ']
            },
            self@.active().zoomed_pane_id matches Some(z) ==> {
                &&& r.panes@ == seq![(z, r.pane_area)]
                &&& r.borders@.len() == 0
                &&& r.cursor_pane == Some((z, r.pane_area))
            },
            self@.active().zoomed_pane_id is None ==> {
                let w = self@.active();
                let rects = w.layout.rects(r.pane_area);
                &&& r.panes@ == rects
                &&& r.borders@ == border_cells(w, rects, w.layout.borders(r.pane_area))
                &&& r.cursor_pane == match rect_of(rects, w.active_pane_id) {
                    Some(a) => Some((w.active_pane_id, a)),
                    None => None,
                }
            },
    {
        let area = self.pane_area(cols, rows);
        let selection = match &self.selection {
            Some(s) => Some(s.normalized()),
            None => None,
        };
        let toast = match &self.toast {
            Some(t) => Some(toast_layout(t.as_str(), cols, rows)),
            None => None,
        };
        let idx = self.active_window_idx;
        let window = &self.windows[idx];
        proof {
            assert(self@.windows[idx as int] == window@);
            let l = window@.layout;
            assert(self@.screen_ok(cols, rows));
            assert(l.height() + 1 + (if cols >= self.sidebar.width { cols } else { self.sidebar.width })
                <= u16::MAX);
            lemma_fits_pane_area(l, self.sidebar, cols, rows);
        }
        match window.zoomed_pane_id {
            Some(z) => {
                let mut panes: Vec<(u32, Rect)> = Vec::new();
                panes.push((z, area));
                Frame { pane_area: area, panes, borders: Vec::new(), cursor_pane: Some((z, area)), toast, selection }
            },
            None => {
                let rects = window.layout.compute_rects(area);
                let borders = window.layout.compute_borders(area);
                proof {
                    lemma_rects_in_range(window@.layout, area);
                    lemma_borders_in_range(window@.layout, area);
                }
                let cells = plan_border_cells(window, &rects, &borders);
                let cursor_pane = match find_rect(&rects, window.active_pane_id) {
                    Some(a) => Some((window.active_pane_id, a)),
                    None => None,
                };
                Frame { pane_area: area, panes: rects, borders: cells, cursor_pane, toast, selection }
            },
        }
    }
}

} // verus!
