//! Text on a pane's screen: taking the text of a mouse selection.
use vstd::prelude::*;

use crate::layout::{sat_sub, Rect};
use crate::render::{is_selected, spec_is_selected};
use crate::text::{chars_to_string, str_to_chars, trim_end, trim_end_chars};

verus! {

/// The characters shown on a pane's screen: `cells[row][col]` is what the
/// cell holds (empty for a blank cell, several characters for a combined
/// character); positions beyond the vectors are off the screen.
pub struct ScreenGrid {
    pub cells: Vec<Vec<String>>,
}

impl ScreenGrid {
    /// What the cell at (`row`, `col`) holds, if it is on the screen.
    pub open spec fn spec_cell(self, row: int, col: int) -> Option<Seq<char>> {
        if 0 <= row < self.cells@.len() && 0 <= col < self.cells@[row]@.len() {
            Some(self.cells@[row]@[col]@)
        } else {
            None
        }
    }

    fn cell(&self, row: u16, col: u16) -> (r: Option<&String>)
        ensures
            r is Some <==> self.spec_cell(row as int, col as int) is Some,
            r matches Some(s) ==> self.spec_cell(row as int, col as int) == Some(s@),
    {
        let r = row as usize;
        let c = col as usize;
        if r < self.cells.len() && c < self.cells[r].len() {
            Some(&self.cells[r][c])
        } else {
            None
        }
    }
}

/// The number of terminal columns a string takes, as `unicode-width`
/// counts them (East Asian wide characters take two).
pub uninterp spec fn str_display_width(s: Seq<char>) -> nat;

/// `UnicodeWidthStr::width` of the `unicode-width` crate: the result is the
/// crate's table-driven column count, which is not spelled out here.
#[verifier::external_body]
fn display_width(s: &str) -> (r: usize)
    ensures
        r == str_display_width(s@),
{
    unicode_width::UnicodeWidthStr::width(s)
}

/// The column after a non-empty cell at `col` holding `s`: a cell wider
/// than one column covers the following columns too (its width is taken
/// modulo 65536, as a `u16`). `None` when the column would leave the `u16`
/// range.
pub open spec fn next_col(col: int, s: Seq<char>) -> Option<int> {
    let w = str_display_width(s);
    let last = if w > 1 {
        let t = (w % 65536) as int;
        if t == 0 { -1 } else { col + t - 1 }
    } else {
        col
    };
    if last < 0 || last >= 65535 {
        None
    } else {
        Some(last + 1)
    }
}

/// The text of row `row` from column `col` to column `c_end`: each cell's
/// characters (a space for a blank cell or one off the screen), skipping the
/// columns that a wide character covers. `None` when a column would leave
/// the `u16` range.
pub open spec fn scan_row(grid: ScreenGrid, row: int, col: int, c_end: int) -> Option<Seq<char>>
    decreases 65536 - col,
{
    if col > c_end || col < 0 || col > 65535 {
        Some(Seq::empty())
    } else {
        match grid.spec_cell(row, col) {
            Some(s) => if s.len() == 0 {
                if col >= 65535 {
                    None
                } else {
                    match scan_row(grid, row, col + 1, c_end) {
                        Some(rest) => Some(seq![' '] + rest),
                        None => None,
                    }
                }
            } else {
                match next_col(col, s) {
                    Some(n) => match scan_row(grid, row, n, c_end) {
                        Some(rest) => Some(s + rest),
                        None => None,
                    },
                    None => None,
                }
            },
            None => if col >= 65535 {
                None
            } else {
                match scan_row(grid, row, col + 1, c_end) {
                    Some(rest) => Some(seq![' '] + rest),
                    None => None,
                }
            },
        }
    }
}

/// `min(sat_sub(v, origin), sat_sub(size, 1))`: a screen coordinate made
/// relative to a pane and clamped to its last line or column.
pub open spec fn clamp_to_pane(v: u16, origin: u16, size: u16) -> int {
    let a = sat_sub(v as int, origin as int);
    let b = sat_sub(size as int, 1);
    if a <= b { a } else { b }
}

/// The selected lines from row `row` to row `r_end`, each without trailing
/// white space: the first from column `c_start`, the last up to column
/// `c_last_end`, the others whole (`0` to `full_end`).
pub open spec fn scan_rows(
    grid: ScreenGrid,
    row: int,
    r_start: int,
    r_end: int,
    c_start: int,
    c_last_end: int,
    full_end: int,
) -> Option<Seq<Seq<char>>>
    decreases r_end + 1 - row,
{
    if row > r_end {
        Some(Seq::empty())
    } else {
        let cs = if row == r_start { c_start } else { 0 };
        let ce = if row == r_end { c_last_end } else { full_end };
        match scan_row(grid, row, cs, ce) {
            Some(line) => match scan_rows(grid, row + 1, r_start, r_end, c_start, c_last_end, full_end) {
                Some(rest) => Some(seq![trim_end(line)] + rest),
                None => None,
            },
            None => None,
        }
    }
}

/// `lines` without the empty lines at its end.
pub open spec fn drop_trailing_empty(lines: Seq<Seq<char>>) -> Seq<Seq<char>>
    decreases lines.len(),
{
    if lines.len() > 0 && lines.last().len() == 0 {
        drop_trailing_empty(lines.drop_last())
    } else {
        lines
    }
}

/// `lines` joined with `sep` between them.
pub open spec fn join_lines(lines: Seq<Seq<char>>, sep: char) -> Seq<char>
    decreases lines.len(),
{
    if lines.len() == 0 {
        Seq::empty()
    } else if lines.len() == 1 {
        lines[0]
    } else {
        join_lines(lines.drop_last(), sep) + seq![sep] + lines.last()
    }
}

/// The text selected from (`sc`, `sr`) to (`ec`, `er`) (screen positions,
/// in reading order) in a pane of `pane_cols` x `pane_rows` shown at `rect`:
/// the positions are made relative to the pane and clamped into it, each
/// row's text is taken (see `scan_rows`), trailing empty lines are dropped
/// and the lines are joined with newlines. `None` when a column would leave
/// the `u16` range.
pub open spec fn spec_selected_text(
    grid: ScreenGrid,
    pane_cols: u16,
    pane_rows: u16,
    rect: Rect,
    sc: u16,
    sr: u16,
    ec: u16,
    er: u16,
) -> Option<Seq<char>> {
    let r_start = clamp_to_pane(sr, rect.y, pane_rows);
    let r_end = clamp_to_pane(er, rect.y, pane_rows);
    match scan_rows(
        grid,
        r_start,
        r_start,
        r_end,
        clamp_to_pane(sc, rect.x, pane_cols),
        clamp_to_pane(ec, rect.x, pane_cols),
        sat_sub(pane_cols as int, 1),
    ) {
        Some(lines) => Some(join_lines(drop_trailing_empty(lines), '\n')),
        None => None,
    }
}


fn push_chars(v: &mut Vec<char>, s: &String)
    ensures
        final(v)@ == old(v)@ + s@,
{
    let cs = str_to_chars(s.as_str());
    let mut i: usize = 0;
    while i < cs.len()
        invariant
            i <= cs@.len(),
            cs@ == s@,
            v@ == old(v)@ + cs@.take(i as int),
        decreases cs.len() - i,
    {
        v.push(cs[i]);
        i = i + 1;
        proof {
            assert(v@ =~= old(v)@ + cs@.take(i as int));
        }
    }
    proof {
        assert(cs@.take(i as int) =~= cs@);
    }
}

/// The column after the non-empty cell at `col` holding `s` (see `next_col`).
fn next_col_exec(col: u32, s: &String) -> (r: Option<u32>)
    requires
        col <= 65535,
    ensures
        r matches Some(n) ==> next_col(col as int, s@) == Some(n as int),
        r is None ==> next_col(col as int, s@) is None,
{
    let w = display_width(s.as_str());
    let last: u64 = if w > 1 {
        let t = (w % 65536) as u64;
        if t == 0 {
            return None;
        }
        col as u64 + t - 1
    } else {
        col as u64
    };
    if last >= 65535 {
        return None;
    }
    Some((last + 1) as u32)
}

/// Whether the text of row `row` from `c_start` to `c_end` can be taken
/// without a column leaving the `u16` range.
fn scan_row_fits(grid: &ScreenGrid, row: u16, c_start: u32, c_end: u32) -> (r: bool)
    requires
        c_start <= 65535,
        c_end <= 65535,
    ensures
        r == scan_row(*grid, row as int, c_start as int, c_end as int) is Some,
{
    let mut col: u32 = c_start;
    while col <= c_end
        invariant
            col <= 65536,
            c_end <= 65535,
            scan_row(*grid, row as int, c_start as int, c_end as int) is Some <==> scan_row(*grid, row as int, col as int, c_end as int) is Some,
        decreases 65536 - col,
    {
        match grid.cell(row, col as u16) {
            Some(s) => {
                if s.as_str().is_empty() {
                    if col >= 65535 {
                        return false;
                    }
                    col = col + 1;
                } else {
                    match next_col_exec(col, s) {
                        Some(n) => {
                            col = n;
                        },
                        None => {
                            return false;
                        },
                    }
                }
            },
            None => {
                if col >= 65535 {
                    return false;
                }
                col = col + 1;
            },
        }
    }
    true
}

/// The text of row `row` from `c_start` to `c_end` (see `scan_row`).
fn scan_row_text(grid: &ScreenGrid, row: u16, c_start: u32, c_end: u32) -> (r: Vec<char>)
    requires
        c_start <= 65535,
        c_end <= 65535,
        scan_row(*grid, row as int, c_start as int, c_end as int) is Some,
    ensures
        Some(r@) == scan_row(*grid, row as int, c_start as int, c_end as int),
{
    let mut acc: Vec<char> = Vec::new();
    let mut col: u32 = c_start;
    while col <= c_end
        invariant
            col <= 65536,
            c_end <= 65535,
            scan_row(*grid, row as int, col as int, c_end as int) is Some,
            scan_row(*grid, row as int, c_start as int, c_end as int) == Some(
                acc@ + scan_row(*grid, row as int, col as int, c_end as int).unwrap(),
            ),
        decreases 65536 - col,
    {
        let ghost acc0 = acc@;
        match grid.cell(row, col as u16) {
            Some(s) => {
                if s.as_str().is_empty() {
                    acc.push(' ');
                    col = col + 1;
                    proof {
                        assert(acc@ =~= acc0 + seq![' ']);
                    }
                } else {
                    push_chars(&mut acc, s);
                    match next_col_exec(col, s) {
                        Some(n) => {
                            col = n;
                        },
                        None => {
                            col = 65536;
                        },
                    }
                }
            },
            None => {
                acc.push(' ');
                col = col + 1;
                proof {
                    assert(acc@ =~= acc0 + seq![' ']);
                }
            },
        }
    }
    proof {
        assert(acc@ + Seq::<char>::empty() =~= acc@);
    }
    acc
}

fn clamp_exec(v: u16, origin: u16, size: u16) -> (r: u16)
    ensures
        r == clamp_to_pane(v, origin, size),
{
    let a = v.saturating_sub(origin);
    let b = size.saturating_sub(1);
    if a <= b {
        a
    } else {
        b
    }
}

/// Whether the text selected from (`sc`, `sr`) to (`ec`, `er`) can be taken
/// without a column leaving the `u16` range (see `spec_selected_text`).
pub fn selection_fits(
    grid: &ScreenGrid,
    pane_cols: u16,
    pane_rows: u16,
    rect: Rect,
    sc: u16,
    sr: u16,
    ec: u16,
    er: u16,
) -> (r: bool)
    ensures
        r == spec_selected_text(*grid, pane_cols, pane_rows, rect, sc, sr, ec, er) is Some,
{
    let r_start = clamp_exec(sr, rect.y, pane_rows);
    let r_end = clamp_exec(er, rect.y, pane_rows);
    let c_start = clamp_exec(sc, rect.x, pane_cols);
    let c_last = clamp_exec(ec, rect.x, pane_cols);
    let full_end = pane_cols.saturating_sub(1);
    let mut row: u32 = r_start as u32;
    while row <= r_end as u32
        invariant
            r_start <= 65535,
            r_end <= 65535,
            r_start == clamp_to_pane(sr, rect.y, pane_rows),
            r_end == clamp_to_pane(er, rect.y, pane_rows),
            c_start == clamp_to_pane(sc, rect.x, pane_cols),
            c_last == clamp_to_pane(ec, rect.x, pane_cols),
            full_end == sat_sub(pane_cols as int, 1),
            row >= r_start,
            row <= r_end + 1 || row == r_start,
            scan_rows(*grid, r_start as int, r_start as int, r_end as int, c_start as int, c_last as int, full_end as int) is Some
                <==> scan_rows(*grid, row as int, r_start as int, r_end as int, c_start as int, c_last as int, full_end as int) is Some,
        decreases r_end + 1 - row,
    {
        let cs: u32 = if row == r_start as u32 { c_start as u32 } else { 0 };
        let ce: u32 = if row == r_end as u32 { c_last as u32 } else { full_end as u32 };
        if !scan_row_fits(grid, row as u16, cs, ce) {
            proof {
                assert(scan_row(*grid, row as int, cs as int, ce as int) is None);
                assert(scan_rows(*grid, row as int, r_start as int, r_end as int, c_start as int, c_last as int, full_end as int) is None);
            }
            return false;
        }
        row = row + 1;
    }
    true
}

/// The text selected from (`sc`, `sr`) to (`ec`, `er`) in a pane shown at
/// `rect` (see `spec_selected_text`).
pub fn extract_text_from_pane(
    grid: &ScreenGrid,
    pane_cols: u16,
    pane_rows: u16,
    rect: Rect,
    sc: u16,
    sr: u16,
    ec: u16,
    er: u16,
) -> (r: String)
    requires
        spec_selected_text(*grid, pane_cols, pane_rows, rect, sc, sr, ec, er) is Some,
    ensures
        Some(r@) == spec_selected_text(*grid, pane_cols, pane_rows, rect, sc, sr, ec, er),
{
    let r_start = clamp_exec(sr, rect.y, pane_rows);
    let r_end = clamp_exec(er, rect.y, pane_rows);
    let c_start = clamp_exec(sc, rect.x, pane_cols);
    let c_last = clamp_exec(ec, rect.x, pane_cols);
    let full_end = pane_cols.saturating_sub(1);
    let ghost all = scan_rows(*grid, r_start as int, r_start as int, r_end as int, c_start as int, c_last as int, full_end as int);
    let mut lines: Vec<Vec<char>> = Vec::new();
    let mut row: u32 = r_start as u32;
    while row <= r_end as u32
        invariant
            r_start <= 65535,
            r_end <= 65535,
            row >= r_start,
            row <= r_end + 1 || row == r_start,
            all == scan_rows(*grid, r_start as int, r_start as int, r_end as int, c_start as int, c_last as int, full_end as int),
            scan_rows(*grid, row as int, r_start as int, r_end as int, c_start as int, c_last as int, full_end as int) is Some,
            all == Some(lines@.map_values(|l: Vec<char>| l@) + scan_rows(*grid, row as int, r_start as int, r_end as int, c_start as int, c_last as int, full_end as int).unwrap()),
        decreases r_end + 1 - row,
    {
        let cs: u32 = if row == r_start as u32 { c_start as u32 } else { 0 };
        let ce: u32 = if row == r_end as u32 { c_last as u32 } else { full_end as u32 };
        let line = scan_row_text(grid, row as u16, cs, ce);
        let trimmed = trim_end_chars(&line);
        let ghost before = lines@.map_values(|l: Vec<char>| l@);
        lines.push(trimmed);
        proof {
            assert(lines@.map_values(|l: Vec<char>| l@) =~= before.push(trimmed@));
            let rest = scan_rows(*grid, row + 1, r_start as int, r_end as int, c_start as int, c_last as int, full_end as int).unwrap();
            assert(before.push(trimmed@) + rest =~= before + (seq![trimmed@] + rest));
        }
        row = row + 1;
    }
    proof {
        assert(lines@.map_values(|l: Vec<char>| l@) + Seq::<Seq<char>>::empty() =~= lines@.map_values(|l: Vec<char>| l@));
    }
    let kept = drop_trailing_empty_lines(lines);
    let joined = join_with_newlines(&kept);
    chars_to_string(&joined)
}

fn drop_trailing_empty_lines(lines: Vec<Vec<char>>) -> (r: Vec<Vec<char>>)
    ensures
        r@.map_values(|l: Vec<char>| l@) == drop_trailing_empty(lines@.map_values(|l: Vec<char>| l@)),
{
    let mut lines = lines;
    let ghost orig = lines@.map_values(|l: Vec<char>| l@);
    while lines.len() > 0 && lines[lines.len() - 1].len() == 0
        invariant
            drop_trailing_empty(orig) == drop_trailing_empty(lines@.map_values(|l: Vec<char>| l@)),
        decreases lines.len(),
    {
        let ghost before = lines@.map_values(|l: Vec<char>| l@);
        let _ = lines.pop();
        proof {
            assert(lines@.map_values(|l: Vec<char>| l@) =~= before.drop_last());
        }
    }
    lines
}

fn join_with_newlines(lines: &Vec<Vec<char>>) -> (r: Vec<char>)
    ensures
        r@ == join_lines(lines@.map_values(|l: Vec<char>| l@), '\n'),
{
    let ghost ls = lines@.map_values(|l: Vec<char>| l@);
    let mut out: Vec<char> = Vec::new();
    let mut i: usize = 0;
    while i < lines.len()
        invariant
            ls == lines@.map_values(|l: Vec<char>| l@),
            i <= lines@.len(),
            out@ == join_lines(ls.take(i as int), '\n'),
        decreases lines.len() - i,
    {
        let ghost before = out@;
        if i > 0 {
            out.push('\n');
        }
        let mut j: usize = 0;
        let ghost mid = out@;
        while j < lines[i].len()
            invariant
                i < lines@.len(),
                j <= lines@[i as int]@.len(),
                out@ == mid + lines@[i as int]@.take(j as int),
            decreases lines@[i as int]@.len() - j,
        {
            out.push(lines[i][j]);
            j = j + 1;
            proof {
                assert(out@ =~= mid + lines@[i as int]@.take(j as int));
            }
        }
        proof {
            assert(lines@[i as int]@.take(j as int) =~= ls[i as int]);
            assert(ls.take(i + 1).drop_last() =~= ls.take(i as int));
            if i == 0 {
                assert(ls.take(1) =~= seq![ls[0]]);
            }
            assert(out@ =~= join_lines(ls.take(i + 1), '\n'));
        }
        i = i + 1;
    }
    proof {
        assert(ls.take(i as int) =~= ls);
    }
    out
}

/// The text selected from (`sc`, `sr`) to (`ec`, `er`) in a pane shown at
/// `rect`, or `None` when taking it would make a column leave the `u16` range.
pub fn try_extract_text(
    grid: &ScreenGrid,
    pane_cols: u16,
    pane_rows: u16,
    rect: Rect,
    sc: u16,
    sr: u16,
    ec: u16,
    er: u16,
) -> (r: Option<String>)
    ensures
        r matches Some(t) ==> Some(t@) == spec_selected_text(*grid, pane_cols, pane_rows, rect, sc, sr, ec, er),
        r is None ==> spec_selected_text(*grid, pane_cols, pane_rows, rect, sc, sr, ec, er) is None,
{
    if selection_fits(grid, pane_cols, pane_rows, rect, sc, sr, ec, er) {
        Some(extract_text_from_pane(grid, pane_cols, pane_rows, rect, sc, sr, ec, er))
    } else {
        None
    }
}

/// What a screen cell holds when it is drawn.
#[derive(Debug, Clone, Copy, PartialEq, Eq, Structural)]
pub enum CellContent {
    /// Characters, drawn with the cell's colours and attributes.
    Text,
    /// An empty cell: a space with the cell's colours.
    Empty,
    /// No cell on the pane's screen: a plain space.
    Missing,
}

/// One cell of a pane drawn on the screen: its column in the pane, what it
/// holds, and whether it lies in the selection (drawn inverted).
#[derive(Debug, Clone, Copy, PartialEq, Eq, Structural)]
pub struct CellDraw {
    pub col: u16,
    pub content: CellContent,
    pub selected: bool,
}

/// How one row of a pane is drawn: its cells from the left, then `pad`
/// spaces up to the right edge of the pane's area.
#[derive(Debug)]
pub struct RowPlan {
    pub cells: Vec<CellDraw>,
    pub pad: u16,
}

/// What the cell at (`row`, `col`) holds.
pub open spec fn cell_content(grid: ScreenGrid, row: int, col: int) -> CellContent {
    match grid.spec_cell(row, col) {
        Some(s) => if s.len() == 0 {
            CellContent::Empty
        } else {
            CellContent::Text
        },
        None => CellContent::Missing,
    }
}

/// How the cell at column `c` of row `row` of a pane shown at `rect` is
/// drawn.
pub open spec fn cell_draw(
    grid: ScreenGrid,
    rect: Rect,
    row: int,
    selection: Option<(u16, u16, u16, u16)>,
    c: int,
) -> CellDraw {
    CellDraw {
        col: c as u16,
        content: cell_content(grid, row, c),
        selected: spec_is_selected(selection, (rect.x + c) as u16, (rect.y + row) as u16),
    }
}

/// `(cols, end)` with `col` in front of `cols`.
pub open spec fn walk_cons(col: int, rest: Option<(Seq<int>, int)>) -> Option<(Seq<int>, int)> {
    match rest {
        Some((cols, end)) => Some((seq![col] + cols, end)),
        None => None,
    }
}

/// The columns of row `row` drawn from `col` on while below `limit` (a
/// cell wider than one column covers the following columns, which are not
/// drawn), and the column where drawing stops. `None` when a column would
/// leave the `u16` range.
pub open spec fn row_walk(grid: ScreenGrid, row: int, col: int, limit: int) -> Option<(Seq<int>, int)>
    decreases 65536 - col,
{
    if col >= limit || col < 0 || col > 65535 {
        Some((Seq::empty(), col))
    } else {
        match grid.spec_cell(row, col) {
            Some(s) => if s.len() == 0 {
                if col >= 65535 {
                    None
                } else {
                    walk_cons(col, row_walk(grid, row, col + 1, limit))
                }
            } else {
                match next_col(col, s) {
                    Some(n) => walk_cons(col, row_walk(grid, row, n, limit)),
                    None => None,
                }
            },
            None => if col >= 65535 {
                None
            } else {
                walk_cons(col, row_walk(grid, row, col + 1, limit))
            },
        }
    }
}

/// How row `row` of a pane of `pane_cols` x `pane_rows` shown at `rect` is
/// drawn: on a row of the pane's screen, the cells from column 0 while
/// inside both the area and the pane, each marked when the selection holds
/// its screen position, then spaces to the area's right edge; below the
/// pane's screen, spaces only. `None` when a column would leave the `u16`
/// range.
pub open spec fn spec_row_plan(
    grid: ScreenGrid,
    pane_cols: u16,
    pane_rows: u16,
    rect: Rect,
    row: int,
    selection: Option<(u16, u16, u16, u16)>,
) -> Option<(Seq<CellDraw>, u16)> {
    if row < pane_rows {
        let limit = if rect.width <= pane_cols { rect.width } else { pane_cols };
        match row_walk(grid, row, 0, limit as int) {
            Some((cols, end)) => Some(
                (
                    cols.map_values(|c: int| cell_draw(grid, rect, row, selection, c)),
                    sat_sub(rect.width as int, end) as u16,
                ),
            ),
            None => None,
        }
    } else {
        Some((Seq::empty(), rect.width))
    }
}

/// Whether every row of the pane's area can be planned (see `spec_row_plan`).
pub open spec fn pane_plan_ok(
    grid: ScreenGrid,
    pane_cols: u16,
    pane_rows: u16,
    rect: Rect,
    selection: Option<(u16, u16, u16, u16)>,
) -> bool {
    forall|row: int| 0 <= row < rect.height ==> #[trigger] spec_row_plan(grid, pane_cols, pane_rows, rect, row, selection) is Some
}

/// How row `row` of a pane is drawn (see `spec_row_plan`).
fn plan_row(
    grid: &ScreenGrid,
    pane_cols: u16,
    pane_rows: u16,
    rect: Rect,
    row: u16,
    selection: Option<(u16, u16, u16, u16)>,
) -> (r: Option<RowPlan>)
    requires
        rect.x + rect.width <= u16::MAX,
        rect.y + rect.height <= u16::MAX,
        row < rect.height,
    ensures
        r is None <==> spec_row_plan(*grid, pane_cols, pane_rows, rect, row as int, selection) is None,
        r matches Some(p) ==> spec_row_plan(*grid, pane_cols, pane_rows, rect, row as int, selection) == Some(
            (p.cells@, p.pad),
        ),
{
    if row >= pane_rows {
        return Some(RowPlan { cells: Vec::new(), pad: rect.width });
    }
    let limit: u32 = if rect.width <= pane_cols {
        rect.width as u32
    } else {
        pane_cols as u32
    };
    let ghost whole = row_walk(*grid, row as int, 0, limit as int);
    let ghost mut visited: Seq<int> = Seq::empty();
    let mut cells: Vec<CellDraw> = Vec::new();
    let mut col: u32 = 0;
    while col < limit
        invariant
            limit <= rect.width,
            limit <= 65535,
            limit == (if rect.width <= pane_cols { rect.width } else { pane_cols }),
            col <= limit || (col <= 65535 && !(col < limit)),
            rect.x + rect.width <= u16::MAX,
            rect.y + rect.height <= u16::MAX,
            row < rect.height,
            row < pane_rows,
            whole == row_walk(*grid, row as int, 0, limit as int),
            cells@.len() == visited.len(),
            forall|i: int| 0 <= i < visited.len() ==> #[trigger] cells@[i] == cell_draw(*grid, rect, row as int, selection, visited[i]),
            whole == match row_walk(*grid, row as int, col as int, limit as int) {
                Some((rest, end)) => Some((visited + rest, end)),
                None => None::<(Seq<int>, int)>,
            },
        decreases 65536 - col,
    {
        let ghost rest = row_walk(*grid, row as int, col as int, limit as int);
        let sel = is_selected(selection, rect.x + col as u16, rect.y + row);
        let next: u32;
        match grid.cell(row, col as u16) {
            Some(s) => {
                if s.as_str().is_empty() {
                    cells.push(CellDraw { col: col as u16, content: CellContent::Empty, selected: sel });
                    next = col + 1;
                } else {
                    cells.push(CellDraw { col: col as u16, content: CellContent::Text, selected: sel });
                    match next_col_exec(col, s) {
                        Some(n) => {
                            next = n;
                        },
                        None => {
                            proof {
                                assert(rest is None);
                                assert(spec_row_plan(*grid, pane_cols, pane_rows, rect, row as int, selection) is None);
                            }
                            return None;
                        },
                    }
                }
            },
            None => {
                cells.push(CellDraw { col: col as u16, content: CellContent::Missing, selected: sel });
                next = col + 1;
            },
        }
        proof {
            let r2 = row_walk(*grid, row as int, next as int, limit as int);
            assert(rest == walk_cons(col as int, r2));
            let v2 = visited.push(col as int);
            assert((col as u16) as int == col as int);
            assert(cells@.last() == cell_draw(*grid, rect, row as int, selection, col as int));
            assert forall|i: int| 0 <= i < v2.len() implies #[trigger] cells@[i] == cell_draw(*grid, rect, row as int, selection, v2[i]) by {
                if i < visited.len() {
                    assert(v2[i] == visited[i]);
                }
            }
            if let Some((rr, e)) = r2 {
                assert(visited + (seq![col as int] + rr) =~= v2 + rr);
            }
            visited = v2;
        }
        col = next;
    }
    proof {
        assert(row_walk(*grid, row as int, col as int, limit as int) == Some((Seq::<int>::empty(), col as int)));
        assert(visited + Seq::<int>::empty() =~= visited);
        assert(cells@ =~= visited.map_values(|c: int| cell_draw(*grid, rect, row as int, selection, c)));
    }
    let pad: u16 = if (col as u16) < rect.width {
        rect.width - col as u16
    } else {
        0
    };
    Some(RowPlan { cells, pad })
}

/// How each row of a pane of `pane_cols` x `pane_rows` shown at `rect` is
/// drawn, from the top (see `spec_row_plan`); `None` when some row cannot be
/// planned without a column leaving the `u16` range.
pub fn plan_pane(
    grid: &ScreenGrid,
    pane_cols: u16,
    pane_rows: u16,
    rect: Rect,
    selection: Option<(u16, u16, u16, u16)>,
) -> (r: Option<Vec<RowPlan>>)
    requires
        rect.x + rect.width <= u16::MAX,
        rect.y + rect.height <= u16::MAX,
    ensures
        r is Some <==> pane_plan_ok(*grid, pane_cols, pane_rows, rect, selection),
        r matches Some(rows) ==> {
            &&& rows@.len() == rect.height
            &&& forall|i: int|
                0 <= i < rows@.len() ==> spec_row_plan(*grid, pane_cols, pane_rows, rect, i, selection) == Some(
                    (#[trigger] rows@[i].cells@, rows@[i].pad),
                )
        },
{
    let mut rows: Vec<RowPlan> = Vec::new();
    let mut row: u16 = 0;
    while row < rect.height
        invariant
            rect.x + rect.width <= u16::MAX,
            rect.y + rect.height <= u16::MAX,
            row <= rect.height,
            rows@.len() == row,
            forall|i: int|
                0 <= i < row ==> spec_row_plan(*grid, pane_cols, pane_rows, rect, i, selection) == Some(
                    (#[trigger] rows@[i].cells@, rows@[i].pad),
                ),
        decreases rect.height - row,
    {
        match plan_row(grid, pane_cols, pane_rows, rect, row, selection) {
            Some(p) => {
                rows.push(p);
            },
            None => {
                return None;
            },
        }
        row = row + 1;
    }
    proof {
        assert forall|i: int| 0 <= i < rect.height implies #[trigger] spec_row_plan(*grid, pane_cols, pane_rows, rect, i, selection) is Some by {
            assert(spec_row_plan(*grid, pane_cols, pane_rows, rect, i, selection) == Some((rows@[i].cells@, rows@[i].pad)));
        }
    }
    Some(rows)
}

} // verus!
