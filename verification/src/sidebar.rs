//! The sidebar on the left of the screen, listing the windows.
use vstd::prelude::*;

use crate::text::{chars_to_string, decimal, decimal_chars, str_to_chars};
use crate::window::Window;

verus! {

/// Width of the sidebar when it is shown, border included.
pub const SIDEBAR_WIDTH: u16 = 22;

/// Whether the sidebar is shown, and how wide it is.
#[derive(Debug, Clone, Copy, PartialEq, Eq, Structural)]
pub struct SidebarState {
    pub width: u16,
    pub collapsed: bool,
}

impl SidebarState {
    /// The sidebar shown, at its default width.
    pub open spec fn new_spec() -> Self {
        SidebarState { width: SIDEBAR_WIDTH, collapsed: false }
    }

    /// The sidebar shown, at its default width.
    pub fn new() -> (r: Self)
        ensures
            r == Self::new_spec(),
            r.width == SIDEBAR_WIDTH,
            !r.collapsed,
    {
        SidebarState { width: SIDEBAR_WIDTH, collapsed: false }
    }

    /// Columns the sidebar takes: none when collapsed.
    pub open spec fn spec_effective_width(self) -> u16 {
        if self.collapsed { 0 } else { self.width }
    }

    /// Columns the sidebar takes: none when collapsed.
    pub fn effective_width(&self) -> (r: u16)
        ensures
            r == self.spec_effective_width(),
    {
        if self.collapsed {
            0
        } else {
            self.width
        }
    }

    /// Shows the sidebar if it was collapsed, collapses it otherwise.
    pub fn toggle(&mut self)
        ensures
            final(self).collapsed == !old(self).collapsed,
            final(self).width == old(self).width,
    {
        self.collapsed = !self.collapsed;
    }
}

/// How a piece of the sidebar is drawn: the bold title, the dim rule under
/// it, the line of the active window (green, bold), that of a window with a
/// pending notification (yellow), that of another window, an empty line, or
/// the dim border on the right edge.
#[derive(Debug, Clone, Copy, PartialEq, Eq, Structural)]
pub enum SidebarStyle {
    Header,
    Separator,
    ActiveWindow,
    NotifiedWindow,
    Window,
    Blank,
    Border,
}

/// A piece of text that the sidebar puts on the screen, starting at
/// (`col`, `row`).
#[derive(Debug)]
pub struct SidebarText {
    pub col: u16,
    pub row: u16,
    pub style: SidebarStyle,
    pub text: String,
}

impl View for SidebarText {
    type V = (u16, u16, SidebarStyle, Seq<char>);

    open spec fn view(&self) -> (u16, u16, SidebarStyle, Seq<char>) {
        (self.col, self.row, self.style, self.text@)
    }
}

/// `n` copies of `c`.
pub open spec fn repeat(c: char, n: nat) -> Seq<char> {
    Seq::new(n, |_i: int| c)
}

/// The number of bytes of the UTF-8 encoding of `c`.
pub open spec fn char_utf8_len(c: char) -> nat {
    let u = c as u32;
    if u < 0x80 {
        1
    } else if u < 0x800 {
        2
    } else if u < 0x10000 {
        3
    } else {
        4
    }
}

/// The number of bytes of the UTF-8 encoding of `s` (`str::len`).
pub open spec fn utf8_len(s: Seq<char>) -> nat
    decreases s.len(),
{
    if s.len() == 0 {
        0
    } else {
        utf8_len(s.drop_last()) + char_utf8_len(s.last())
    }
}

/// Whether a line can be brought to `w` bytes: it is shorter, or its first
/// `w` bytes end on a character boundary.
pub open spec fn cut_ok(line: Seq<char>, w: nat) -> bool {
    ||| utf8_len(line) < w
    ||| exists|k: int| 0 <= k <= line.len() && utf8_len(line.take(k)) == w
}

/// A line brought to width `w`: padded with spaces to `w` characters when
/// it has fewer than `w` bytes, otherwise cut to its first `w` bytes.
pub open spec fn fit_line(line: Seq<char>, w: nat) -> Seq<char> {
    if utf8_len(line) < w {
        line + repeat(' ', (w - line.len()) as nat)
    } else {
        line.take(choose|k: int| 0 <= k <= line.len() && utf8_len(line.take(k)) == w)
    }
}

/// The title line of a sidebar `width` columns wide: a space, then `xmux`
/// centred in `width - 1` columns (an odd space goes to the right), cut to
/// `width` bytes.
pub open spec fn header_text(width: nat) -> Seq<char> {
    let w = width - 1;
    if w >= 4 {
        let pad = (w - 4) as nat;
        seq![' '] + repeat(' ', pad / 2) + seq!['x', 'm', 'u', 'x'] + repeat(' ', (pad - pad / 2) as nat)
    } else {
        seq![' ', 'x', 'm', 'u', 'x'].take(width as int)
    }
}

/// The marker in front of a window's number: `►` for the active window,
/// `●` for another window with a pending notification, a space otherwise.
pub open spec fn window_marker(active: bool, notified: bool) -> char {
    if active {
        '\u{25ba}'
    } else if notified {
        '\u{25cf}'
    } else {
        ' '
    }
}

/// The line of the window numbered `num` (from 1): its marker, the number,
/// the name, and the number of panes when there are several.
pub open spec fn window_line(active: bool, notified: bool, num: nat, name: Seq<char>, panes: nat) -> Seq<char> {
    seq![' ', window_marker(active, notified), ' '] + decimal(num) + seq![' '] + name + if panes > 1 {
        seq![' ', '['] + decimal(panes) + seq![']']
    } else {
        Seq::<char>::empty()
    }
}

/// The lines of the windows, unfitted, in order.
pub open spec fn window_lines(windows: Seq<Window>, names: Seq<Seq<char>>, active: int) -> Seq<Seq<char>> {
    Seq::new(
        windows.len(),
        |i: int|
            window_line(
                i == active,
                windows[i]@.has_notification,
                (i + 1) as nat,
                names[i],
                windows[i]@.panes.len(),
            ),
    )
}

/// How many window lines fit on a terminal `rows` high, below the title
/// and the rule.
pub open spec fn shown_windows(n: nat, rows: u16) -> nat {
    if rows <= 2 {
        0
    } else if n <= rows - 2 {
        n
    } else {
        (rows - 2) as nat
    }
}

/// How the line of a window is drawn.
pub open spec fn line_style(active: bool, notified: bool) -> SidebarStyle {
    if active {
        SidebarStyle::ActiveWindow
    } else if notified {
        SidebarStyle::NotifiedWindow
    } else {
        SidebarStyle::Window
    }
}

/// Which windows have a pending notification.
pub open spec fn notified_windows(windows: Seq<Window>) -> Seq<bool> {
    windows.map_values(|w: Window| w.has_notification)
}

impl SidebarState {
    /// What the sidebar draws on a terminal `rows` high: nothing when
    /// collapsed; otherwise the title on the first line, the rule on the
    /// second, one line per window as far as the terminal goes, blank lines
    /// below the list, and the border down the last column. Every line is
    /// `width - 1` columns wide. `None` when a window line would have to be
    /// cut inside a character.
    pub open spec fn spec_render(
        self,
        lines: Seq<Seq<char>>,
        notified: Seq<bool>,
        active: int,
        rows: u16,
    ) -> Option<Seq<(u16, u16, SidebarStyle, Seq<char>)>> {
        let w = (self.width - 1) as nat;
        let shown = shown_windows(lines.len(), rows);
        let list_end = 2 + lines.len();
        let blanks = if rows > list_end { (rows - list_end) as nat } else { 0 };
        if self.collapsed {
            Some(Seq::empty())
        } else if !(forall|i: int| 0 <= i < shown ==> cut_ok(#[trigger] lines[i], w)) {
            None
        } else {
            Some(
                seq![
                    (0u16, 0u16, SidebarStyle::Header, header_text(self.width as nat)),
                    (0u16, 1u16, SidebarStyle::Separator, repeat('\u{2500}', w)),
                ] + Seq::new(
                    shown,
                    |i: int|
                        (
                            0u16,
                            (2 + i) as u16,
                            line_style(i == active, notified[i]),
                            fit_line(lines[i], w),
                        ),
                ) + Seq::new(blanks, |j: int| (0u16, (list_end + j) as u16, SidebarStyle::Blank, repeat(' ', w)))
                    + Seq::new(
                    rows as nat,
                    |r: int| ((self.width - 1) as u16, r as u16, SidebarStyle::Border, seq!['\u{2502}']),
                ),
            )
        }
    }

    /// The pieces of text the sidebar draws, listing `windows` named by
    /// `names`, on a terminal `rows` high (see `spec_render`).
    pub fn render(&self, windows: &[Window], names: &[String], active_window_idx: usize, rows: u16) -> (r:
        Option<Vec<SidebarText>>)
        requires
            names@.len() == windows@.len(),
            windows@.len() <= 65533,
            !self.collapsed ==> self.width >= 1,
        ensures
            ({
                let spec = self.spec_render(
                    window_lines(windows@, names@.map_values(|s: String| s@), active_window_idx as int),
                    notified_windows(windows@),
                    active_window_idx as int,
                    rows,
                );
                &&& r is None <==> spec is None
                &&& r matches Some(v) ==> {
                    &&& v@.len() == spec->0.len()
                    &&& forall|k: int| 0 <= k < v@.len() ==> #[trigger] v@[k]@ == spec->0[k]
                }
            }),
    {
        let ghost lines = window_lines(windows@, names@.map_values(|s: String| s@), active_window_idx as int);
        let ghost notified = notified_windows(windows@);
        let ghost spec = self.spec_render(lines, notified, active_window_idx as int, rows);
        let mut out: Vec<SidebarText> = Vec::new();
        if self.collapsed {
            return Some(out);
        }
        let w: usize = (self.width - 1) as usize;
        let n = windows.len();
        out.push(SidebarText { col: 0, row: 0, style: SidebarStyle::Header, text: header_string(self.width) });
        let sep = repeat_chars('\u{2500}', w);
        out.push(SidebarText { col: 0, row: 1, style: SidebarStyle::Separator, text: chars_to_string(&sep) });
        let shown: usize = if rows <= 2 {
            0
        } else if n <= (rows - 2) as usize {
            n
        } else {
            (rows - 2) as usize
        };
        let ghost hdr = out@[0]@;
        let ghost sepv = out@[1]@;
        let mut i: usize = 0;
        while i < shown
            invariant
                i <= shown,
                shown == shown_windows(n as nat, rows),
                n == windows@.len(),
                n == names@.len(),
                w == self.width - 1,
                lines == window_lines(windows@, names@.map_values(|s: String| s@), active_window_idx as int),
                notified == notified_windows(windows@),
                spec == self.spec_render(lines, notified, active_window_idx as int, rows),
                !self.collapsed,
                out@.len() == 2 + i,
                out@[0]@ == hdr,
                out@[1]@ == sepv,
                forall|j: int| 0 <= j < i ==> cut_ok(#[trigger] lines[j], w as nat),
                forall|j: int|
                    0 <= j < i ==> #[trigger] out@[2 + j]@ == (
                        0u16,
                        (2 + j) as u16,
                        line_style(j == active_window_idx, notified[j]),
                        fit_line(lines[j], w as nat),
                    ),
            decreases shown - i,
        {
            let line = window_line_chars(
                i == active_window_idx,
                windows[i].has_notification,
                i + 1,
                &names[i],
                windows[i].pane_count(),
            );
            assert(line@ == lines[i as int]);
            match fit_line_chars(&line, w) {
                Some(fitted) => {
                    let style = if i == active_window_idx {
                        SidebarStyle::ActiveWindow
                    } else if windows[i].has_notification {
                        SidebarStyle::NotifiedWindow
                    } else {
                        SidebarStyle::Window
                    };
                    out.push(SidebarText { col: 0, row: (2 + i) as u16, style, text: chars_to_string(&fitted) });
                },
                None => {
                    assert(!(forall|j: int| 0 <= j < shown ==> cut_ok(#[trigger] lines[j], w as nat)));
                    assert(lines.len() == n);
                    assert(spec is None);
                    return None;
                },
            }
            i = i + 1;
        }
        let list_end: usize = 2 + n;
        let blanks: usize = if (rows as usize) > list_end {
            rows as usize - list_end
        } else {
            0
        };
        let blank_line = repeat_chars(' ', w);
        let base = out.len();
        let mut j: usize = 0;
        while j < blanks
            invariant
                j <= blanks,
                list_end == 2 + n,
                n <= 65533,
                blanks <= 65535,
                list_end + blanks <= 65535,
                base == 2 + shown,
                blank_line@ == repeat(' ', w as nat),
                out@.len() == base + j,
                out@[0]@ == hdr,
                out@[1]@ == sepv,
                forall|k: int|
                    0 <= k < shown ==> #[trigger] out@[2 + k]@ == (
                        0u16,
                        (2 + k) as u16,
                        line_style(k == active_window_idx, notified[k]),
                        fit_line(lines[k], w as nat),
                    ),
                forall|k: int|
                    0 <= k < j ==> #[trigger] out@[base + k]@ == (
                        0u16,
                        (list_end + k) as u16,
                        SidebarStyle::Blank,
                        repeat(' ', w as nat),
                    ),
            decreases blanks - j,
        {
            out.push(
                SidebarText {
                    col: 0,
                    row: (list_end + j) as u16,
                    style: SidebarStyle::Blank,
                    text: chars_to_string(&blank_line),
                },
            );
            j = j + 1;
        }
        let base2 = out.len();
        let mut r: u16 = 0;
        while r < rows
            invariant
                r <= rows,
                base == 2 + shown,
                base2 == base + blanks,
                out@.len() == base2 + r,
                w == self.width - 1,
                self.width >= 1,
                out@[0]@ == hdr,
                out@[1]@ == sepv,
                forall|k: int|
                    0 <= k < shown ==> #[trigger] out@[2 + k]@ == (
                        0u16,
                        (2 + k) as u16,
                        line_style(k == active_window_idx, notified[k]),
                        fit_line(lines[k], w as nat),
                    ),
                forall|k: int|
                    0 <= k < blanks ==> #[trigger] out@[base + k]@ == (
                        0u16,
                        (list_end + k) as u16,
                        SidebarStyle::Blank,
                        repeat(' ', w as nat),
                    ),
                forall|k: int|
                    0 <= k < r ==> #[trigger] out@[base2 + k]@ == (
                        (self.width - 1) as u16,
                        k as u16,
                        SidebarStyle::Border,
                        seq!['\u{2502}'],
                    ),
            decreases rows - r,
        {
            out.push(
                SidebarText {
                    col: self.width - 1,
                    row: r,
                    style: SidebarStyle::Border,
                    text: chars_to_string(&repeat_chars('\u{2502}', 1)),
                },
            );
            proof {
                assert(repeat('\u{2502}', 1) =~= seq!['\u{2502}']);
            }
            r = r + 1;
        }
        proof {
            let s = spec->0;
            assert(s.len() == out@.len());
            assert forall|k: int| 0 <= k < out@.len() implies #[trigger] out@[k]@ == s[k] by {
                if k >= base2 {
                    assert(out@[base2 + (k - base2)]@ == out@[k]@);
                } else if k >= base {
                    assert(out@[base + (k - base)]@ == out@[k]@);
                } else if k >= 2 {
                    assert(out@[2 + (k - 2)]@ == out@[k]@);
                }
            }
        }
        Some(out)
    }
}

/// The title line as a `String` (see `header_text`).
fn header_string(width: u16) -> (r: String)
    requires
        width >= 1,
    ensures
        r@ == header_text(width as nat),
{
    let w: usize = (width - 1) as usize;
    let mut v: Vec<char> = Vec::new();
    v.push(' ');
    if w >= 4 {
        let pad = w - 4;
        let left = repeat_chars(' ', pad / 2);
        let right = repeat_chars(' ', pad - pad / 2);
        let mut i: usize = 0;
        while i < left.len()
            invariant
                i <= left@.len(),
                v@ == seq![' '] + left@.take(i as int),
            decreases left.len() - i,
        {
            v.push(left[i]);
            i = i + 1;
            assert(v@ =~= seq![' '] + left@.take(i as int));
        }
        v.push('x');
        v.push('m');
        v.push('u');
        v.push('x');
        let ghost mid = v@;
        let mut k: usize = 0;
        while k < right.len()
            invariant
                k <= right@.len(),
                v@ == mid + right@.take(k as int),
            decreases right.len() - k,
        {
            v.push(right[k]);
            k = k + 1;
            assert(v@ =~= mid + right@.take(k as int));
        }
        proof {
            assert(left@.take(left@.len() as int) =~= left@);
            assert(right@.take(right@.len() as int) =~= right@);
            assert(v@ =~= header_text(width as nat));
        }
    } else {
        let mut full: Vec<char> = Vec::new();
        full.push(' ');
        full.push('x');
        full.push('m');
        full.push('u');
        full.push('x');
        let mut v2: Vec<char> = Vec::new();
        let mut i: usize = 0;
        while i < width as usize
            invariant
                width <= 4,
                i <= width,
                full@ == seq![' ', 'x', 'm', 'u', 'x'],
                v2@ == seq![' ', 'x', 'm', 'u', 'x'].take(i as int),
            decreases width - i,
        {
            v2.push(full[i]);
            i = i + 1;
            assert(v2@ =~= seq![' ', 'x', 'm', 'u', 'x'].take(i as int));
        }
        return chars_to_string(&v2);
    }
    chars_to_string(&v)
}

fn push_all(v: &mut Vec<char>, s: &Vec<char>)
    ensures
        final(v)@ == old(v)@ + s@,
{
    let ghost start = v@;
    let mut i: usize = 0;
    while i < s.len()
        invariant
            i <= s@.len(),
            v@ == start + s@.take(i as int),
        decreases s.len() - i,
    {
        v.push(s[i]);
        i = i + 1;
        assert(v@ =~= start + s@.take(i as int));
    }
    assert(s@.take(s@.len() as int) =~= s@);
}

/// The line of a window (see `window_line`).
fn window_line_chars(active: bool, notified: bool, num: usize, name: &String, panes: usize) -> (r: Vec<char>)
    ensures
        r@ == window_line(active, notified, num as nat, name@, panes as nat),
{
    let mut v: Vec<char> = Vec::new();
    v.push(' ');
    v.push(
        if active {
            '\u{25ba}'
        } else if notified {
            '\u{25cf}'
        } else {
            ' '
        },
    );
    v.push(' ');
    push_all(&mut v, &decimal_chars(num as u64));
    v.push(' ');
    push_all(&mut v, &str_to_chars(name.as_str()));
    if panes > 1 {
        v.push(' ');
        v.push('[');
        push_all(&mut v, &decimal_chars(panes as u64));
        v.push(']');
    }
    proof {
        assert(v@ =~= window_line(active, notified, num as nat, name@, panes as nat));
    }
    v
}

proof fn lemma_utf8_len_take_step(s: Seq<char>, i: int)
    requires
        0 <= i < s.len(),
    ensures
        utf8_len(s.take(i + 1)) == utf8_len(s.take(i)) + char_utf8_len(s[i]),
{
    assert(s.take(i + 1).drop_last() =~= s.take(i));
}

proof fn lemma_utf8_len_grows(s: Seq<char>, a: int, b: int)
    requires
        0 <= a <= b <= s.len(),
    ensures
        utf8_len(s.take(a)) + (b - a) <= utf8_len(s.take(b)),
    decreases b - a,
{
    if a < b {
        lemma_utf8_len_grows(s, a, b - 1);
        lemma_utf8_len_take_step(s, b - 1);
    }
}

/// A line brought to `w` columns (see `fit_line`); `None` when its first
/// `w` bytes would end inside a character.
fn fit_line_chars(line: &Vec<char>, w: usize) -> (r: Option<Vec<char>>)
    requires
        w < 65536,
    ensures
        r is None <==> !cut_ok(line@, w as nat),
        r matches Some(v) ==> v@ == fit_line(line@, w as nat),
{
    let n = line.len();
    let mut acc: usize = 0;
    let mut i: usize = 0;
    while i < n && acc < w
        invariant
            n == line@.len(),
            i <= n,
            w < 65536,
            acc == utf8_len(line@.take(i as int)),
            acc <= w + 3,
            i > 0 ==> utf8_len(line@.take(i - 1)) < w,
        decreases n - i,
    {
        proof {
            lemma_utf8_len_take_step(line@, i as int);
        }
        let c = line[i];
        let u = c as u32;
        let len: usize = if u < 0x80 {
            1
        } else if u < 0x800 {
            2
        } else if u < 0x10000 {
            3
        } else {
            4
        };
        acc = acc + len;
        i = i + 1;
    }
    proof {
        assert(line@.take(n as int) =~= line@);
        lemma_utf8_len_grows(line@, i as int, n as int);
    }
    if acc < w {
        let mut v: Vec<char> = Vec::new();
        push_all(&mut v, line);
        proof {
            lemma_utf8_len_grows(line@, 0, n as int);
            assert(line@.take(0) =~= Seq::<char>::empty());
        }
        let pad = repeat_chars(' ', w - n);
        push_all(&mut v, &pad);
        Some(v)
    } else if acc == w {
        proof {
            let k = choose|k: int| 0 <= k <= line@.len() && utf8_len(line@.take(k)) == w;
            if k < i {
                lemma_utf8_len_grows(line@, k, i as int);
            } else if k > i {
                lemma_utf8_len_grows(line@, i as int, k);
            }
        }
        let mut v: Vec<char> = Vec::new();
        let mut j: usize = 0;
        while j < i
            invariant
                j <= i <= n,
                n == line@.len(),
                v@ == line@.take(j as int),
            decreases i - j,
        {
            v.push(line[j]);
            j = j + 1;
            assert(v@ =~= line@.take(j as int));
        }
        Some(v)
    } else {
        proof {
            assert forall|k: int| 0 <= k <= line@.len() implies utf8_len(#[trigger] line@.take(k)) != w by {
                if k < i {
                    lemma_utf8_len_grows(line@, k, i - 1);
                } else if k > i {
                    lemma_utf8_len_grows(line@, i as int, k);
                }
            }
        }
        None
    }
}

/// `n` copies of `c`.
fn repeat_chars(c: char, n: usize) -> (r: Vec<char>)
    ensures
        r@ == repeat(c, n as nat),
{
    let mut v: Vec<char> = Vec::new();
    let mut i: usize = 0;
    while i < n
        invariant
            i <= n,
            v@ == repeat(c, i as nat),
        decreases n - i,
    {
        v.push(c);
        i = i + 1;
        assert(v@ =~= repeat(c, i as nat));
    }
    v
}

/// Toggling the sidebar twice gives back the sidebar as it was.
pub proof fn lemma_toggle_twice(s: SidebarState)
    ensures
        (SidebarState { collapsed: !!s.collapsed, ..s }) == s,
{
}

} // verus!
