//! The layout tree: how the pane area of a window is divided between panes.
use vstd::prelude::*;

verus! {

/// Direction of a split. `Vertical` places the children side by side
/// (separated by a `│` column), `Horizontal` stacks them (separated by a `─` row).
#[derive(Debug, Clone, Copy, PartialEq, Eq, Structural)]
pub enum Split {
    Horizontal,
    Vertical,
}

/// A rectangular region of the screen, in cells.
#[derive(Debug, Clone, Copy, PartialEq, Eq, Structural)]
pub struct Rect {
    pub x: u16,
    pub y: u16,
    pub width: u16,
    pub height: u16,
}

/// The share of a split that goes to the first child, in thousandths.
/// New splits divide the area in half.
pub const HALF_RATIO: u16 = 500;

/// Length of the first part when a length `len` is divided at `ratio`
/// thousandths: the product rounded down, saturated to the `u16` range.
pub open spec fn spec_first_len(len: u16, ratio: u16) -> int {
    let l = (len as int * ratio as int) / 1000;
    if l > u16::MAX { u16::MAX as int } else { l }
}

/// Whether dividing `area` at `ratio` stays within the `u16` coordinate range.
pub open spec fn split_fits(area: Rect, direction: Split, ratio: u16) -> bool {
    match direction {
        Split::Vertical => area.x + spec_first_len(area.width, ratio) + 1 <= u16::MAX,
        Split::Horizontal => area.y + spec_first_len(area.height, ratio) + 1 <= u16::MAX,
    }
}

/// `a - b`, or 0 when `b > a`.
pub open spec fn sat_sub(a: int, b: int) -> int {
    if a >= b { a - b } else { 0 }
}

/// The two parts of `area` divided at `ratio`, with one line between them
/// left for the border.
pub open spec fn spec_split_rect(area: Rect, direction: Split, ratio: u16) -> (Rect, Rect) {
    match direction {
        Split::Vertical => {
            let fw = spec_first_len(area.width, ratio);
            (
                Rect { x: area.x, y: area.y, width: fw as u16, height: area.height },
                Rect {
                    x: (area.x + fw + 1) as u16,
                    y: area.y,
                    width: sat_sub(area.width as int, fw + 1) as u16,
                    height: area.height,
                },
            )
        },
        Split::Horizontal => {
            let fh = spec_first_len(area.height, ratio);
            (
                Rect { x: area.x, y: area.y, width: area.width, height: fh as u16 },
                Rect {
                    x: area.x,
                    y: (area.y + fh + 1) as u16,
                    width: area.width,
                    height: sat_sub(area.height as int, fh + 1) as u16,
                },
            )
        },
    }
}

fn first_len(len: u16, ratio: u16) -> (r: u16)
    ensures
        r == spec_first_len(len, ratio),
{
    assert((len as u32) * (ratio as u32) <= 65535 * 65535) by (nonlinear_arith)
        requires
            len <= 65535,
            ratio <= 65535,
    ;
    let prod: u32 = (len as u32) * (ratio as u32);
    let l: u32 = prod / 1000;
    if l > 65535 {
        65535
    } else {
        l as u16
    }
}

/// Divides `area` at `ratio` (thousandths of its width or height) into two
/// parts with a one-line border between them.
pub fn split_rect(area: Rect, direction: Split, ratio: u16) -> (r: (Rect, Rect))
    requires
        split_fits(area, direction, ratio),
    ensures
        r == spec_split_rect(area, direction, ratio),
{
    match direction {
        Split::Vertical => {
            let first_width = first_len(area.width, ratio);
            let second_width = area.width.saturating_sub(first_width + 1);
            let first = Rect { x: area.x, y: area.y, width: first_width, height: area.height };
            let second = Rect {
                x: area.x + first_width + 1,
                y: area.y,
                width: second_width,
                height: area.height,
            };
            (first, second)
        },
        Split::Horizontal => {
            let first_height = first_len(area.height, ratio);
            let second_height = area.height.saturating_sub(first_height + 1);
            let first = Rect { x: area.x, y: area.y, width: area.width, height: first_height };
            let second = Rect {
                x: area.x,
                y: area.y + first_height + 1,
                width: area.width,
                height: second_height,
            };
            (first, second)
        },
    }
}


/// The layout of a window: a binary tree whose leaves are panes and whose
/// inner nodes divide their area between two children.
#[derive(Debug)]
pub enum LayoutNode {
    Leaf { pane_id: u32 },
    Split { direction: Split, ratio: u16, first: Box<LayoutNode>, second: Box<LayoutNode> },
}

/// A border line between two panes. A `Vertical` border is drawn as a column
/// `│` of `length` cells starting at (`x`, `y`); a `Horizontal` one as a row `─`.
#[derive(Debug, Clone, Copy, PartialEq, Eq, Structural)]
pub struct Border {
    pub x: u16,
    pub y: u16,
    pub length: u16,
    pub orientation: Split,
}

/// The border drawn where `area` is divided at `ratio` in `direction`.
pub open spec fn spec_border_of(area: Rect, direction: Split, ratio: u16) -> Border {
    let (fa, sa) = spec_split_rect(area, direction, ratio);
    match direction {
        Split::Vertical => Border {
            x: (fa.x + fa.width) as u16,
            y: area.y,
            length: area.height,
            orientation: Split::Vertical,
        },
        Split::Horizontal => Border {
            x: area.x,
            y: (fa.y + fa.height) as u16,
            length: area.width,
            orientation: Split::Horizontal,
        },
    }
}

impl LayoutNode {
    /// The pane ids at the leaves, from left to right.
    pub open spec fn ids(self) -> Seq<u32>
        decreases self,
    {
        match self {
            LayoutNode::Leaf { pane_id } => seq![pane_id],
            LayoutNode::Split { first, second, .. } => first.ids() + second.ids(),
        }
    }

    /// Number of inner (split) nodes.
    pub open spec fn split_count(self) -> nat
        decreases self,
    {
        match self {
            LayoutNode::Leaf { .. } => 0,
            LayoutNode::Split { first, second, .. } => 1 + first.split_count()
                + second.split_count(),
        }
    }

    /// Height of the tree: 0 for a single pane.
    pub open spec fn height(self) -> nat
        decreases self,
    {
        match self {
            LayoutNode::Leaf { .. } => 0,
            LayoutNode::Split { first, second, .. } => 1 + if first.height() >= second.height() {
                first.height()
            } else {
                second.height()
            },
        }
    }

    /// Every split gives its first child at most the whole area.
    pub open spec fn ratios_valid(self) -> bool
        decreases self,
    {
        match self {
            LayoutNode::Leaf { .. } => true,
            LayoutNode::Split { ratio, first, second, .. } => ratio <= 1000 && first.ratios_valid()
                && second.ratios_valid(),
        }
    }

    /// Laying the tree out on `area` keeps every coordinate in the `u16` range.
    pub open spec fn fits(self, area: Rect) -> bool
        decreases self,
    {
        match self {
            LayoutNode::Leaf { .. } => true,
            LayoutNode::Split { direction, ratio, first, second } => {
                let (fa, sa) = spec_split_rect(area, direction, ratio);
                split_fits(area, direction, ratio) && first.fits(fa) && second.fits(sa)
            },
        }
    }

    /// The area of each pane, in leaf order, when the tree is laid out on `area`.
    pub open spec fn rects(self, area: Rect) -> Seq<(u32, Rect)>
        decreases self,
    {
        match self {
            LayoutNode::Leaf { pane_id } => seq![(pane_id, area)],
            LayoutNode::Split { direction, ratio, first, second } => {
                let (fa, sa) = spec_split_rect(area, direction, ratio);
                first.rects(fa) + second.rects(sa)
            },
        }
    }

    /// The borders, parent before children, when the tree is laid out on `area`.
    pub open spec fn borders(self, area: Rect) -> Seq<Border>
        decreases self,
    {
        match self {
            LayoutNode::Leaf { .. } => seq![],
            LayoutNode::Split { direction, ratio, first, second } => {
                let (fa, sa) = spec_split_rect(area, direction, ratio);
                seq![spec_border_of(area, direction, ratio)] + first.borders(fa) + second.borders(
                    sa,
                )
            },
        }
    }

    /// The tree after the first leaf holding `target` has been divided into
    /// that pane (first) and a new pane `new_id` (second), evenly in
    /// `direction`; `None` when no leaf holds `target`.
    pub open spec fn spec_split_pane(self, target: u32, new_id: u32, direction: Split) -> Option<
        LayoutNode,
    >
        decreases self,
    {
        match self {
            LayoutNode::Leaf { pane_id } => if pane_id == target {
                Some(
                    LayoutNode::Split {
                        direction,
                        ratio: HALF_RATIO,
                        first: Box::new(LayoutNode::Leaf { pane_id }),
                        second: Box::new(LayoutNode::Leaf { pane_id: new_id }),
                    },
                )
            } else {
                None
            },
            LayoutNode::Split { direction: d, ratio, first, second } => match first.spec_split_pane(
                target,
                new_id,
                direction,
            ) {
                Some(f) => Some(
                    LayoutNode::Split { direction: d, ratio, first: Box::new(f), second },
                ),
                None => match second.spec_split_pane(target, new_id, direction) {
                    Some(s) => Some(
                        LayoutNode::Split { direction: d, ratio, first, second: Box::new(s) },
                    ),
                    None => None,
                },
            },
        }
    }

    /// Whether this node is the leaf of pane `id`.
    pub open spec fn is_leaf_of(self, id: u32) -> bool {
        self matches LayoutNode::Leaf { pane_id } && pane_id == id
    }

    /// The tree after the leaf of `target` has been removed and its parent
    /// replaced by the sibling subtree, with the first pane id of that sibling.
    /// At each split the children are checked first (first, then second),
    /// then the search goes down the first subtree, then the second.
    /// `None` when the tree is a single leaf or no leaf holds `target`.
    pub open spec fn spec_remove_pane(self, target: u32) -> Option<(LayoutNode, u32)>
        decreases self,
    {
        match self {
            LayoutNode::Leaf { .. } => None,
            LayoutNode::Split { direction, ratio, first, second } => if first.is_leaf_of(target) {
                Some((*second, second.ids()[0]))
            } else if second.is_leaf_of(target) {
                Some((*first, first.ids()[0]))
            } else {
                match first.spec_remove_pane(target) {
                    Some((f, r)) => Some(
                        (LayoutNode::Split { direction, ratio, first: Box::new(f), second }, r),
                    ),
                    None => match second.spec_remove_pane(target) {
                        Some((s, r)) => Some(
                            (LayoutNode::Split { direction, ratio, first, second: Box::new(s) }, r),
                        ),
                        None => None,
                    },
                }
            },
        }
    }
}


/// Index of the first occurrence of `x` in `s` (`s.len()` when absent).
pub open spec fn first_index(s: Seq<u32>, x: u32) -> int
    decreases s.len(),
{
    if s.len() == 0 {
        0
    } else if s[0] == x {
        0
    } else {
        1 + first_index(s.drop_first(), x)
    }
}

pub proof fn lemma_first_index(s: Seq<u32>, x: u32)
    ensures
        s.contains(x) ==> {
            &&& 0 <= first_index(s, x) < s.len()
            &&& s[first_index(s, x)] == x
            &&& forall|j: int| 0 <= j < first_index(s, x) ==> s[j] != x
        },
        !s.contains(x) ==> first_index(s, x) == s.len(),
    decreases s.len(),
{
    if s.len() > 0 {
        lemma_first_index(s.drop_first(), x);
        if s[0] != x {
            if s.contains(x) {
                let k = choose|k: int| 0 <= k < s.len() && s[k] == x;
                assert(s.drop_first()[k - 1] == x);
            } else {
                assert forall|k: int| 0 <= k < s.drop_first().len() implies s.drop_first()[k] != x by {
                    assert(s.drop_first()[k] == s[k + 1]);
                }
            }
            assert forall|j: int| 0 < j < first_index(s, x) implies s[j] != x by {
                assert(s[j] == s.drop_first()[j - 1]);
            }
        } else {
            assert(s.contains(x)) by { assert(s[0] == x); }
        }
    }
}

proof fn lemma_first_index_concat(a: Seq<u32>, b: Seq<u32>, x: u32)
    ensures
        first_index(a + b, x) == if a.contains(x) {
            first_index(a, x)
        } else {
            a.len() + first_index(b, x)
        },
    decreases a.len(),
{
    if a.len() == 0 {
        assert(a + b =~= b);
    } else {
        assert((a + b).drop_first() =~= a.drop_first() + b);
        lemma_first_index_concat(a.drop_first(), b, x);
        if a[0] != x {
            if a.contains(x) {
                let k = choose|k: int| 0 <= k < a.len() && a[k] == x;
                assert(a.drop_first()[k - 1] == x);
            } else {
                assert forall|k: int| 0 <= k < a.drop_first().len() implies a.drop_first()[k] != x by {
                    assert(a.drop_first()[k] == a[k + 1]);
                }
            }
        } else {
            assert(a.contains(x)) by { assert(a[0] == x); }
        }
    }
}

proof fn lemma_no_dup_concat(a: Seq<u32>, b: Seq<u32>)
    requires
        (a + b).no_duplicates(),
    ensures
        a.no_duplicates(),
        b.no_duplicates(),
        forall|x: u32| a.contains(x) ==> !b.contains(x),
{
    let s = a + b;
    assert forall|i: int, j: int| 0 <= i < a.len() && 0 <= j < a.len() && i != j implies a[i] != a[j] by {
        assert(s[i] == a[i] && s[j] == a[j]);
    }
    assert forall|i: int, j: int| 0 <= i < b.len() && 0 <= j < b.len() && i != j implies b[i] != b[j] by {
        assert(s[a.len() + i] == b[i] && s[a.len() + j] == b[j]);
    }
    assert forall|x: u32| a.contains(x) implies !b.contains(x) by {
        let i = choose|i: int| 0 <= i < a.len() && a[i] == x;
        if b.contains(x) {
            let j = choose|j: int| 0 <= j < b.len() && b[j] == x;
            assert(s[i] == x && s[a.len() + j] == x);
        }
    }
}

/// A tree has one more pane than it has splits, so at least one pane.
pub proof fn lemma_ids_len(node: LayoutNode)
    ensures
        node.ids().len() == node.split_count() + 1,
    decreases node,
{
    if let LayoutNode::Split { first, second, .. } = node {
        lemma_ids_len(*first);
        lemma_ids_len(*second);
    }
}

/// Laying a tree out gives one area per pane, in the order of `ids`.
pub proof fn lemma_rects_follow_ids(node: LayoutNode, area: Rect)
    ensures
        node.rects(area).len() == node.ids().len(),
        forall|i: int| 0 <= i < node.ids().len() ==> #[trigger] node.rects(area)[i].0 == node.ids()[i],
    decreases node,
{
    if let LayoutNode::Split { direction, ratio, first, second } = node {
        let (fa, sa) = spec_split_rect(area, direction, ratio);
        lemma_rects_follow_ids(*first, fa);
        lemma_rects_follow_ids(*second, sa);
        let r = node.rects(area);
        assert forall|i: int| 0 <= i < node.ids().len() implies #[trigger] r[i].0 == node.ids()[i] by {
            if i < first.ids().len() {
                assert(r[i] == first.rects(fa)[i]);
            } else {
                assert(r[i] == second.rects(sa)[i - first.ids().len()]);
            }
        }
    }
}

/// The panes of a layout's areas are its leaves, left to right: a leaf
/// gives its whole area to its pane, and a split lays out its first child
/// on the first part and then its second child on the second part.
pub proof fn lemma_rects_ids(node: LayoutNode, area: Rect)
    ensures
        node.rects(area).map_values(|p: (u32, Rect)| p.0) == node.ids(),
        node is Leaf ==> node.rects(area) == seq![(node->pane_id, area)],
        node matches LayoutNode::Split { direction, ratio, first, second } ==> node.rects(area) == first.rects(
            spec_split_rect(area, direction, ratio).0,
        ) + second.rects(spec_split_rect(area, direction, ratio).1),
{
    lemma_rects_follow_ids(node, area);
    assert(node.rects(area).map_values(|p: (u32, Rect)| p.0) =~= node.ids());
}

/// A layout has one border fewer than panes: one per split, the split's own
/// border first, then those of its first child, then those of its second
/// child. A vertical split's border stands right after its first part and
/// runs down the split's whole height; a horizontal one's stands right
/// below its first part and runs across the split's whole width.
pub proof fn lemma_borders_preorder(node: LayoutNode, area: Rect)
    ensures
        node.borders(area).len() + 1 == node.ids().len(),
        node is Leaf ==> node.borders(area).len() == 0,
        node matches LayoutNode::Split { direction, ratio, first, second } ==> {
            let (fa, sa) = spec_split_rect(area, direction, ratio);
            &&& node.borders(area) == seq![spec_border_of(area, direction, ratio)] + first.borders(fa)
                + second.borders(sa)
            &&& direction == Split::Vertical ==> spec_border_of(area, direction, ratio) == (Border {
                x: (fa.x + fa.width) as u16,
                y: area.y,
                length: area.height,
                orientation: Split::Vertical,
            })
            &&& direction == Split::Horizontal ==> spec_border_of(area, direction, ratio) == (Border {
                x: area.x,
                y: (fa.y + fa.height) as u16,
                length: area.width,
                orientation: Split::Horizontal,
            })
        },
{
    lemma_borders_len(node, area);
    lemma_ids_len(node);
}

/// There is one border per split.
pub proof fn lemma_borders_len(node: LayoutNode, area: Rect)
    ensures
        node.borders(area).len() == node.split_count(),
    decreases node,
{
    if let LayoutNode::Split { direction, ratio, first, second } = node {
        let (fa, sa) = spec_split_rect(area, direction, ratio);
        lemma_borders_len(*first, fa);
        lemma_borders_len(*second, sa);
    }
}

impl LayoutNode {
    /// Whether the tree is at most `bound` high.
    pub fn height_at_most(&self, bound: u64) -> (r: bool)
        ensures
            r == (self.height() <= bound),
        decreases self,
    {
        match self {
            LayoutNode::Leaf { .. } => true,
            LayoutNode::Split { first, second, .. } => {
                if bound == 0 {
                    false
                } else {
                    first.height_at_most(bound - 1) && second.height_at_most(bound - 1)
                }
            },
        }
    }

    /// Height of the tree: 0 for a single pane.
    pub fn tree_height(&self) -> (r: u64)
        requires
            self.height() <= u64::MAX,
        ensures
            r == self.height(),
        decreases self,
    {
        match self {
            LayoutNode::Leaf { .. } => 0,
            LayoutNode::Split { first, second, .. } => {
                let a = first.tree_height();
                let b = second.tree_height();
                if a >= b {
                    a + 1
                } else {
                    b + 1
                }
            },
        }
    }

    /// A layout with a single pane.
    pub fn single(pane_id: u32) -> (r: Self)
        ensures
            r == (LayoutNode::Leaf { pane_id }),
            r.ids() == seq![pane_id],
    {
        LayoutNode::Leaf { pane_id }
    }

    /// The first pane of the tree, in leaf order.
    pub fn first_pane_id(&self) -> (r: u32)
        ensures
            r == self.ids()[0],
        decreases self,
    {
        match self {
            LayoutNode::Leaf { pane_id } => *pane_id,
            LayoutNode::Split { first, .. } => {
                proof { lemma_ids_len(**first); }
                first.first_pane_id()
            },
        }
    }

    /// The area of each pane when the tree is laid out on `area`, in leaf order.
    pub fn compute_rects(&self, area: Rect) -> (r: Vec<(u32, Rect)>)
        requires
            self.fits(area),
        ensures
            r@ == self.rects(area),
            r@.len() == self.ids().len(),
            forall|i: int| 0 <= i < r@.len() ==> #[trigger] r@[i].0 == self.ids()[i],
            r@.map_values(|p: (u32, Rect)| p.0) == self.ids(),
    {
        let mut result = Vec::new();
        self.compute_rects_inner(area, &mut result);
        proof {
            assert(result@ =~= self.rects(area));
            lemma_rects_ids(*self, area);
        }
        result
    }

    fn compute_rects_inner(&self, area: Rect, result: &mut Vec<(u32, Rect)>)
        requires
            self.fits(area),
        ensures
            final(result)@ == old(result)@ + self.rects(area),
        decreases self,
    {
        match self {
            LayoutNode::Leaf { pane_id } => {
                result.push((*pane_id, area));
            },
            LayoutNode::Split { direction, ratio, first, second } => {
                let (first_area, second_area) = split_rect(area, *direction, *ratio);
                first.compute_rects_inner(first_area, result);
                second.compute_rects_inner(second_area, result);
                proof {
                    assert(final(result)@ =~= old(result)@ + self.rects(area));
                }
            },
        }
    }

    /// The borders between panes when the tree is laid out on `area`: one per
    /// split, the outer split before the inner ones.
    pub fn compute_borders(&self, area: Rect) -> (r: Vec<Border>)
        requires
            self.fits(area),
        ensures
            r@ == self.borders(area),
            r@.len() == self.split_count(),
            r@.len() + 1 == self.ids().len(),
    {
        let mut borders = Vec::new();
        self.compute_borders_inner(area, &mut borders);
        proof {
            assert(borders@ =~= self.borders(area));
            lemma_borders_len(*self, area);
            lemma_ids_len(*self);
        }
        borders
    }

    fn compute_borders_inner(&self, area: Rect, borders: &mut Vec<Border>)
        requires
            self.fits(area),
        ensures
            final(borders)@ == old(borders)@ + self.borders(area),
        decreases self,
    {
        if let LayoutNode::Split { direction, ratio, first, second } = self {
            let (first_area, second_area) = split_rect(area, *direction, *ratio);
            match direction {
                Split::Vertical => {
                    borders.push(
                        Border {
                            x: first_area.x + first_area.width,
                            y: area.y,
                            length: area.height,
                            orientation: Split::Vertical,
                        },
                    );
                },
                Split::Horizontal => {
                    borders.push(
                        Border {
                            x: area.x,
                            y: first_area.y + first_area.height,
                            length: area.width,
                            orientation: Split::Horizontal,
                        },
                    );
                },
            }
            first.compute_borders_inner(first_area, borders);
            second.compute_borders_inner(second_area, borders);
            proof {
                assert(final(borders)@ =~= old(borders)@ + self.borders(area));
            }
        }
    }

    /// The pane ids of the tree, in leaf order.
    pub fn pane_ids(&self) -> (r: Vec<u32>)
        ensures
            r@ == self.ids(),
    {
        let mut ids = Vec::new();
        self.collect_pane_ids(&mut ids);
        proof {
            assert(ids@ =~= self.ids());
        }
        ids
    }

    fn collect_pane_ids(&self, ids: &mut Vec<u32>)
        ensures
            final(ids)@ == old(ids)@ + self.ids(),
        decreases self,
    {
        match self {
            LayoutNode::Leaf { pane_id } => ids.push(*pane_id),
            LayoutNode::Split { first, second, .. } => {
                first.collect_pane_ids(ids);
                second.collect_pane_ids(ids);
                proof {
                    assert(final(ids)@ =~= old(ids)@ + self.ids());
                }
            },
        }
    }
}


proof fn lemma_split_ids(node: LayoutNode, target: u32, new_id: u32, direction: Split)
    ensures
        node.spec_split_pane(target, new_id, direction) is Some <==> node.ids().contains(target),
        node.spec_split_pane(target, new_id, direction) matches Some(n) ==> {
            &&& n.ids() == node.ids().insert(first_index(node.ids(), target) + 1, new_id)
            &&& n is Split
        },
    decreases node,
{
    match node {
        LayoutNode::Leaf { pane_id } => {
            assert(node.ids().contains(target) <==> pane_id == target) by {
                if node.ids().contains(target) {
                    assert(node.ids()[0] == pane_id);
                }
                if pane_id == target {
                    assert(node.ids()[0] == target);
                }
            }
            if pane_id == target {
                assert(first_index(node.ids(), target) == 0);
                let n = node.spec_split_pane(target, new_id, direction).unwrap();
                assert((LayoutNode::Leaf { pane_id: target }).ids() == seq![target]);
                assert((LayoutNode::Leaf { pane_id: new_id }).ids() == seq![new_id]);
                assert(n.ids() =~= seq![target, new_id]);
                assert(seq![target, new_id] =~= seq![target].insert(1, new_id));
            }
        },
        LayoutNode::Split { first, second, .. } => {
            lemma_split_ids(*first, target, new_id, direction);
            lemma_split_ids(*second, target, new_id, direction);
            lemma_first_index_concat(first.ids(), second.ids(), target);
            lemma_first_index(first.ids(), target);
            lemma_first_index(second.ids(), target);
            let a = first.ids();
            let b = second.ids();
            assert(node.ids().contains(target) <==> a.contains(target) || b.contains(target)) by {
                if node.ids().contains(target) {
                    let k = choose|k: int| 0 <= k < (a + b).len() && (a + b)[k] == target;
                    if k < a.len() {
                        assert(a[k] == target);
                    } else {
                        assert(b[k - a.len()] == target);
                    }
                }
                if a.contains(target) {
                    let k = choose|k: int| 0 <= k < a.len() && a[k] == target;
                    assert((a + b)[k] == target);
                }
                if b.contains(target) {
                    let k = choose|k: int| 0 <= k < b.len() && b[k] == target;
                    assert((a + b)[a.len() + k] == target);
                }
            }
            if a.contains(target) {
                let i = first_index(a, target);
                assert(a.insert(i + 1, new_id) + b =~= (a + b).insert(i + 1, new_id));
            } else if b.contains(target) {
                let i = first_index(b, target);
                assert(a + b.insert(i + 1, new_id) =~= (a + b).insert(a.len() + i + 1, new_id));
            }
        },
    }
}

pub(crate) proof fn lemma_contains_concat(a: Seq<u32>, b: Seq<u32>, x: u32)
    ensures
        (a + b).contains(x) <==> a.contains(x) || b.contains(x),
{
    if (a + b).contains(x) {
        let k = choose|k: int| 0 <= k < (a + b).len() && (a + b)[k] == x;
        if k < a.len() {
            assert(a[k] == x);
        } else {
            assert(b[k - a.len()] == x);
        }
    }
    if a.contains(x) {
        let k = choose|k: int| 0 <= k < a.len() && a[k] == x;
        assert((a + b)[k] == x);
    }
    if b.contains(x) {
        let k = choose|k: int| 0 <= k < b.len() && b[k] == x;
        assert((a + b)[a.len() + k] == x);
    }
}

proof fn lemma_leaf_contains(node: LayoutNode, x: u32)
    requires
        node is Leaf,
    ensures
        node.ids().contains(x) <==> node.is_leaf_of(x),
{
    if node.ids().contains(x) {
        assert(node.ids()[0] == x);
    }
    if node.is_leaf_of(x) {
        assert(node.ids()[0] == x);
    }
}

proof fn lemma_remove_some(node: LayoutNode, target: u32)
    ensures
        node.spec_remove_pane(target) is Some <==> (node is Split && node.ids().contains(target)),
    decreases node,
{
    if let LayoutNode::Split { first, second, .. } = node {
        lemma_remove_some(*first, target);
        lemma_remove_some(*second, target);
        lemma_contains_concat(first.ids(), second.ids(), target);
        if *first is Leaf {
            lemma_leaf_contains(*first, target);
        }
        if *second is Leaf {
            lemma_leaf_contains(*second, target);
        }
    }
}

proof fn lemma_remove_ids(node: LayoutNode, target: u32)
    requires
        node is Split,
        node.ids().contains(target),
        node.ids().no_duplicates(),
    ensures
        node.spec_remove_pane(target) matches Some((n, r)) && n.ids() == node.ids().remove(
            first_index(node.ids(), target),
        ) && n.ids().contains(r),
    decreases node,
{
    if let LayoutNode::Split { first, second, .. } = node {
        let a = first.ids();
        let b = second.ids();
        lemma_ids_len(*first);
        lemma_ids_len(*second);
        lemma_no_dup_concat(a, b);
        lemma_contains_concat(a, b, target);
        lemma_first_index_concat(a, b, target);
        lemma_first_index(a, target);
        lemma_first_index(b, target);
        lemma_remove_some(*first, target);
        lemma_remove_some(*second, target);
        if first.is_leaf_of(target) {
            assert(a[0] == target);
            assert((a + b).remove(0) =~= b);
            assert(b.contains(b[0]));
        } else if second.is_leaf_of(target) {
            assert(b[0] == target);
            assert(!a.contains(target));
            assert((a + b).remove(a.len() as int) =~= a);
            assert(a.contains(a[0]));
        } else if a.contains(target) {
            if *first is Leaf {
                lemma_leaf_contains(*first, target);
            }
            lemma_remove_ids(*first, target);
            let (f, r) = first.spec_remove_pane(target).unwrap();
            let i = first_index(a, target);
            assert(f.ids() + b =~= (a + b).remove(i));
            lemma_contains_concat(f.ids(), b, r);
        } else {
            if *second is Leaf {
                lemma_leaf_contains(*second, target);
            }
            lemma_remove_ids(*second, target);
            let (s, r) = second.spec_remove_pane(target).unwrap();
            let i = first_index(b, target);
            assert(a + s.ids() =~= (a + b).remove(a.len() + i));
            lemma_contains_concat(a, s.ids(), r);
        }
    }
}

/// Splitting pane `target` into `target` and a fresh pane `new_id`, then
/// removing `new_id`, gives back the layout as it was, and `target` is the
/// pane reported as remaining.
pub proof fn lemma_split_then_remove(node: LayoutNode, target: u32, new_id: u32, direction: Split)
    requires
        node.ids().no_duplicates(),
        node.ids().contains(target),
        !node.ids().contains(new_id),
    ensures
        node.spec_split_pane(target, new_id, direction) matches Some(n) && n.spec_remove_pane(new_id)
            == Some((node, target)),
    decreases node,
{
    lemma_split_ids(node, target, new_id, direction);
    match node {
        LayoutNode::Leaf { pane_id } => {
            lemma_leaf_contains(node, target);
            let n = node.spec_split_pane(target, new_id, direction).unwrap();
            assert((LayoutNode::Leaf { pane_id: target }).ids() == seq![target]);
        },
        LayoutNode::Split { direction: d, ratio, first, second } => {
            let a = first.ids();
            let b = second.ids();
            lemma_no_dup_concat(a, b);
            lemma_contains_concat(a, b, target);
            lemma_contains_concat(a, b, new_id);
            lemma_split_ids(*first, target, new_id, direction);
            lemma_split_ids(*second, target, new_id, direction);
            lemma_remove_some(*first, new_id);
            lemma_remove_some(*second, new_id);
            if *second is Leaf {
                lemma_leaf_contains(*second, new_id);
            }
            if *first is Leaf {
                lemma_leaf_contains(*first, new_id);
            }
            if a.contains(target) {
                lemma_split_then_remove(*first, target, new_id, direction);
            } else {
                lemma_split_then_remove(*second, target, new_id, direction);
            }
        },
    }
}

/// Splitting with a fresh id keeps pane ids distinct and keeps all ratios valid.
pub proof fn lemma_split_preserves(node: LayoutNode, target: u32, new_id: u32, direction: Split)
    requires
        node.ids().no_duplicates(),
        !node.ids().contains(new_id),
        node.ratios_valid(),
    ensures
        node.spec_split_pane(target, new_id, direction) matches Some(n) ==> {
            &&& n.ids().no_duplicates()
            &&& n.ratios_valid()
            &&& n.height() <= node.height() + 1
        },
    decreases node,
{
    lemma_split_ids(node, target, new_id, direction);
    match node {
        LayoutNode::Leaf { pane_id } => {
            assert((LayoutNode::Leaf { pane_id }).ratios_valid());
            assert((LayoutNode::Leaf { pane_id: new_id }).ratios_valid());
            assert((LayoutNode::Leaf { pane_id }).height() == 0);
            assert((LayoutNode::Leaf { pane_id: new_id }).height() == 0);
        },
        LayoutNode::Split { first, second, .. } => {
            lemma_no_dup_concat(first.ids(), second.ids());
            lemma_contains_concat(first.ids(), second.ids(), new_id);
            lemma_split_preserves(*first, target, new_id, direction);
            lemma_split_preserves(*second, target, new_id, direction);
        },
    }
    if let Some(n) = node.spec_split_pane(target, new_id, direction) {
        let s = node.ids();
        let i = first_index(s, target);
        lemma_first_index(s, target);
        let t = s.insert(i + 1, new_id);
        assert forall|p: int, q: int| 0 <= p < t.len() && 0 <= q < t.len() && p != q implies t[p]
            != t[q] by {
            if p != i + 1 && q != i + 1 {
                let pp = if p < i + 1 { p } else { p - 1 };
                let qq = if q < i + 1 { q } else { q - 1 };
                assert(t[p] == s[pp] && t[q] == s[qq]);
            } else if p == i + 1 {
                let qq = if q < i + 1 { q } else { q - 1 };
                assert(t[q] == s[qq]);
            } else {
                let pp = if p < i + 1 { p } else { p - 1 };
                assert(t[p] == s[pp]);
            }
        }
    }
}

/// Removing a pane keeps all ratios valid and does not grow the tree.
pub proof fn lemma_remove_preserves(node: LayoutNode, target: u32)
    requires
        node.ratios_valid(),
    ensures
        node.spec_remove_pane(target) matches Some((n, _)) ==> n.ratios_valid() && n.height()
            <= node.height(),
    decreases node,
{
    if let LayoutNode::Split { first, second, .. } = node {
        lemma_remove_preserves(*first, target);
        lemma_remove_preserves(*second, target);
    }
}

/// Whether `r` has no cells.
pub open spec fn rect_is_empty(r: Rect) -> bool {
    r.width == 0 || r.height == 0
}

/// Whether every cell of `r` lies in `area` (trivially so when `r` is empty).
pub open spec fn rect_within(r: Rect, area: Rect) -> bool {
    rect_is_empty(r) || (area.x <= r.x && r.x + r.width <= area.x + area.width && area.y <= r.y
        && r.y + r.height <= area.y + area.height)
}

/// Whether `a` and `b` share no cell.
pub open spec fn rects_disjoint(a: Rect, b: Rect) -> bool {
    ||| rect_is_empty(a)
    ||| rect_is_empty(b)
    ||| a.x + a.width <= b.x
    ||| b.x + b.width <= a.x
    ||| a.y + a.height <= b.y
    ||| b.y + b.height <= a.y
}

/// Laid out on `area`, the panes of a layout lie inside `area` and no two
/// of them share a cell.
pub proof fn lemma_rects_tile(node: LayoutNode, area: Rect)
    requires
        node.ratios_valid(),
        node.fits(area),
    ensures
        forall|i: int| 0 <= i < node.rects(area).len() ==> rect_within(#[trigger] node.rects(area)[i].1, area),
        forall|i: int, j: int|
            0 <= i < node.rects(area).len() && 0 <= j < node.rects(area).len() && i != j
                ==> rects_disjoint(#[trigger] node.rects(area)[i].1, #[trigger] node.rects(area)[j].1),
    decreases node,
{
    if let LayoutNode::Split { direction, ratio, first, second } = node {
        let (fa, sa) = spec_split_rect(area, direction, ratio);
        lemma_rects_tile(*first, fa);
        lemma_rects_tile(*second, sa);
        let fr = first.rects(fa);
        let sr = second.rects(sa);
        let r = node.rects(area);
        assert(r == fr + sr);
        let fl = spec_first_len(if direction == Split::Vertical { area.width } else { area.height }, ratio);
        assert(fl <= (if direction == Split::Vertical { area.width } else { area.height })) by (nonlinear_arith)
            requires
                fl == spec_first_len(if direction == Split::Vertical { area.width } else { area.height }, ratio),
                ratio <= 1000,
        {
            let len = if direction == Split::Vertical { area.width } else { area.height };
            assert(len as int * ratio as int <= len as int * 1000);
        }
        assert forall|i: int| 0 <= i < r.len() implies rect_within(#[trigger] r[i].1, area) by {
            if i < fr.len() {
                assert(r[i] == fr[i]);
                assert(rect_within(fr[i].1, fa));
            } else {
                assert(r[i] == sr[i - fr.len()]);
                assert(rect_within(sr[i - fr.len()].1, sa));
            }
        }
        assert forall|i: int, j: int|
            0 <= i < r.len() && 0 <= j < r.len() && i != j implies rects_disjoint(
            #[trigger] r[i].1,
            #[trigger] r[j].1,
        ) by {
            if i < fr.len() && j < fr.len() {
                assert(r[i] == fr[i] && r[j] == fr[j]);
            } else if i >= fr.len() && j >= fr.len() {
                assert(r[i] == sr[i - fr.len()] && r[j] == sr[j - fr.len()]);
                assert(rects_disjoint(sr[i - fr.len()].1, sr[j - fr.len()].1));
            } else if i < fr.len() {
                assert(r[i] == fr[i] && r[j] == sr[j - fr.len()]);
                assert(rect_within(fr[i].1, fa));
                assert(rect_within(sr[j - fr.len()].1, sa));
            } else {
                assert(r[j] == fr[j] && r[i] == sr[i - fr.len()]);
                assert(rect_within(fr[j].1, fa));
                assert(rect_within(sr[i - fr.len()].1, sa));
            }
        }
    }
}

/// A layout fits on `area` when its ratios are valid and the area, widened
/// by the height of the tree, stays within the `u16` coordinate range.
pub proof fn lemma_fits_when_bounded(node: LayoutNode, area: Rect)
    requires
        node.ratios_valid(),
        area.x + area.width + node.height() <= u16::MAX,
        area.y + area.height + node.height() <= u16::MAX,
    ensures
        node.fits(area),
    decreases node,
{
    if let LayoutNode::Split { direction, ratio, first, second } = node {
        let (fa, sa) = spec_split_rect(area, direction, ratio);
        let len = if direction == Split::Vertical { area.width } else { area.height };
        let fl = spec_first_len(len, ratio);
        assert(fl <= len) by (nonlinear_arith)
            requires
                fl == spec_first_len(len, ratio),
                ratio <= 1000,
        {
            assert(len as int * ratio as int <= len as int * 1000);
        }
        lemma_fits_when_bounded(*first, fa);
        lemma_fits_when_bounded(*second, sa);
    }
}

/// Laid out on an area that stays in the `u16` range, every pane area
/// stays in it too, so the right and bottom edges of each can be computed.
pub proof fn lemma_rects_in_range(node: LayoutNode, area: Rect)
    requires
        node.fits(area),
        area.x + area.width <= u16::MAX,
        area.y + area.height <= u16::MAX,
    ensures
        forall|i: int|
            0 <= i < node.rects(area).len() ==> {
                &&& (#[trigger] node.rects(area)[i]).1.x + node.rects(area)[i].1.width <= u16::MAX
                &&& node.rects(area)[i].1.y + node.rects(area)[i].1.height <= u16::MAX
            },
    decreases node,
{
    if let LayoutNode::Split { direction, ratio, first, second } = node {
        let (fa, sa) = spec_split_rect(area, direction, ratio);
        lemma_rects_in_range(*first, fa);
        lemma_rects_in_range(*second, sa);
        let r = node.rects(area);
        let fr = first.rects(fa);
        let sr = second.rects(sa);
        assert forall|i: int| 0 <= i < r.len() implies (#[trigger] r[i]).1.x + r[i].1.width <= u16::MAX
            && r[i].1.y + r[i].1.height <= u16::MAX by {
            if i < fr.len() {
                assert(r[i] == fr[i]);
                assert(fr[i].1.x + fr[i].1.width <= u16::MAX);
            } else {
                assert(r[i] == sr[i - fr.len()]);
                assert(sr[i - fr.len()].1.x + sr[i - fr.len()].1.width <= u16::MAX);
            }
        }
    }
}

/// Whether the cells of `b` and the line just past it stay in the `u16`
/// range: a vertical border has a column to its right and its rows end in
/// range; a horizontal one has a row below it and its columns end in range.
pub open spec fn border_in_range(b: Border) -> bool {
    match b.orientation {
        Split::Vertical => b.x + 1 <= u16::MAX && b.y + b.length <= u16::MAX,
        Split::Horizontal => b.y + 1 <= u16::MAX && b.x + b.length <= u16::MAX,
    }
}

/// The borders of a tree laid out on an area that stays in range stay in
/// range too.
pub proof fn lemma_borders_in_range(node: LayoutNode, area: Rect)
    requires
        node.fits(area),
        area.x + area.width <= u16::MAX,
        area.y + area.height <= u16::MAX,
    ensures
        forall|i: int| 0 <= i < node.borders(area).len() ==> border_in_range(#[trigger] node.borders(area)[i]),
    decreases node,
{
    if let LayoutNode::Split { direction, ratio, first, second } = node {
        let (fa, sa) = spec_split_rect(area, direction, ratio);
        lemma_borders_in_range(*first, fa);
        lemma_borders_in_range(*second, sa);
        let b = node.borders(area);
        let fb = first.borders(fa);
        let sb = second.borders(sa);
        assert(b == seq![spec_border_of(area, direction, ratio)] + fb + sb);
        assert forall|i: int| 0 <= i < b.len() implies border_in_range(#[trigger] b[i]) by {
            if i == 0 {
            } else if i < 1 + fb.len() {
                assert(b[i] == fb[i - 1]);
            } else {
                assert(b[i] == sb[i - 1 - fb.len()]);
            }
        }
    }
}

/// Splitting finds the target exactly when it is a pane of the tree, and
/// then inserts the new pane right after the first occurrence of the target.
pub proof fn lemma_split_ids_pub(node: LayoutNode, target: u32, new_id: u32, direction: Split)
    ensures
        node.spec_split_pane(target, new_id, direction) is Some <==> node.ids().contains(target),
        node.spec_split_pane(target, new_id, direction) matches Some(n) ==> n.ids() == node.ids().insert(
            first_index(node.ids(), target) + 1,
            new_id,
        ),
{
    lemma_split_ids(node, target, new_id, direction);
}

/// Removing finds the target exactly when the tree is a split holding it;
/// with distinct pane ids, exactly that pane leaves, and the pane reported
/// as remaining is still in the tree.
pub proof fn lemma_remove_pub(node: LayoutNode, target: u32)
    ensures
        node.spec_remove_pane(target) is Some <==> (node is Split && node.ids().contains(target)),
        node.ids().no_duplicates() ==> (node.spec_remove_pane(target) matches Some((n, r)) ==> n.ids()
            == node.ids().remove(first_index(node.ids(), target)) && n.ids().contains(r)),
{
    lemma_remove_some(node, target);
    if node.ids().no_duplicates() && node is Split && node.ids().contains(target) {
        lemma_remove_ids(node, target);
    }
}

impl LayoutNode {
    /// The subtree beside the leaf of `target`: the other child of the split
    /// that has that leaf as a child; `None` when no such split exists.
    pub open spec fn sibling_of(self, target: u32) -> Option<LayoutNode>
        decreases self,
    {
        match self {
            LayoutNode::Leaf { .. } => None,
            LayoutNode::Split { first, second, .. } => if first.is_leaf_of(target) {
                Some(*second)
            } else if second.is_leaf_of(target) {
                Some(*first)
            } else if first.ids().contains(target) {
                first.sibling_of(target)
            } else {
                second.sibling_of(target)
            },
        }
    }
}

/// Removing a pane from a layout whose panes are distinct names the first
/// pane of the subtree that stood beside it, the one that takes its place;
/// in leaf order that subtree's panes stand right after the removed pane,
/// or right before it, so the named pane is the one right after it, or the
/// first of the run of panes right before it.
pub proof fn lemma_remove_names_sibling_first(node: LayoutNode, target: u32)
    requires
        node.ids().no_duplicates(),
    ensures
        node.spec_remove_pane(target) matches Some((n, r)) ==> {
            let i = first_index(node.ids(), target);
            &&& node.sibling_of(target) matches Some(s)
            &&& r == s.ids()[0]
            &&& {
                let k = s.ids().len() as int;
                ||| (i + 1 + k <= node.ids().len() && node.ids().subrange(i + 1, i + 1 + k) == s.ids()
                    && r == node.ids()[i + 1])
                ||| (k <= i && node.ids().subrange(i - k, i) == s.ids() && r == node.ids()[i - k])
            }
        },
    decreases node,
{
    if let LayoutNode::Split { first, second, .. } = node {
        let a = first.ids();
        let b = second.ids();
        let ids = node.ids();
        assert(ids == a + b);
        lemma_ids_len(*first);
        lemma_ids_len(*second);
        lemma_first_index_concat(a, b, target);
        lemma_contains_concat(a, b, target);
        lemma_first_index(a, target);
        lemma_first_index(b, target);
        assert(a.no_duplicates()) by {
            assert forall|p: int, q: int| 0 <= p < a.len() && 0 <= q < a.len() && p != q implies a[p] != a[q] by {
                assert(ids[p] == a[p] && ids[q] == a[q]);
            }
        }
        assert(b.no_duplicates()) by {
            assert forall|p: int, q: int| 0 <= p < b.len() && 0 <= q < b.len() && p != q implies b[p] != b[q] by {
                assert(ids[a.len() + p] == b[p] && ids[a.len() + q] == b[q]);
            }
        }
        if first.is_leaf_of(target) {
            assert(a == seq![target]);
            assert(first_index(a, target) == 0);
            assert(ids.subrange(1, 1 + b.len() as int) =~= b);
            assert(ids[1] == b[0]);
        } else if second.is_leaf_of(target) {
            assert(b == seq![target]);
            assert(!a.contains(target)) by {
                if a.contains(target) {
                    let p = choose|p: int| 0 <= p < a.len() && a[p] == target;
                    assert(ids[p] == target && ids[a.len() as int] == target);
                }
            }
            assert(first_index(b, target) == 0);
            assert(ids.subrange(0, a.len() as int) =~= a);
            assert(ids[0] == a[0]);
            assert(first_index(ids, target) == a.len());
        } else {
            lemma_remove_some(*first, target);
            lemma_remove_some(*second, target);
            lemma_remove_names_sibling_first(*first, target);
            lemma_remove_names_sibling_first(*second, target);
            if *first is Leaf {
                lemma_leaf_contains(*first, target);
            }
            if let Some((n, r)) = node.spec_remove_pane(target) {
                if a.contains(target) {
                    assert(first.spec_remove_pane(target) is Some);
                    let i = first_index(a, target);
                    assert(first_index(ids, target) == i);
                    let s = first.sibling_of(target)->0;
                    lemma_ids_len(s);
                    let k = s.ids().len() as int;
                    if i + 1 + k <= a.len() && a.subrange(i + 1, i + 1 + k) == s.ids() && r == a[i + 1] {
                        assert(ids.subrange(i + 1, i + 1 + k) =~= a.subrange(i + 1, i + 1 + k));
                        assert(ids[i + 1] == a[i + 1]);
                    } else {
                        assert(ids.subrange(i - k, i) =~= a.subrange(i - k, i));
                        assert(ids[i - k] == a[i - k]);
                    }
                } else {
                    assert(b.contains(target));
                    if *second is Leaf {
                        lemma_leaf_contains(*second, target);
                    }
                    let i = first_index(b, target);
                    let s = second.sibling_of(target)->0;
                    lemma_ids_len(s);
                    let k = s.ids().len() as int;
                    let off = a.len() as int;
                    assert(first.spec_remove_pane(target) is None);
                    assert(second.spec_remove_pane(target) is Some);
                    assert(first_index(ids, target) == off + i);
                    if i + 1 + k <= b.len() && b.subrange(i + 1, i + 1 + k) == s.ids() && r == b[i + 1] {
                        assert(ids.subrange(off + i + 1, off + i + 1 + k) =~= b.subrange(i + 1, i + 1 + k));
                        assert(ids[off + i + 1] == b[i + 1]);
                    } else {
                        assert(ids.subrange(off + i - k, off + i) =~= b.subrange(i - k, i));
                        assert(ids[off + i - k] == b[i - k]);
                    }
                }
            }
        }
    }
}

/// The length of a rectangle along the axis that a split of `direction`
/// divides: its width for a vertical split, its height for a horizontal one.
pub open spec fn axis_len(r: Rect, direction: Split) -> u16 {
    match direction {
        Split::Vertical => r.width,
        Split::Horizontal => r.height,
    }
}

/// Whether the border of a split of a length `len` at `ratio` can move one
/// line, forward (`grow`) or back, with a line left on each side of it:
/// forward, the second part must have at least two lines; back, the first
/// part must have at least two lines and the second at least one.
pub open spec fn can_step(len: u16, ratio: u16, grow: bool) -> bool {
    let fl = spec_first_len(len, ratio);
    if grow {
        fl + 3 <= len
    } else {
        2 <= fl && fl + 2 <= len
    }
}

/// The ratio after one resize step on a split of a length `len`: forward,
/// the least ratio whose first part is longer than now; back, the greatest
/// ratio whose first part is shorter than now.
pub open spec fn stepped_ratio(len: u16, ratio: u16, grow: bool) -> u16 {
    let fl = spec_first_len(len, ratio);
    if grow {
        (((fl + 1) * 1000 + len - 1) / (len as int)) as u16
    } else {
        ((fl * 1000 + len - 1) / (len as int) - 1) as u16
    }
}

/// A step moves the border: forward the first part grows, back it
/// shrinks, and on a length of at most 1000 lines by exactly one line; the
/// ratio stays valid.
pub proof fn lemma_stepped_ratio(len: u16, ratio: u16, grow: bool)
    requires
        ratio <= 1000,
        can_step(len, ratio, grow),
    ensures
        stepped_ratio(len, ratio, grow) <= 1000,
        grow ==> spec_first_len(len, stepped_ratio(len, ratio, grow)) > spec_first_len(len, ratio),
        !grow ==> spec_first_len(len, stepped_ratio(len, ratio, grow)) < spec_first_len(len, ratio),
        len <= 1000 ==> spec_first_len(len, stepped_ratio(len, ratio, grow)) == spec_first_len(len, ratio) + if grow {
            1int
        } else {
            -1int
        },
{
    let l = len as int;
    let fl = spec_first_len(len, ratio);
    assert((l * ratio as int) / 1000 <= l) by (nonlinear_arith)
        requires
            0 <= ratio <= 1000,
            0 <= l,
    ;
    assert(fl <= l);
    assert(l >= 3);
    let t: int = if grow { fl + 1 } else { fl };
    let x = t * 1000 + l - 1;
    let c = x / l;
    vstd::arithmetic::div_mod::lemma_fundamental_div_mod(x, l);
    let rm = x % l;
    assert(x == l * c + rm);
    assert(0 <= rm < l);
    assert(l * c >= t * 1000);
    assert(l * c <= t * 1000 + l - 1);
    assert(0 <= c <= 1000) by (nonlinear_arith)
        requires
            l * c >= t * 1000,
            l * c <= t * 1000 + l - 1,
            0 <= t <= l,
            l >= 3,
    ;
    if grow {
        let r2 = c;
        assert(stepped_ratio(len, ratio, grow) == r2);
        let f2 = (l * r2) / 1000;
        assert(f2 >= t) by (nonlinear_arith)
            requires
                l * r2 >= t * 1000,
                f2 == (l * r2) / 1000,
        ;
        assert(f2 <= l) by (nonlinear_arith)
            requires
                0 <= r2 <= 1000,
                l >= 0,
                f2 == (l * r2) / 1000,
        ;
        assert(spec_first_len(len, r2 as u16) == f2);
        if l <= 1000 {
            assert(f2 <= t) by (nonlinear_arith)
                requires
                    l * r2 <= t * 1000 + l - 1,
                    l <= 1000,
                    f2 == (l * r2) / 1000,
            ;
        }
    } else {
        assert(c >= 1) by (nonlinear_arith)
            requires
                l * c >= t * 1000,
                t >= 2,
                l >= 3,
        ;
        let r2 = c - 1;
        assert(stepped_ratio(len, ratio, grow) == r2);
        let f2 = (l * r2) / 1000;
        assert(l * r2 == l * c - l) by (nonlinear_arith)
            requires
                r2 == c - 1,
        ;
        assert(f2 <= t - 1) by (nonlinear_arith)
            requires
                l * r2 <= t * 1000 - 1,
                f2 == (l * r2) / 1000,
        ;
        assert(0 <= f2) by (nonlinear_arith)
            requires
                l * r2 >= 0,
                f2 == (l * r2) / 1000,
        ;
        assert(l * r2 >= 0) by (nonlinear_arith)
            requires
                r2 >= 0,
                l >= 0,
        ;
        assert(spec_first_len(len, r2 as u16) == f2);
        if l <= 1000 {
            assert(f2 >= t - 1) by (nonlinear_arith)
                requires
                    l * r2 >= t * 1000 - l,
                    l <= 1000,
                    f2 == (l * r2) / 1000,
            ;
        }
    }
}

impl LayoutNode {
    /// Whether a split of `direction` lies on the way from the root down to
    /// the first leaf of `id`.
    pub open spec fn on_path(self, id: u32, direction: Split) -> bool
        decreases self,
    {
        match self {
            LayoutNode::Leaf { .. } => false,
            LayoutNode::Split { direction: d, first, second, .. } => if first.ids().contains(id) {
                d == direction || first.on_path(id, direction)
            } else if second.ids().contains(id) {
                d == direction || second.on_path(id, direction)
            } else {
                false
            },
        }
    }

    /// The tree, laid out on `area`, after one resize step of the split of
    /// `direction` nearest above the first leaf of `id`: its border moves
    /// one line right or down when `grow`, left or up otherwise (see
    /// `stepped_ratio`). `None` when there is no such split or its border
    /// cannot move (see `can_step`).
    pub open spec fn spec_resize(self, area: Rect, id: u32, direction: Split, grow: bool) -> Option<LayoutNode>
        decreases self,
    {
        match self {
            LayoutNode::Leaf { .. } => None,
            LayoutNode::Split { direction: d, ratio, first, second } => {
                let (fa, sa) = spec_split_rect(area, d, ratio);
                let len = axis_len(area, d);
                if first.ids().contains(id) {
                    if first.on_path(id, direction) {
                        match first.spec_resize(fa, id, direction, grow) {
                            Some(f) => Some(LayoutNode::Split { direction: d, ratio, first: Box::new(f), second }),
                            None => None,
                        }
                    } else if d == direction && can_step(len, ratio, grow) {
                        Some(LayoutNode::Split { direction: d, ratio: stepped_ratio(len, ratio, grow), first, second })
                    } else {
                        None
                    }
                } else if second.ids().contains(id) {
                    if second.on_path(id, direction) {
                        match second.spec_resize(sa, id, direction, grow) {
                            Some(t) => Some(LayoutNode::Split { direction: d, ratio, first, second: Box::new(t) }),
                            None => None,
                        }
                    } else if d == direction && can_step(len, ratio, grow) {
                        Some(LayoutNode::Split { direction: d, ratio: stepped_ratio(len, ratio, grow), first, second })
                    } else {
                        None
                    }
                } else {
                    None
                }
            },
        }
    }
}

/// A resize step keeps the panes, their order and the tree's height, and
/// keeps valid ratios valid.
pub proof fn lemma_resize_preserves(node: LayoutNode, area: Rect, id: u32, direction: Split, grow: bool)
    ensures
        node.spec_resize(area, id, direction, grow) matches Some(n) ==> {
            &&& n.ids() == node.ids()
            &&& n.height() == node.height()
            &&& n.split_count() == node.split_count()
            &&& (node.ratios_valid() ==> n.ratios_valid())
        },
    decreases node,
{
    if let LayoutNode::Split { direction: d, ratio, first, second } = node {
        let (fa, sa) = spec_split_rect(area, d, ratio);
        lemma_resize_preserves(*first, fa, id, direction, grow);
        lemma_resize_preserves(*second, sa, id, direction, grow);
        let len = axis_len(area, d);
        if ratio <= 1000 && can_step(len, ratio, grow) {
            lemma_stepped_ratio(len, ratio, grow);
        }
    }
}

/// The ratio after a resize step (see `stepped_ratio`), or `None` when the
/// border cannot move (see `can_step`).
fn step_ratio(len: u16, ratio: u16, grow: bool) -> (r: Option<u16>)
    ensures
        r is Some <==> can_step(len, ratio, grow),
        r matches Some(v) ==> v == stepped_ratio(len, ratio, grow),
{
    let fl = first_len(len, ratio) as u64;
    let l = len as u64;
    if grow {
        if fl + 3 > l {
            return None;
        }
        Some((((fl + 1) * 1000 + l - 1) / l) as u16)
    } else {
        if fl < 2 || fl + 2 > l {
            return None;
        }
        let x = fl * 1000 + l - 1;
        assert(x / l >= 1) by (nonlinear_arith)
            requires
                x >= l,
                l >= 1,
        ;
        Some((x / l - 1) as u16)
    }
}

fn resize_node(node: LayoutNode, area: Rect, id: u32, direction: Split, grow: bool) -> (r: (LayoutNode, bool))
    requires
        node.fits(area),
    ensures
        match node.spec_resize(area, id, direction, grow) {
            Some(n) => r == (n, true),
            None => r == (node, false),
        },
    decreases node,
{
    match node {
        LayoutNode::Leaf { pane_id } => (LayoutNode::Leaf { pane_id }, false),
        LayoutNode::Split { direction: d, ratio, first, second } => {
            let (fa, sa) = split_rect(area, d, ratio);
            let len = match d {
                Split::Vertical => area.width,
                Split::Horizontal => area.height,
            };
            if first.holds_pane(id) {
                if first.path_has_split(id, direction) {
                    let (f, done) = resize_node(*first, fa, id, direction, grow);
                    (LayoutNode::Split { direction: d, ratio, first: Box::new(f), second }, done)
                } else if d == direction {
                    match step_ratio(len, ratio, grow) {
                        Some(r2) => (LayoutNode::Split { direction: d, ratio: r2, first, second }, true),
                        None => (LayoutNode::Split { direction: d, ratio, first, second }, false),
                    }
                } else {
                    (LayoutNode::Split { direction: d, ratio, first, second }, false)
                }
            } else if second.holds_pane(id) {
                if second.path_has_split(id, direction) {
                    let (t, done) = resize_node(*second, sa, id, direction, grow);
                    (LayoutNode::Split { direction: d, ratio, first, second: Box::new(t) }, done)
                } else if d == direction {
                    match step_ratio(len, ratio, grow) {
                        Some(r2) => (LayoutNode::Split { direction: d, ratio: r2, first, second }, true),
                        None => (LayoutNode::Split { direction: d, ratio, first, second }, false),
                    }
                } else {
                    (LayoutNode::Split { direction: d, ratio, first, second }, false)
                }
            } else {
                (LayoutNode::Split { direction: d, ratio, first, second }, false)
            }
        },
    }
}

impl LayoutNode {
    /// Whether a leaf of the tree holds `id`.
    pub fn holds_pane(&self, id: u32) -> (r: bool)
        ensures
            r == self.ids().contains(id),
        decreases self,
    {
        match self {
            LayoutNode::Leaf { pane_id } => {
                proof {
                    assert(self.ids() == seq![*pane_id]);
                    assert(self.ids()[0] == *pane_id);
                }
                *pane_id == id
            },
            LayoutNode::Split { first, second, .. } => {
                let a = first.holds_pane(id);
                let b = second.holds_pane(id);
                proof {
                    let fi = first.ids();
                    let si = second.ids();
                    assert(self.ids() == fi + si);
                    if a {
                        let k = choose|k: int| 0 <= k < fi.len() && fi[k] == id;
                        assert((fi + si)[k] == id);
                    }
                    if b {
                        let k = choose|k: int| 0 <= k < si.len() && si[k] == id;
                        assert((fi + si)[fi.len() + k] == id);
                    }
                    if self.ids().contains(id) {
                        let k = choose|k: int| 0 <= k < (fi + si).len() && (fi + si)[k] == id;
                        if k < fi.len() {
                            assert(fi[k] == id);
                        } else {
                            assert(si[k - fi.len()] == id);
                        }
                    }
                }
                a || b
            },
        }
    }

    /// Whether a split of `direction` lies above the first leaf of `id`
    /// (see `on_path`).
    pub fn path_has_split(&self, id: u32, direction: Split) -> (r: bool)
        ensures
            r == self.on_path(id, direction),
        decreases self,
    {
        match self {
            LayoutNode::Leaf { .. } => false,
            LayoutNode::Split { direction: d, first, second, .. } => {
                if first.holds_pane(id) {
                    *d == direction || first.path_has_split(id, direction)
                } else if second.holds_pane(id) {
                    *d == direction || second.path_has_split(id, direction)
                } else {
                    false
                }
            },
        }
    }

    /// Takes one resize step, with the tree laid out on `area`, on the split
    /// of `direction` nearest above the first leaf of `id` (see
    /// `spec_resize`); returns whether a border moved, the tree being
    /// unchanged otherwise.
    pub fn resize_pane(&mut self, area: Rect, id: u32, direction: Split, grow: bool) -> (r: bool)
        requires
            old(self).fits(area),
        ensures
            r == old(self).spec_resize(area, id, direction, grow) is Some,
            r ==> Some(*final(self)) == old(self).spec_resize(area, id, direction, grow),
            !r ==> *final(self) == *old(self),
    {
        let node = take_node(self);
        let (n, done) = resize_node(node, area, id, direction, grow);
        *self = n;
        done
    }
}

fn take_node(node: &mut LayoutNode) -> (r: LayoutNode)
    ensures
        r == *old(node),
{
    let mut tmp = LayoutNode::Leaf { pane_id: 0 };
    std::mem::swap(&mut tmp, node);
    tmp
}

fn split_node(node: LayoutNode, target: u32, new_id: u32, direction: Split) -> (r: (
    LayoutNode,
    bool,
))
    ensures
        match node.spec_split_pane(target, new_id, direction) {
            Some(n) => r == (n, true),
            None => r == (node, false),
        },
    decreases node,
{
    match node {
        LayoutNode::Leaf { pane_id } => {
            if pane_id == target {
                (
                    LayoutNode::Split {
                        direction,
                        ratio: HALF_RATIO,
                        first: Box::new(LayoutNode::Leaf { pane_id }),
                        second: Box::new(LayoutNode::Leaf { pane_id: new_id }),
                    },
                    true,
                )
            } else {
                (LayoutNode::Leaf { pane_id }, false)
            }
        },
        LayoutNode::Split { direction: d, ratio, first, second } => {
            let (f, done) = split_node(*first, target, new_id, direction);
            if done {
                (LayoutNode::Split { direction: d, ratio, first: Box::new(f), second }, true)
            } else {
                let (s, done2) = split_node(*second, target, new_id, direction);
                (LayoutNode::Split { direction: d, ratio, first: Box::new(f), second: Box::new(s) }, done2)
            }
        },
    }
}

fn remove_node(node: LayoutNode, target: u32) -> (r: (LayoutNode, Option<u32>))
    ensures
        match node.spec_remove_pane(target) {
            Some((n, id)) => r == (n, Some(id)),
            None => r == (node, None::<u32>),
        },
    decreases node,
{
    match node {
        LayoutNode::Leaf { pane_id } => (LayoutNode::Leaf { pane_id }, None),
        LayoutNode::Split { direction, ratio, first, second } => {
            let first_is_target = match &*first {
                LayoutNode::Leaf { pane_id } => *pane_id == target,
                _ => false,
            };
            if first_is_target {
                let remaining = second.first_pane_id();
                return (*second, Some(remaining));
            }
            let second_is_target = match &*second {
                LayoutNode::Leaf { pane_id } => *pane_id == target,
                _ => false,
            };
            if second_is_target {
                let remaining = first.first_pane_id();
                return (*first, Some(remaining));
            }
            let (f, removed) = remove_node(*first, target);
            match removed {
                Some(id) => (LayoutNode::Split { direction, ratio, first: Box::new(f), second }, Some(id)),
                None => {
                    let (s, removed2) = remove_node(*second, target);
                    (LayoutNode::Split { direction, ratio, first: Box::new(f), second: Box::new(s) }, removed2)
                },
            }
        },
    }
}

impl LayoutNode {
    /// Divides the first leaf holding `target_pane_id` in half: the old pane
    /// keeps the first part and `new_pane_id` gets the second. Returns whether
    /// such a leaf was found; otherwise the tree is unchanged.
    pub fn split_pane(&mut self, target_pane_id: u32, new_pane_id: u32, direction: Split) -> (r: bool)
        ensures
            r == old(self).ids().contains(target_pane_id),
            r ==> Some(*final(self)) == old(self).spec_split_pane(target_pane_id, new_pane_id, direction),
            !r ==> *final(self) == *old(self),
            !r ==> old(self).spec_split_pane(target_pane_id, new_pane_id, direction) is None,
            r ==> final(self).ids() == old(self).ids().insert(
                first_index(old(self).ids(), target_pane_id) + 1,
                new_pane_id,
            ),
    {
        proof {
            lemma_split_ids(*old(self), target_pane_id, new_pane_id, direction);
        }
        let node = take_node(self);
        let (n, done) = split_node(node, target_pane_id, new_pane_id, direction);
        *self = n;
        done
    }

    /// Removes the leaf of `target_pane_id`, replacing its parent split by
    /// the sibling subtree, and returns the first pane of that sibling.
    /// Returns `None`, leaving the tree unchanged, when the tree is a single
    /// pane or no leaf holds `target_pane_id`.
    pub fn remove_pane(&mut self, target_pane_id: u32) -> (r: Option<u32>)
        ensures
            r is Some <==> (*old(self) is Split && old(self).ids().contains(target_pane_id)),
            r is Some ==> old(self).spec_remove_pane(target_pane_id) == Some(
                (*final(self), r->0),
            ),
            r is None ==> *final(self) == *old(self),
            r is None ==> old(self).spec_remove_pane(target_pane_id) is None,
            r is Some && old(self).ids().no_duplicates() ==> {
                &&& final(self).ids() == old(self).ids().remove(
                    first_index(old(self).ids(), target_pane_id),
                )
                &&& final(self).ids().contains(r->0)
            },
    {
        proof {
            lemma_remove_some(*old(self), target_pane_id);
            if old(self).ids().no_duplicates() && old(self).ids().contains(target_pane_id) && *old(self) is Split {
                lemma_remove_ids(*old(self), target_pane_id);
            }
        }
        let node = take_node(self);
        let (n, removed) = remove_node(node, target_pane_id);
        *self = n;
        removed
    }
}

} // verus!
