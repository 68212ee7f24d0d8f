//! Geometry/split-tree: a tab's recursive pane arrangement and the rectangles it draws to.

use std::collections::HashMap;
use vstd::prelude::*;
use vstd::std_specs::hash::obeys_key_model;

use crate::protocol::{Dir, PaneId, Side, PTY_PANE};
use crate::text::{decimal, decimal_string};

verus! {

broadcast use vstd::std_specs::hash::group_hash_axioms;

/// A screen rectangle in terminal cells.
#[derive(Debug, Clone, Copy, PartialEq, Eq, Structural)]
pub struct Rect {
    pub x: u16,
    pub y: u16,
    pub width: u16,
    pub height: u16,
}

impl Rect {
    /// Neither edge runs past the end of the `u16` coordinate space.
    pub open spec fn valid(self) -> bool {
        self.x + self.width <= u16::MAX && self.y + self.height <= u16::MAX
    }

    /// A rectangle at `(x, y)`; the size is clipped so the far edges stay inside `u16`.
    pub fn new(x: u16, y: u16, width: u16, height: u16) -> (r: Rect)
        ensures
            r.x == x,
            r.y == y,
            r.width == if x + width <= u16::MAX { width as int } else { u16::MAX - x },
            r.height == if y + height <= u16::MAX { height as int } else { u16::MAX - y },
            r.valid(),
    {
        let width: u16 = if width <= u16::MAX - x { width } else { u16::MAX - x };
        let height: u16 = if height <= u16::MAX - y { height } else { u16::MAX - y };
        Rect { x, y, width, height }
    }

    /// One past the last column, saturating at `u16::MAX`.
    pub fn right(&self) -> (r: u16)
        ensures
            r == if self.x + self.width <= u16::MAX { self.x + self.width } else { u16::MAX as int },
    {
        if self.width <= u16::MAX - self.x { self.x + self.width } else { u16::MAX }
    }

    /// One past the last row, saturating at `u16::MAX`.
    pub fn bottom(&self) -> (r: u16)
        ensures
            r == if self.y + self.height <= u16::MAX { self.y + self.height } else { u16::MAX as int },
    {
        if self.height <= u16::MAX - self.y { self.y + self.height } else { u16::MAX }
    }

    /// The rectangle shrunk by one cell on every side (a border's interior); the empty
    /// rectangle at the origin when it is narrower or shorter than two cells.
    pub fn inner1(&self) -> (r: Rect)
        ensures
            self.width < 2 || self.height < 2 ==> r == (Rect { x: 0, y: 0, width: 0, height: 0 }),
            self.width >= 2 && self.height >= 2 ==> r == (Rect {
                x: if self.x < u16::MAX { (self.x + 1) as u16 } else { u16::MAX },
                y: if self.y < u16::MAX { (self.y + 1) as u16 } else { u16::MAX },
                width: (self.width - 2) as u16,
                height: (self.height - 2) as u16,
            }),
    {
        if self.width < 2 || self.height < 2 {
            Rect { x: 0, y: 0, width: 0, height: 0 }
        } else {
            Rect {
                x: if self.x < u16::MAX { self.x + 1 } else { u16::MAX },
                y: if self.y < u16::MAX { self.y + 1 } else { u16::MAX },
                width: self.width - 2,
                height: self.height - 2,
            }
        }
    }
}

/// A tab's pane arrangement: a recursive binary split tree. Leaves are panes.
#[derive(Debug, PartialEq, Eq)]
pub enum Layout {
    Pane(PaneId),
    Split {
        dir: Dir,
        /// Percent of the split given to `first`, 1..=99.
        ratio: u16,
        first: Box<Layout>,
        second: Box<Layout>,
    },
}

/// The error text for an absent pane: `no pane #<id>`.
pub open spec fn no_pane_message(id: PaneId) -> Seq<char> {
    seq!['n', 'o', ' ', 'p', 'a', 'n', 'e', ' ', '#'] + decimal(id as nat)
}

/// The error text for closing the shell pane.
pub open spec fn shell_close_message() -> Seq<char> {
    "the shell pane can't be closed"@
}

/// `ratio` clamped into `1..=99`.
pub open spec fn clamp_ratio(ratio: int) -> int {
    if ratio < 1 { 1 } else if ratio > 99 { 99 } else { ratio }
}

/// The share of a new split given to `first`, when the new pane takes `ratio` percent on `side`.
pub open spec fn first_share(ratio: u16, side: Side) -> int {
    match side {
        Side::First => clamp_ratio(ratio as int),
        Side::Second => clamp_ratio(100 - ratio),
    }
}

impl Layout {
    /// The panes, left to right (in-order).
    pub open spec fn leaves(self) -> Seq<PaneId>
        decreases self,
    {
        match self {
            Layout::Pane(id) => seq![id],
            Layout::Split { first, second, .. } => first.leaves() + second.leaves(),
        }
    }

    /// The leaf `Pane(target)` that comes first in order replaced by the two-pane split
    /// holding `target` and `new`, with `new` on `side`; `None` when `target` is no leaf.
    pub open spec fn split_first(self, target: PaneId, dir: Dir, ratio: u16, side: Side, new: PaneId)
        -> Option<Layout>
        decreases self,
    {
        match self {
            Layout::Pane(id) => if id != target {
                None
            } else if side == Side::First {
                Some(
                    Layout::Split {
                        dir,
                        ratio: first_share(ratio, side) as u16,
                        first: Box::new(Layout::Pane(new)),
                        second: Box::new(Layout::Pane(target)),
                    },
                )
            } else {
                Some(
                    Layout::Split {
                        dir,
                        ratio: first_share(ratio, side) as u16,
                        first: Box::new(Layout::Pane(target)),
                        second: Box::new(Layout::Pane(new)),
                    },
                )
            },
            Layout::Split { dir: d, ratio: r, first, second } => match first.split_first(
                target,
                dir,
                ratio,
                side,
                new,
            ) {
                Some(f) => Some(Layout::Split { dir: d, ratio: r, first: Box::new(f), second }),
                None => match second.split_first(target, dir, ratio, side, new) {
                    Some(s) => Some(Layout::Split { dir: d, ratio: r, first, second: Box::new(s) }),
                    None => None,
                },
            },
        }
    }

    /// Every split whose direct child is `Pane(pane)` replaced by its other child (the first
    /// child is checked first); other splits recurse into both children.
    pub open spec fn collapsed(self, pane: PaneId) -> Layout
        decreases self,
    {
        match self {
            Layout::Pane(id) => self,
            Layout::Split { dir, ratio, first, second } => if *first == Layout::Pane(pane) {
                *second
            } else if *second == Layout::Pane(pane) {
                *first
            } else {
                Layout::Split {
                    dir,
                    ratio,
                    first: Box::new(first.collapsed(pane)),
                    second: Box::new(second.collapsed(pane)),
                }
            },
        }
    }

    /// Every stored ratio lies in `1..=99`.
    pub open spec fn ratios_ok(self) -> bool
        decreases self,
    {
        match self {
            Layout::Pane(_) => true,
            Layout::Split { ratio, first, second, .. } => 1 <= ratio <= 99 && first.ratios_ok()
                && second.ratios_ok(),
        }
    }

    /// Replace the first `Pane(target)` leaf with a split placing `new` on `side`, the new pane
    /// taking `ratio` percent (clamped to `1..=99`). Errors with `no pane #<target>` when
    /// `target` is no leaf here.
    pub fn split(&mut self, target: PaneId, dir: Dir, ratio: u16, side: Side, new: PaneId) -> (res:
        Result<(), String>)
        requires
            side == Side::Second ==> ratio <= 100,
        ensures
            old(self).leaves().contains(target) <==> res is Ok,
            old(self).split_first(target, dir, ratio, side, new) is Some <==> res is Ok,
            res is Ok ==> *final(self) == old(self).split_first(target, dir, ratio, side, new)->0,
            res is Err ==> *final(self) == *old(self) && res->Err_0@ == no_pane_message(target),
        decreases *old(self),
    {
        proof {
            lemma_split_first_some_iff(*self, target, dir, ratio, side, new);
        }
        match self {
            Layout::Pane(id) => {
                if *id == target {
                    let first_ratio: u16 = match side {
                        Side::First => ratio,
                        Side::Second => 100 - ratio,
                    };
                    let clamped: u16 = if first_ratio < 1 { 1 } else if first_ratio > 99 { 99 } else { first_ratio };
                    let (first, second) = match side {
                        Side::First => (Layout::Pane(new), Layout::Pane(target)),
                        Side::Second => (Layout::Pane(target), Layout::Pane(new)),
                    };
                    *self = Layout::Split {
                        dir,
                        ratio: clamped,
                        first: Box::new(first),
                        second: Box::new(second),
                    };
                    Ok(())
                } else {
                    Err(no_pane_string(target))
                }
            },
            Layout::Split { first, second, .. } => {
                match first.split(target, dir, ratio, side, new) {
                    Ok(()) => Ok(()),
                    Err(e) => match second.split(target, dir, ratio, side, new) {
                        Ok(()) => Ok(()),
                        Err(_) => Err(e),
                    },
                }
            },
        }
    }

    /// Remove `pane`, collapsing its parent split into the sibling subtree. Errors on the PTY
    /// (`the shell pane can't be closed`) or an absent pane (`no pane #<pane>`).
    pub fn remove(&mut self, pane: PaneId) -> (res: Result<(), String>)
        ensures
            pane == PTY_PANE ==> res is Err && res->Err_0@ == shell_close_message(),
            pane != PTY_PANE && !old(self).leaves().contains(pane) ==> res is Err
                && res->Err_0@ == no_pane_message(pane),
            pane != PTY_PANE && old(self).leaves().contains(pane) ==> res is Ok,
            res is Ok ==> *final(self) == old(self).collapsed(pane),
            res is Err ==> *final(self) == *old(self),
    {
        if pane == PTY_PANE {
            let s = String::from_str("the shell pane can't be closed");
            return Err(s);
        }
        if !self.contains(pane) {
            return Err(no_pane_string(pane));
        }
        self.collapse(pane);
        Ok(())
    }

    fn collapse(&mut self, pane: PaneId)
        ensures
            *final(self) == old(self).collapsed(pane),
        decreases *old(self),
    {
        let new_self: Option<Layout> = match self {
            Layout::Pane(_) => None,
            Layout::Split { first, second, .. } => {
                if is_leaf(first, pane) {
                    Some(second.copy())
                } else if is_leaf(second, pane) {
                    Some(first.copy())
                } else {
                    first.collapse(pane);
                    second.collapse(pane);
                    None
                }
            },
        };
        if let Some(l) = new_self {
            *self = l;
        }
    }

    /// A structurally equal copy of the tree.
    pub fn copy(&self) -> (r: Layout)
        ensures
            r == *self,
        decreases self,
    {
        match self {
            Layout::Pane(id) => Layout::Pane(*id),
            Layout::Split { dir, ratio, first, second } => Layout::Split {
                dir: *dir,
                ratio: *ratio,
                first: Box::new(first.copy()),
                second: Box::new(second.copy()),
            },
        }
    }

    /// True if `pane` is a leaf anywhere in this tree.
    pub fn contains(&self, pane: PaneId) -> (b: bool)
        ensures
            b == self.leaves().contains(pane),
        decreases self,
    {
        match self {
            Layout::Pane(id) => {
                proof {
                    assert(self.leaves() =~= seq![*id]);
                    if *id == pane {
                        assert(self.leaves()[0] == pane);
                    }
                }
                *id == pane
            },
            Layout::Split { first, second, .. } => {
                let a = first.contains(pane);
                let b = second.contains(pane);
                proof {
                    lemma_contains_concat(first.leaves(), second.leaves(), pane);
                }
                a || b
            },
        }
    }

    /// Panes in positional (in-order) sequence — the order the picker labels `1..N`.
    pub fn order(&self) -> (out: Vec<PaneId>)
        ensures
            out@ == self.leaves(),
    {
        let mut out: Vec<PaneId> = Vec::new();
        self.walk(&mut out);
        assert(out@ =~= self.leaves());
        out
    }

    fn walk(&self, out: &mut Vec<PaneId>)
        ensures
            final(out)@ == old(out)@ + self.leaves(),
        decreases self,
    {
        match self {
            Layout::Pane(id) => {
                out.push(*id);
                assert(final(out)@ =~= old(out)@ + self.leaves());
            },
            Layout::Split { first, second, .. } => {
                first.walk(out);
                second.walk(out);
                assert(final(out)@ =~= old(out)@ + self.leaves());
            },
        }
    }
}

impl Clone for Layout {
    fn clone(&self) -> (r: Layout)
        ensures
            r == *self,
    {
        self.copy()
    }
}

/// `layout` is the single leaf `Pane(pane)`.
fn is_leaf(layout: &Layout, pane: PaneId) -> (b: bool)
    ensures
        b == (*layout == Layout::Pane(pane)),
{
    match layout {
        Layout::Pane(id) => *id == pane,
        _ => false,
    }
}

/// The `no pane #<id>` error text.
pub(crate) fn no_pane_string(id: PaneId) -> (s: String)
    ensures
        s@ == no_pane_message(id),
{
    let mut s = String::from_str("no pane #");
    proof {
        reveal_strlit("no pane #");
    }
    let d = decimal_string(id);
    s.append(d.as_str());
    assert(s@ =~= no_pane_message(id));
    s
}

proof fn lemma_contains_concat(a: Seq<PaneId>, b: Seq<PaneId>, p: PaneId)
    ensures
        (a + b).contains(p) == (a.contains(p) || b.contains(p)),
{
    if a.contains(p) {
        let i = choose|i: int| 0 <= i < a.len() && a[i] == p;
        assert((a + b)[i] == p);
    }
    if b.contains(p) {
        let i = choose|i: int| 0 <= i < b.len() && b[i] == p;
        assert((a + b)[a.len() + i] == p);
    }
    if (a + b).contains(p) {
        let i = choose|i: int| 0 <= i < (a + b).len() && (a + b)[i] == p;
        if i < a.len() {
            assert(a[i] == p);
        } else {
            assert(b[i - a.len()] == p);
        }
    }
}

/// `split_first` succeeds exactly when `target` is a leaf.
pub proof fn lemma_split_first_some_iff(l: Layout, target: PaneId, dir: Dir, ratio: u16, side: Side, new: PaneId)
    ensures
        l.split_first(target, dir, ratio, side, new) is Some <==> l.leaves().contains(target),
    decreases l,
{
    match l {
        Layout::Pane(id) => {
            assert(l.leaves() =~= seq![id]);
            if l.leaves().contains(target) {
                let i = choose|i: int| 0 <= i < l.leaves().len() && l.leaves()[i] == target;
                assert(i == 0);
            }
            if id == target {
                assert(l.leaves()[0] == target);
            }
        },
        Layout::Split { first, second, .. } => {
            lemma_split_first_some_iff(*first, target, dir, ratio, side, new);
            lemma_split_first_some_iff(*second, target, dir, ratio, side, new);
            lemma_contains_concat(first.leaves(), second.leaves(), target);
        },
    }
}

/// The pane the 1-based positional label `n` names (the picker's `1..N`), or `None` past the end
/// or for `0`.
pub fn pane_at(layout: &Layout, n: usize) -> (r: Option<PaneId>)
    ensures
        1 <= n <= layout.leaves().len() ==> r == Some(layout.leaves()[n - 1]),
        !(1 <= n <= layout.leaves().len()) ==> r is None,
{
    let order = layout.order();
    if n >= 1 && n <= order.len() {
        Some(order[n - 1])
    } else {
        None
    }
}

/// `area` split into (first, second) by `dir` with `first` taking `ratio` percent (clamped to
/// `1..=99`, rounded down); the second part takes the rest.
pub open spec fn split_parts(area: Rect, dir: Dir, ratio: u16) -> (Rect, Rect) {
    let r = clamp_ratio(ratio as int);
    match dir {
        Dir::Horizontal => {
            let w = area.width * r / 100;
            (
                Rect { x: area.x, y: area.y, width: w as u16, height: area.height },
                Rect {
                    x: (area.x + w) as u16,
                    y: area.y,
                    width: (area.width - w) as u16,
                    height: area.height,
                },
            )
        },
        Dir::Vertical => {
            let h = area.height * r / 100;
            (
                Rect { x: area.x, y: area.y, width: area.width, height: h as u16 },
                Rect {
                    x: area.x,
                    y: (area.y + h) as u16,
                    width: area.width,
                    height: (area.height - h) as u16,
                },
            )
        },
    }
}

/// Geometry of every pane: a leaf gets the whole `area`; a split divides it by `split_parts`
/// and, where an id occurs twice, the later (second-subtree) placement wins.
pub open spec fn rect_map(layout: Layout, area: Rect) -> Map<PaneId, Rect>
    decreases layout,
{
    match layout {
        Layout::Pane(id) => map![id => area],
        Layout::Split { dir, ratio, first, second } => {
            let (a, b) = split_parts(area, dir, ratio);
            rect_map(*first, a).union_prefer_right(rect_map(*second, b))
        },
    }
}

proof fn lemma_share_bound(total: u16, r: int)
    requires
        1 <= r <= 99,
    ensures
        0 <= total * r / 100 <= total,
{
    assert(0 <= total * r / 100 <= total) by (nonlinear_arith)
        requires
            1 <= r <= 99,
            0 <= total,
    ;
}

/// Both parts of a split stay inside the split area and are themselves valid.
pub proof fn lemma_split_parts_inside(area: Rect, dir: Dir, ratio: u16)
    requires
        area.valid(),
    ensures
        ({
            let (a, b) = split_parts(area, dir, ratio);
            &&& a.valid() && b.valid()
            &&& a.x == area.x && a.y == area.y
            &&& dir == Dir::Horizontal ==> a.width + b.width == area.width && a.height == area.height
                && b.height == area.height && b.x == area.x + a.width && b.y == area.y
            &&& dir == Dir::Vertical ==> a.height + b.height == area.height && a.width == area.width
                && b.width == area.width && b.y == area.y + a.height && b.x == area.x
        }),
{
    lemma_share_bound(area.width, clamp_ratio(ratio as int));
    lemma_share_bound(area.height, clamp_ratio(ratio as int));
}

/// Split `area` into (first, second) by `dir`/`ratio`, matching what the renderer draws.
fn split_rect(area: Rect, dir: Dir, ratio: u16) -> (r: (Rect, Rect))
    requires
        area.valid(),
    ensures
        r == split_parts(area, dir, ratio),
{
    let ratio: u16 = if ratio < 1 { 1 } else if ratio > 99 { 99 } else { ratio };
    proof {
        lemma_share_bound(area.width, ratio as int);
        lemma_share_bound(area.height, ratio as int);
    }
    match dir {
        Dir::Horizontal => {
            let w = (area.width as u32 * ratio as u32 / 100) as u16;
            (
                Rect { x: area.x, y: area.y, width: w, height: area.height },
                Rect { x: area.x + w, y: area.y, width: area.width - w, height: area.height },
            )
        },
        Dir::Vertical => {
            let h = (area.height as u32 * ratio as u32 / 100) as u16;
            (
                Rect { x: area.x, y: area.y, width: area.width, height: h },
                Rect { x: area.x, y: area.y + h, width: area.width, height: area.height - h },
            )
        },
    }
}

/// Geometry for every pane. The single source both render and the overflow check read, so
/// what gets measured is what gets drawn.
pub fn rects(layout: &Layout, area: Rect) -> (map: HashMap<PaneId, Rect>)
    requires
        area.valid(),
    ensures
        map@ == rect_map(*layout, area),
{
    let mut map: HashMap<PaneId, Rect> = HashMap::new();
    fill_rects(layout, area, &mut map);
    assert(map@ =~= rect_map(*layout, area));
    map
}

fn fill_rects(layout: &Layout, area: Rect, map: &mut HashMap<PaneId, Rect>)
    requires
        area.valid(),
    ensures
        final(map)@ == old(map)@.union_prefer_right(rect_map(*layout, area)),
    decreases layout,
{
    proof {
        assert(obeys_key_model::<PaneId>());
    }
    match layout {
        Layout::Pane(id) => {
            map.insert(*id, area);
            assert(final(map)@ =~= old(map)@.union_prefer_right(rect_map(*layout, area)));
        },
        Layout::Split { dir, ratio, first, second } => {
            let (a, b) = split_rect(area, *dir, *ratio);
            proof {
                lemma_split_parts_inside(area, *dir, *ratio);
            }
            fill_rects(first, a, map);
            fill_rects(second, b, map);
            assert(final(map)@ =~= old(map)@.union_prefer_right(rect_map(*layout, area)));
        },
    }
}

} // verus!

verus! {

/// The two leaves a split of `target` produces, in order, with `new` on `side`.
pub open spec fn split_pair(target: PaneId, new: PaneId, side: Side) -> Seq<PaneId> {
    if side == Side::First { seq![new, target] } else { seq![target, new] }
}

/// A tree has at least one leaf.
pub proof fn lemma_leaves_nonempty(l: Layout)
    ensures
        l.leaves().len() >= 1,
    decreases l,
{
    match l {
        Layout::Pane(_) => {},
        Layout::Split { first, second, .. } => {
            lemma_leaves_nonempty(*first);
            lemma_leaves_nonempty(*second);
        },
    }
}

proof fn lemma_split_leaf_pair(id: PaneId, target: PaneId, dir: Dir, ratio: u16, side: Side, new: PaneId)
    requires
        id == target,
    ensures
        Layout::Pane(id).split_first(target, dir, ratio, side, new)->0.leaves() == split_pair(target, new, side),
{
    let r = Layout::Pane(id).split_first(target, dir, ratio, side, new)->0;
    match r {
        Layout::Split { first, second, .. } => {
            assert(first.leaves() == seq![first->0]);
            assert(second.leaves() == seq![second->0]);
            assert(r.leaves() =~= split_pair(target, new, side));
        },
        _ => {},
    }
}

/// Splitting `target`, whose first occurrence in order is position `i`, replaces that one leaf
/// with the pair `target`/`new` (new on `side`) and leaves every other pane where it was.
pub proof fn lemma_split_replaces_leaf(
    l: Layout,
    target: PaneId,
    dir: Dir,
    ratio: u16,
    side: Side,
    new: PaneId,
    i: int,
)
    requires
        0 <= i < l.leaves().len(),
        l.leaves()[i] == target,
        forall|j: int| 0 <= j < i ==> l.leaves()[j] != target,
    ensures
        l.split_first(target, dir, ratio, side, new) is Some,
        l.split_first(target, dir, ratio, side, new)->0.leaves() == l.leaves().subrange(0, i)
            + split_pair(target, new, side) + l.leaves().subrange(i + 1, l.leaves().len() as int),
    decreases l,
{
    lemma_split_first_some_iff(l, target, dir, ratio, side, new);
    assert(l.leaves()[i] == target);
    match l {
        Layout::Pane(id) => {
            lemma_split_leaf_pair(id, target, dir, ratio, side, new);
            assert(l.leaves() =~= seq![id]);
            assert(i == 0);
            assert(l.leaves().subrange(0, i) =~= Seq::<PaneId>::empty());
            assert(l.leaves().subrange(i + 1, l.leaves().len() as int) =~= Seq::<PaneId>::empty());
            assert(split_pair(target, new, side) =~= Seq::<PaneId>::empty() + split_pair(target, new, side) + Seq::<PaneId>::empty());
        },
        Layout::Split { dir: d, ratio: r, first, second } => {
            let f = first.leaves();
            let s = second.leaves();
            assert(l.leaves() == f + s);
            if i < f.len() {
                assert(f[i] == target);
                assert forall|j: int| 0 <= j < i implies f[j] != target by {
                    assert(l.leaves()[j] == f[j]);
                }
                lemma_split_replaces_leaf(*first, target, dir, ratio, side, new, i);
                let nf = first.split_first(target, dir, ratio, side, new)->0;
                let res = l.split_first(target, dir, ratio, side, new)->0;
                assert(res == Layout::Split { dir: d, ratio: r, first: Box::new(nf), second });
                assert(res.leaves() =~= l.leaves().subrange(0, i) + split_pair(target, new, side)
                    + l.leaves().subrange(i + 1, l.leaves().len() as int));
            } else {
                let k = i - f.len();
                assert(s[k] == target);
                assert forall|j: int| 0 <= j < k implies s[j] != target by {
                    assert(l.leaves()[f.len() + j] == s[j]);
                }
                assert(!f.contains(target)) by {
                    if f.contains(target) {
                        let j = choose|j: int| 0 <= j < f.len() && f[j] == target;
                        assert(l.leaves()[j] == f[j]);
                    }
                }
                lemma_split_first_some_iff(*first, target, dir, ratio, side, new);
                lemma_split_replaces_leaf(*second, target, dir, ratio, side, new, k);
                let ns = second.split_first(target, dir, ratio, side, new)->0;
                let res = l.split_first(target, dir, ratio, side, new)->0;
                assert(res == Layout::Split { dir: d, ratio: r, first, second: Box::new(ns) });
                assert(res.leaves() =~= l.leaves().subrange(0, i) + split_pair(target, new, side)
                    + l.leaves().subrange(i + 1, l.leaves().len() as int));
            }
        },
    }
}

/// Splitting keeps every stored ratio inside `1..=99`.
pub proof fn lemma_split_keeps_ratios(l: Layout, target: PaneId, dir: Dir, ratio: u16, side: Side, new: PaneId)
    requires
        l.ratios_ok(),
        side == Side::Second ==> ratio <= 100,
        l.split_first(target, dir, ratio, side, new) is Some,
    ensures
        l.split_first(target, dir, ratio, side, new)->0.ratios_ok(),
    decreases l,
{
    match l {
        Layout::Pane(_) => {
            let r = l.split_first(target, dir, ratio, side, new)->0;
            assert(1 <= first_share(ratio, side) <= 99);
            match r {
                Layout::Split { first, second, .. } => {
                    assert(first.ratios_ok());
                    assert(second.ratios_ok());
                },
                _ => {},
            }
        },
        Layout::Split { first, second, .. } => {
            if first.split_first(target, dir, ratio, side, new) is Some {
                lemma_split_keeps_ratios(*first, target, dir, ratio, side, new);
            } else {
                lemma_split_keeps_ratios(*second, target, dir, ratio, side, new);
            }
        },
    }
}

/// Collapsing a pane that is no leaf changes nothing.
pub proof fn lemma_collapse_absent(l: Layout, pane: PaneId)
    requires
        !l.leaves().contains(pane),
    ensures
        l.collapsed(pane) == l,
    decreases l,
{
    match l {
        Layout::Pane(_) => {},
        Layout::Split { first, second, .. } => {
            lemma_contains_concat(first.leaves(), second.leaves(), pane);
            if *first == Layout::Pane(pane) {
                assert(first.leaves()[0] == pane);
            }
            if *second == Layout::Pane(pane) {
                assert(second.leaves()[0] == pane);
            }
            lemma_collapse_absent(*first, pane);
            lemma_collapse_absent(*second, pane);
        },
    }
}

/// Collapsing keeps every stored ratio inside `1..=99`.
pub proof fn lemma_collapse_keeps_ratios(l: Layout, pane: PaneId)
    requires
        l.ratios_ok(),
    ensures
        l.collapsed(pane).ratios_ok(),
    decreases l,
{
    match l {
        Layout::Pane(_) => {},
        Layout::Split { first, second, .. } => {
            lemma_collapse_keeps_ratios(*first, pane);
            lemma_collapse_keeps_ratios(*second, pane);
        },
    }
}

/// In a tree whose panes are distinct and that holds more than one pane, removing the pane at
/// position `i` of the order drops exactly that entry and keeps the rest in order.
pub proof fn lemma_remove_drops_leaf(l: Layout, pane: PaneId, i: int)
    requires
        l.leaves().no_duplicates(),
        l.leaves().len() >= 2,
        0 <= i < l.leaves().len(),
        l.leaves()[i] == pane,
    ensures
        l.collapsed(pane).leaves() == l.leaves().remove(i),
    decreases l,
{
    match l {
        Layout::Pane(id) => {
            assert(l.leaves().len() == 1);
        },
        Layout::Split { first, second, .. } => {
            let f = first.leaves();
            let s = second.leaves();
            assert(l.leaves() == f + s);
            lemma_leaves_nonempty(*first);
            lemma_leaves_nonempty(*second);
            assert(f.no_duplicates()) by {
                assert forall|a: int, b: int| 0 <= a < f.len() && 0 <= b < f.len() && a != b implies f[a] != f[b] by {
                    assert(l.leaves()[a] == f[a] && l.leaves()[b] == f[b]);
                }
            }
            assert(s.no_duplicates()) by {
                assert forall|a: int, b: int| 0 <= a < s.len() && 0 <= b < s.len() && a != b implies s[a] != s[b] by {
                    assert(l.leaves()[f.len() + a] == s[a] && l.leaves()[f.len() + b] == s[b]);
                }
            }
            if i < f.len() {
                assert(!s.contains(pane)) by {
                    if s.contains(pane) {
                        let j = choose|j: int| 0 <= j < s.len() && s[j] == pane;
                        assert(l.leaves()[f.len() + j] == pane);
                        assert(l.leaves()[i] == pane);
                    }
                }
                if *first == Layout::Pane(pane) {
                    assert(f =~= seq![pane]);
                    assert(l.leaves().remove(i) =~= s);
                } else {
                    if *second == Layout::Pane(pane) {
                        assert(s[0] == pane);
                    }
                    lemma_collapse_absent(*second, pane);
                    match *first {
                        Layout::Pane(x) => {
                            assert(f =~= seq![x]);
                        },
                        Layout::Split { first: ff, second: fs, .. } => {
                            lemma_leaves_nonempty(*ff);
                            lemma_leaves_nonempty(*fs);
                        },
                    }
                    assert(f[i] == pane);
                    lemma_remove_drops_leaf(*first, pane, i);
                    assert(l.collapsed(pane).leaves() =~= l.leaves().remove(i));
                }
            } else {
                let k = i - f.len();
                assert(s[k] == pane);
                assert(!f.contains(pane)) by {
                    if f.contains(pane) {
                        let j = choose|j: int| 0 <= j < f.len() && f[j] == pane;
                        assert(l.leaves()[j] == pane);
                    }
                }
                if *first == Layout::Pane(pane) {
                    assert(f[0] == pane);
                }
                if *second == Layout::Pane(pane) {
                    assert(s =~= seq![pane]);
                    assert(l.leaves().remove(i) =~= f);
                } else {
                    lemma_collapse_absent(*first, pane);
                    match *second {
                        Layout::Pane(x) => {
                            assert(s =~= seq![x]);
                        },
                        Layout::Split { first: sf, second: ss, .. } => {
                            lemma_leaves_nonempty(*sf);
                            lemma_leaves_nonempty(*ss);
                        },
                    }
                    lemma_remove_drops_leaf(*second, pane, k);
                    assert(l.collapsed(pane).leaves() =~= l.leaves().remove(i));
                }
            }
        },
    }
}

/// Every pane of the tree gets a rectangle, and nothing else does.
pub proof fn lemma_rects_cover_leaves(l: Layout, area: Rect)
    ensures
        rect_map(l, area).dom() == l.leaves().to_set(),
    decreases l,
{
    match l {
        Layout::Pane(id) => {
            assert(rect_map(l, area).dom() =~= l.leaves().to_set()) by {
                assert(l.leaves() =~= seq![id]);
                assert(l.leaves()[0] == id);
            }
        },
        Layout::Split { dir, ratio, first, second } => {
            let (a, b) = split_parts(area, dir, ratio);
            lemma_rects_cover_leaves(*first, a);
            lemma_rects_cover_leaves(*second, b);
            assert forall|p: PaneId| l.leaves().to_set().contains(p) == rect_map(l, area).dom().contains(p) by {
                lemma_contains_concat(first.leaves(), second.leaves(), p);
            }
            assert(rect_map(l, area).dom() =~= l.leaves().to_set());
        },
    }
}

/// `inner` lies within `outer`.
pub open spec fn rect_within(inner: Rect, outer: Rect) -> bool {
    outer.x <= inner.x && inner.x + inner.width <= outer.x + outer.width && outer.y <= inner.y
        && inner.y + inner.height <= outer.y + outer.height
}

/// Every pane's rectangle lies inside the area the tree is drawn in, and is itself valid.
pub proof fn lemma_rects_within_area(l: Layout, area: Rect, p: PaneId)
    requires
        area.valid(),
        rect_map(l, area).dom().contains(p),
    ensures
        rect_within(rect_map(l, area)[p], area),
        rect_map(l, area)[p].valid(),
    decreases l,
{
    match l {
        Layout::Pane(id) => {},
        Layout::Split { dir, ratio, first, second } => {
            let (a, b) = split_parts(area, dir, ratio);
            lemma_split_parts_inside(area, dir, ratio);
            if rect_map(*second, b).dom().contains(p) {
                lemma_rects_within_area(*second, b, p);
            } else {
                lemma_rects_within_area(*first, a, p);
            }
        },
    }
}


/// Splitting a pane of a tree whose panes are distinct with a fresh id keeps them distinct and
/// adds exactly that id.
pub proof fn lemma_split_adds_fresh_leaf(l: Layout, target: PaneId, dir: Dir, ratio: u16, side: Side, new: PaneId)
    requires
        l.leaves().no_duplicates(),
        l.leaves().contains(target),
        !l.leaves().contains(new),
    ensures
        l.split_first(target, dir, ratio, side, new) is Some,
        l.split_first(target, dir, ratio, side, new)->0.leaves().no_duplicates(),
        forall|x: PaneId|
            #[trigger] l.split_first(target, dir, ratio, side, new)->0.leaves().contains(x) <==> l.leaves().contains(x)
                || x == new,
{
    let old_leaves = l.leaves();
    let i = old_leaves.index_of(target);
    lemma_split_replaces_leaf(l, target, dir, ratio, side, new, i);
    let nl = l.split_first(target, dir, ratio, side, new)->0.leaves();
    let pair = split_pair(target, new, side);
    assert(nl == old_leaves.subrange(0, i) + pair + old_leaves.subrange(i + 1, old_leaves.len() as int));
    assert forall|x: PaneId| nl.contains(x) <==> old_leaves.contains(x) || x == new by {
        if nl.contains(x) {
            let k = choose|k: int| 0 <= k < nl.len() && nl[k] == x;
            if k < i {
                assert(old_leaves[k] == x);
            } else if k == i || k == i + 1 {
                assert(x == target || x == new);
            } else {
                assert(old_leaves[k - 1] == x);
            }
        }
        if old_leaves.contains(x) {
            let k = choose|k: int| 0 <= k < old_leaves.len() && old_leaves[k] == x;
            if k < i {
                assert(nl[k] == x);
            } else if k == i {
                if side == Side::First {
                    assert(nl[i + 1] == x);
                } else {
                    assert(nl[i] == x);
                }
            } else {
                assert(nl[k + 1] == x);
            }
        }
        if x == new {
            if side == Side::First {
                assert(nl[i] == x);
            } else {
                assert(nl[i + 1] == x);
            }
        }
    }
    assert forall|a: int, b: int| 0 <= a < nl.len() && 0 <= b < nl.len() && a != b implies nl[a] != nl[b] by {
        let fa = if a < i { old_leaves[a] } else if a <= i + 1 { pair[a - i] } else { old_leaves[a - 1] };
        let fb = if b < i { old_leaves[b] } else if b <= i + 1 { pair[b - i] } else { old_leaves[b - 1] };
        assert(nl[a] == fa);
        assert(nl[b] == fb);
        if a >= i && a <= i + 1 && b >= i && b <= i + 1 {
            assert(new != target);
        } else {
            if a < i || a > i + 1 {
                assert(old_leaves.contains(fa));
            }
            if b < i || b > i + 1 {
                assert(old_leaves.contains(fb));
            }
        }
    }
}


proof fn lemma_split_is_split(l: Layout, target: PaneId, dir: Dir, ratio: u16, side: Side, new: PaneId)
    requires
        l.split_first(target, dir, ratio, side, new) is Some,
    ensures
        l.split_first(target, dir, ratio, side, new)->0 is Split,
{
}

/// Closing the pane an open just added gives back the tree as it was before the open.
pub proof fn lemma_close_undoes_open(l: Layout, target: PaneId, dir: Dir, ratio: u16, side: Side, new: PaneId)
    requires
        !l.leaves().contains(new),
        l.leaves().contains(target),
    ensures
        l.split_first(target, dir, ratio, side, new) is Some,
        l.split_first(target, dir, ratio, side, new)->0.collapsed(new) == l,
    decreases l,
{
    lemma_split_first_some_iff(l, target, dir, ratio, side, new);
    match l {
        Layout::Pane(id) => {
            assert(l.leaves() =~= seq![id]);
            assert(id == target);
            assert(l.leaves()[0] == id);
        },
        Layout::Split { dir: d, ratio: r, first, second } => {
            lemma_contains_concat(first.leaves(), second.leaves(), new);
            lemma_contains_concat(first.leaves(), second.leaves(), target);
            lemma_split_first_some_iff(*first, target, dir, ratio, side, new);
            lemma_split_first_some_iff(*second, target, dir, ratio, side, new);
            if second.leaves().len() == 1 && *second == Layout::Pane(new) {
                assert(second.leaves()[0] == new);
            }
            if *second == Layout::Pane(new) {
                assert(second.leaves() =~= seq![new]);
                assert(second.leaves()[0] == new);
            }
            if *first == Layout::Pane(new) {
                assert(first.leaves() =~= seq![new]);
                assert(first.leaves()[0] == new);
            }
            match first.split_first(target, dir, ratio, side, new) {
                Some(f) => {
                    lemma_split_is_split(*first, target, dir, ratio, side, new);
                    lemma_close_undoes_open(*first, target, dir, ratio, side, new);
                    lemma_collapse_absent(*second, new);
                },
                None => {
                    lemma_split_is_split(*second, target, dir, ratio, side, new);
                    lemma_close_undoes_open(*second, target, dir, ratio, side, new);
                    lemma_collapse_absent(*first, new);
                },
            }
        },
    }
}

/// The cell `(x, y)` lies inside `r`.
pub open spec fn holds_point(r: Rect, x: int, y: int) -> bool {
    r.x <= x < r.x + r.width && r.y <= y < r.y + r.height
}

/// A sequence without repeats splits into two without repeats that share nothing.
proof fn lemma_no_duplicates_concat(a: Seq<PaneId>, b: Seq<PaneId>)
    requires
        (a + b).no_duplicates(),
    ensures
        a.no_duplicates(),
        b.no_duplicates(),
        forall|p: PaneId| a.contains(p) ==> !b.contains(p),
{
    assert forall|i: int, j: int| 0 <= i < a.len() && 0 <= j < a.len() && i != j implies a[i] != a[j] by {
        assert((a + b)[i] == a[i] && (a + b)[j] == a[j]);
    }
    assert forall|i: int, j: int| 0 <= i < b.len() && 0 <= j < b.len() && i != j implies b[i] != b[j] by {
        assert((a + b)[a.len() + i] == b[i] && (a + b)[a.len() + j] == b[j]);
    }
    assert forall|p: PaneId| a.contains(p) implies !b.contains(p) by {
        let i = choose|i: int| 0 <= i < a.len() && a[i] == p;
        if b.contains(p) {
            let j = choose|j: int| 0 <= j < b.len() && b[j] == p;
            assert((a + b)[i] == (a + b)[a.len() + j]);
        }
    }
}

/// The panes' rectangles cover the area: in a tree whose panes are distinct, every cell of a
/// valid area lies in some pane's rectangle.
pub proof fn lemma_rects_cover_area(l: Layout, area: Rect, x: int, y: int)
    requires
        area.valid(),
        l.leaves().no_duplicates(),
        holds_point(area, x, y),
    ensures
        exists|p: PaneId| #[trigger] rect_map(l, area).dom().contains(p) && holds_point(rect_map(l, area)[p], x, y),
    decreases l,
{
    match l {
        Layout::Pane(id) => {
            assert(rect_map(l, area).dom().contains(id));
        },
        Layout::Split { dir, ratio, first, second } => {
            let (a, b) = split_parts(area, dir, ratio);
            lemma_split_parts_inside(area, dir, ratio);
            lemma_no_duplicates_concat(first.leaves(), second.leaves());
            lemma_rects_cover_leaves(*first, a);
            lemma_rects_cover_leaves(*second, b);
            let m = rect_map(l, area);
            if holds_point(b, x, y) {
                lemma_rects_cover_area(*second, b, x, y);
                let p = choose|p: PaneId| #[trigger] rect_map(*second, b).dom().contains(p) && holds_point(rect_map(*second, b)[p], x, y);
                assert(m.dom().contains(p) && m[p] == rect_map(*second, b)[p]);
            } else {
                assert(holds_point(a, x, y));
                lemma_rects_cover_area(*first, a, x, y);
                let p = choose|p: PaneId| #[trigger] rect_map(*first, a).dom().contains(p) && holds_point(rect_map(*first, a)[p], x, y);
                assert(first.leaves().to_set().contains(p));
                assert(!second.leaves().to_set().contains(p));
                assert(m.dom().contains(p) && m[p] == rect_map(*first, a)[p]);
            }
        },
    }
}

/// The panes' rectangles do not overlap: in a tree whose panes are distinct, no cell lies in the
/// rectangles of two different panes.
pub proof fn lemma_rects_disjoint(l: Layout, area: Rect, p: PaneId, q: PaneId, x: int, y: int)
    requires
        area.valid(),
        l.leaves().no_duplicates(),
        rect_map(l, area).dom().contains(p),
        rect_map(l, area).dom().contains(q),
        holds_point(rect_map(l, area)[p], x, y),
        holds_point(rect_map(l, area)[q], x, y),
    ensures
        p == q,
    decreases l,
{
    match l {
        Layout::Pane(id) => {},
        Layout::Split { dir, ratio, first, second } => {
            let (a, b) = split_parts(area, dir, ratio);
            lemma_split_parts_inside(area, dir, ratio);
            lemma_no_duplicates_concat(first.leaves(), second.leaves());
            lemma_rects_cover_leaves(*first, a);
            lemma_rects_cover_leaves(*second, b);
            let m1 = rect_map(*first, a);
            let m2 = rect_map(*second, b);
            let in2p = m2.dom().contains(p);
            let in2q = m2.dom().contains(q);
            if in2p && in2q {
                lemma_rects_disjoint(*second, b, p, q, x, y);
            } else if !in2p && !in2q {
                lemma_rects_disjoint(*first, a, p, q, x, y);
            } else if in2p {
                lemma_rects_within_area(*second, b, p);
                lemma_rects_within_area(*first, a, q);
            } else {
                lemma_rects_within_area(*first, a, p);
                lemma_rects_within_area(*second, b, q);
            }
        },
    }
}

/// The pane whose rectangle holds the cell `(col, row)`, if any; `map` is the tree's geometry
/// in `area` (as `rects` gives it).
pub fn pane_at_point(layout: &Layout, area: Rect, map: &HashMap<PaneId, Rect>, col: u16, row: u16) -> (r:
    Option<PaneId>)
    requires
        area.valid(),
        map@ == rect_map(*layout, area),
    ensures
        match r {
            Some(p) => map@.dom().contains(p) && holds_point(map@[p], col as int, row as int),
            None => forall|p: PaneId| #[trigger] map@.dom().contains(p) ==> !holds_point(
                map@[p],
                col as int,
                row as int,
            ),
        },
        layout.leaves().no_duplicates() && holds_point(area, col as int, row as int) ==> r is Some,
        layout.leaves().no_duplicates() && r is Some ==> forall|q: PaneId| #[trigger] map@.dom().contains(q)
            && holds_point(map@[q], col as int, row as int) ==> q == r->0,
{
    proof {
        assert(obeys_key_model::<PaneId>());
        lemma_rects_cover_leaves(*layout, area);
    }
    let ids = layout.order();
    let mut i: usize = 0;
    while i < ids.len()
        invariant
            i <= ids@.len(),
            ids@ == layout.leaves(),
            map@ == rect_map(*layout, area),
            map@.dom() == layout.leaves().to_set(),
            area.valid(),
            forall|j: int| 0 <= j < i ==> !holds_point(map@[#[trigger] ids@[j]], col as int, row as int),
        decreases ids@.len() - i,
    {
        let id = ids[i];
        proof {
            assert(layout.leaves().to_set().contains(id));
            lemma_rects_within_area(*layout, area, id);
        }
        let r = *map.get(&id).unwrap();
        let inside = r.x as u32 <= col as u32 && (col as u32) < r.x as u32 + r.width as u32
            && r.y as u32 <= row as u32 && (row as u32) < r.y as u32 + r.height as u32;
        if inside {
            proof {
                if layout.leaves().no_duplicates() {
                    assert forall|q: PaneId| #[trigger] map@.dom().contains(q) && holds_point(
                        map@[q],
                        col as int,
                        row as int,
                    ) implies q == id by {
                        lemma_rects_disjoint(*layout, area, id, q, col as int, row as int);
                    }
                }
            }
            return Some(id);
        }
        i = i + 1;
    }
    proof {
        assert forall|p: PaneId| #[trigger] map@.dom().contains(p) implies !holds_point(
            map@[p],
            col as int,
            row as int,
        ) by {
            assert(layout.leaves().to_set().contains(p));
            let j = choose|j: int| 0 <= j < ids@.len() && ids@[j] == p;
            assert(!holds_point(map@[ids@[j]], col as int, row as int));
        }
        if layout.leaves().no_duplicates() && holds_point(area, col as int, row as int) {
            lemma_rects_cover_area(*layout, area, col as int, row as int);
        }
    }
    None
}

} // verus!
