//! The front-end's small decisions: which tab labels fit the bar, how a typed pane id resolves,
//! a path's file name, and the draft being typed.

use vstd::prelude::*;

use crate::layout::Rect;
use crate::panel::{wrap_line, wrapped};
use crate::style::{line_view, span_view, Span, Style, StyledLine, MOD_REVERSED};
use crate::text::{chars_of, decimal, decimal_string, split_newlines, split_on_newlines, string_of};

verus! {

/// The sum of `ws[lo..hi]`.
pub open spec fn width_sum(ws: Seq<nat>, lo: int, hi: int) -> nat
    decreases hi - lo,
{
    if hi <= lo {
        0
    } else {
        width_sum(ws, lo, hi - 1) + ws[hi - 1]
    }
}

/// The marker columns a window `[lo, hi)` reserves: one for each clipped end.
pub open spec fn markers(n: nat, lo: int, hi: int) -> nat {
    (if lo > 0 { 1nat } else { 0nat }) + (if hi < n { 1nat } else { 0nat })
}

/// Grow the window `[lo, hi)` (its labels `used` wide) greedily: rightwards while the next label
/// fits the width less the markers, else leftwards, until neither fits.
pub open spec fn grow_window(ws: Seq<nat>, lo: int, hi: int, used: nat, width: nat) -> (int, int)
    decreases ws.len() - (hi - lo),
{
    if !(0 <= lo <= hi <= ws.len()) {
        (lo, hi)
    } else {
        let m = markers(ws.len(), lo, hi);
        let budget: int = if width > m { width - m } else { 0 };
        if hi < ws.len() && used + ws[hi] <= budget {
            grow_window(ws, lo, hi + 1, used + ws[hi], width)
        } else if lo > 0 && used + ws[lo - 1] <= budget {
            grow_window(ws, lo - 1, hi, used + ws[lo - 1], width)
        } else {
            (lo, hi)
        }
    }
}

/// The `[lo, hi)` slice of labels (of widths `ws`) the bar shows: all of them when they fit,
/// else a window grown around `active`.
pub open spec fn spec_tab_window(ws: Seq<nat>, active: int, width: nat) -> (int, int) {
    if width_sum(ws, 0, ws.len() as int) <= width {
        (0, ws.len() as int)
    } else {
        grow_window(ws, active, active + 1, ws[active], width)
    }
}

/// The character counts of `labels`.
pub open spec fn label_widths(labels: Seq<String>) -> Seq<nat> {
    labels.map_values(|l: String| l@.len())
}

proof fn lemma_width_sum_step(ws: Seq<nat>, lo: int, hi: int)
    requires
        0 < lo <= hi,
    ensures
        width_sum(ws, lo - 1, hi) == ws[lo - 1] + width_sum(ws, lo, hi),
    decreases hi - lo,
{
    if hi > lo {
        lemma_width_sum_step(ws, lo, hi - 1);
    } else {
        assert(width_sum(ws, lo - 1, lo - 1) == 0);
    }
}

/// The width left for labels once a window's markers are drawn.
pub open spec fn label_budget(width: nat, n: nat, lo: int, hi: int) -> int {
    let m = markers(n, lo, hi);
    if width > m { width - m } else { 0 }
}

/// A grown window still holds `active`, and unless it is `active` alone its labels fit the width
/// left beside its markers.
pub proof fn lemma_window_fits(ws: Seq<nat>, lo: int, hi: int, used: nat, width: nat, active: int)
    requires
        0 <= lo <= active < hi <= ws.len(),
        used == width_sum(ws, lo, hi),
        (lo == active && hi == active + 1) || used <= label_budget(width, ws.len(), lo, hi),
    ensures
        ({
            let (a, b) = grow_window(ws, lo, hi, used, width);
            &&& 0 <= a <= active < b <= ws.len()
            &&& (a == active && b == active + 1) || width_sum(ws, a, b) <= label_budget(width, ws.len(), a, b)
        }),
    decreases ws.len() - (hi - lo),
{
    let m = markers(ws.len(), lo, hi);
    let budget: int = if width > m { width - m } else { 0 };
    if hi < ws.len() && used + ws[hi] <= budget {
        assert(markers(ws.len(), lo, hi + 1) <= m);
        assert(width_sum(ws, lo, hi + 1) == used + ws[hi]);
        lemma_window_fits(ws, lo, hi + 1, used + ws[hi], width, active);
    } else if lo > 0 && used + ws[lo - 1] <= budget {
        lemma_width_sum_step(ws, lo, hi);
        assert(markers(ws.len(), lo - 1, hi) <= m);
        lemma_window_fits(ws, lo - 1, hi, used + ws[lo - 1], width, active);
    }
}

/// The bar's window always includes the active tab; when it is not the active tab alone, the
/// shown labels fit the width less one column per clipped end.
pub proof fn lemma_tab_window_fits(ws: Seq<nat>, active: int, width: nat)
    requires
        0 <= active < ws.len(),
    ensures
        ({
            let (a, b) = spec_tab_window(ws, active, width);
            &&& 0 <= a <= active < b <= ws.len()
            &&& (a == active && b == active + 1) || width_sum(ws, a, b) <= label_budget(width, ws.len(), a, b)
        }),
{
    if width_sum(ws, 0, ws.len() as int) > width {
        assert(width_sum(ws, active, active) == 0);
        assert(width_sum(ws, active, active + 1) == ws[active]);
        lemma_window_fits(ws, active, active + 1, ws[active], width, active);
    }
}

/// The `[lo, hi)` slice of tab labels to show (see `spec_tab_window`).
pub fn tab_window(labels: &Vec<String>, active: usize, width: usize) -> (r: (usize, usize))
    requires
        active < labels@.len(),
    ensures
        r.0 as int == spec_tab_window(label_widths(labels@), active as int, width as nat).0,
        r.1 as int == spec_tab_window(label_widths(labels@), active as int, width as nat).1,
{
    let ghost ws = label_widths(labels@);
    let n = labels.len();
    let mut widths: Vec<usize> = Vec::new();
    let mut total: u128 = 0;
    let mut k: usize = 0;
    while k < n
        invariant
            k <= n == labels@.len(),
            ws == label_widths(labels@),
            widths@.len() == k,
            forall|j: int| 0 <= j < k ==> widths@[j] as nat == ws[j],
            total == width_sum(ws, 0, k as int),
            total <= k * 0x1_0000_0000_0000_0000,
        decreases n - k,
    {
        let w = chars_of(labels[k].as_str()).len();
        assert(w as nat == ws[k as int]);
        proof {
            assert(total + w <= (k + 1) * 0x1_0000_0000_0000_0000) by (nonlinear_arith)
                requires
                    total <= k * 0x1_0000_0000_0000_0000,
                    w < 0x1_0000_0000_0000_0000,
            ;
            assert(k + 1 <= 0x1_0000_0000_0000_0000);
            assert((k + 1) * 0x1_0000_0000_0000_0000 <= 0x1_0000_0000_0000_0000 * 0x1_0000_0000_0000_0000) by (nonlinear_arith)
                requires
                    k + 1 <= 0x1_0000_0000_0000_0000,
            ;
        }
        widths.push(w);
        total = total + w as u128;
        k = k + 1;
    }
    if total <= width as u128 {
        return (0, n);
    }
    let mut lo: usize = active;
    let mut hi: usize = active + 1;
    let mut used: u128 = widths[active] as u128;
    proof {
        assert(width_sum(ws, active as int, active as int) == 0);
        assert(width_sum(ws, active as int, active + 1) == ws[active as int]);
        lemma_width_sum_bound(ws, 0, active as int, active + 1, n as int);
    }
    loop
        invariant
            0 <= lo <= active < hi <= n == labels@.len() == widths@.len(),
            ws == label_widths(labels@),
            forall|j: int| 0 <= j < n ==> widths@[j] as nat == ws[j],
            used == width_sum(ws, lo as int, hi as int),
            used <= total,
            total == width_sum(ws, 0, n as int),
            total <= n * 0x1_0000_0000_0000_0000,
            n <= 0x1_0000_0000_0000_0000,
            spec_tab_window(ws, active as int, width as nat) == grow_window(ws, lo as int, hi as int, used as nat, width as nat),
        ensures
            spec_tab_window(ws, active as int, width as nat) == (lo as int, hi as int),
        decreases n - (hi - lo),
    {
        let reserve: usize = (if lo > 0 { 1usize } else { 0usize }) + (if hi < n { 1usize } else { 0usize });
        let budget: u128 = if width > reserve { (width - reserve) as u128 } else { 0 };
        proof {
            lemma_width_sum_bound(ws, 0, lo as int, hi as int, n as int);
        }
        if hi < n && used + widths[hi] as u128 <= budget {
            proof {
                lemma_width_sum_bound(ws, 0, lo as int, hi + 1, n as int);
            }
            used = used + widths[hi] as u128;
            hi = hi + 1;
        } else if lo > 0 && used + widths[lo - 1] as u128 <= budget {
            proof {
                lemma_width_sum_step(ws, lo as int, hi as int);
                lemma_width_sum_bound(ws, 0, lo - 1, hi as int, n as int);
            }
            used = used + widths[lo - 1] as u128;
            lo = lo - 1;
        } else {
            proof {
                assert(reserve == markers(n as nat, lo as int, hi as int));
                if hi < n {
                    assert(widths@[hi as int] as nat == ws[hi as int]);
                }
                if lo > 0 {
                    assert(widths@[lo - 1] as nat == ws[lo - 1]);
                }
                assert(grow_window(ws, lo as int, hi as int, used as nat, width as nat) == (lo as int, hi as int));
            }
            break;
        }
    }
    (lo, hi)
}

proof fn lemma_width_sum_bound(ws: Seq<nat>, z: int, lo: int, hi: int, n: int)
    requires
        z <= lo <= hi <= n,
        z == 0,
    ensures
        width_sum(ws, lo, hi) <= width_sum(ws, z, n),
    decreases n - hi + lo - z,
{
    if hi < n {
        lemma_width_sum_bound(ws, z, lo, hi + 1, n);
    } else if lo > z {
        lemma_width_sum_step(ws, lo, hi);
        lemma_width_sum_bound(ws, z, lo - 1, hi, n);
    }
}

/// `p` is a prefix of `s`.
pub open spec fn is_prefix(p: Seq<char>, s: Seq<char>) -> bool {
    p.len() <= s.len() && s.subrange(0, p.len() as int) == p
}

/// Some live id's decimal form strictly extends `buf`, so a longer id is still reachable.
pub open spec fn spec_id_ambiguous(ids: Seq<u64>, buf: Seq<char>) -> bool {
    exists|i: int|
        0 <= i < ids.len() && decimal(ids[i] as nat).len() > buf.len() && is_prefix(buf, #[trigger] decimal(ids[i] as nat))
}

/// The first live id whose decimal form is exactly `buf`.
pub open spec fn spec_id_exact(ids: Seq<u64>, buf: Seq<char>) -> Option<u64>
    decreases ids.len(),
{
    if ids.len() == 0 {
        None
    } else if decimal(ids[0] as nat) == buf {
        Some(ids[0])
    } else {
        spec_id_exact(ids.drop_first(), buf)
    }
}

fn starts_with_chars(s: &[char], p: &[char]) -> (b: bool)
    ensures
        b == is_prefix(p@, s@),
{
    if p.len() > s.len() {
        return false;
    }
    let mut i: usize = 0;
    while i < p.len()
        invariant
            i <= p@.len() <= s@.len(),
            forall|j: int| 0 <= j < i ==> s@[j] == p@[j],
        decreases p@.len() - i,
    {
        if s[i] != p[i] {
            assert(s@.subrange(0, p@.len() as int)[i as int] != p@[i as int]);
            return false;
        }
        i = i + 1;
    }
    assert(s@.subrange(0, p@.len() as int) =~= p@);
    true
}

/// Whether some live id extends `buf` (see `spec_id_ambiguous`).
pub fn pane_id_ambiguous(ids: &[u64], buf: &str) -> (b: bool)
    ensures
        b == spec_id_ambiguous(ids@, buf@),
{
    let bc = chars_of(buf);
    let mut i: usize = 0;
    while i < ids.len()
        invariant
            i <= ids@.len(),
            bc@ == buf@,
            forall|j: int|
                0 <= j < i ==> !(decimal(ids@[j] as nat).len() > buf@.len() && is_prefix(buf@, #[trigger] decimal(ids@[j] as nat))),
        decreases ids@.len() - i,
    {
        let d = decimal_string(ids[i]);
        let dc = chars_of(d.as_str());
        if dc.len() > bc.len() && starts_with_chars(dc.as_slice(), bc.as_slice()) {
            return true;
        }
        i = i + 1;
    }
    false
}

/// The live id whose decimal form equals `buf` (see `spec_id_exact`).
pub fn pane_id_exact(ids: &[u64], buf: &str) -> (r: Option<u64>)
    ensures
        r == spec_id_exact(ids@, buf@),
{
    let bc = chars_of(buf);
    let mut i: usize = 0;
    assert(ids@.subrange(0, ids@.len() as int) =~= ids@);
    while i < ids.len()
        invariant
            i <= ids@.len(),
            bc@ == buf@,
            spec_id_exact(ids@, buf@) == spec_id_exact(ids@.subrange(i as int, ids@.len() as int), buf@),
        decreases ids@.len() - i,
    {
        let ghost rest = ids@.subrange(i as int, ids@.len() as int);
        proof {
            assert(rest.drop_first() =~= ids@.subrange(i + 1, ids@.len() as int));
        }
        let d = decimal_string(ids[i]);
        let dc = chars_of(d.as_str());
        if crate::text::chars_equal(dc.as_slice(), bc.as_slice()) {
            return Some(ids[i]);
        }
        i = i + 1;
    }
    proof {
        assert(ids@.subrange(i as int, ids@.len() as int) =~= Seq::<u64>::empty());
    }
    None
}

/// A path separator: `/` or `\`.
pub open spec fn is_sep(c: char) -> bool {
    c == '/' || c == '\\'
}

/// The index just past the last separator before `k`, 0 when there is none.
pub open spec fn name_start(p: Seq<char>, k: int) -> int
    decreases k,
{
    if k <= 0 {
        0
    } else if is_sep(p[k - 1]) {
        k
    } else {
        name_start(p, k - 1)
    }
}

/// A path's file name: what follows its last `/` or `\`.
pub open spec fn spec_base_name(p: Seq<char>) -> Seq<char> {
    p.subrange(name_start(p, p.len() as int), p.len() as int)
}

proof fn lemma_name_start_bounds(p: Seq<char>, k: int)
    requires
        0 <= k <= p.len(),
    ensures
        0 <= name_start(p, k) <= k,
    decreases k,
{
    if k > 0 && !is_sep(p[k - 1]) {
        lemma_name_start_bounds(p, k - 1);
    }
}

/// A path's file name (see `spec_base_name`).
pub fn base_name(path: &str) -> (s: String)
    ensures
        s@ == spec_base_name(path@),
{
    let c = chars_of(path);
    let mut k: usize = c.len();
    while k > 0 && !(c[k - 1] == '/' || c[k - 1] == '\\')
        invariant
            k <= c@.len(),
            c@ == path@,
            name_start(path@, path@.len() as int) == name_start(path@, k as int),
        decreases k,
    {
        k = k - 1;
    }
    proof {
        lemma_name_start_bounds(path@, path@.len() as int);
    }
    let tail = crate::text::slice_chars(c.as_slice(), k, c.len());
    string_of(tail.as_slice())
}

/// What live typing captures: a per-line comment, the review body, or a tab rename.
pub enum Draft {
    Comment(String),
    Review(String),
    Rename(String),
}

impl Draft {
    /// The text typed so far.
    pub open spec fn text(&self) -> Seq<char> {
        match self {
            Draft::Comment(s) => s@,
            Draft::Review(s) => s@,
            Draft::Rename(s) => s@,
        }
    }

    /// The text typed so far.
    pub fn body(&self) -> (s: &str)
        ensures
            s@ == self.text(),
    {
        match self {
            Draft::Comment(s) => s.as_str(),
            Draft::Review(s) => s.as_str(),
            Draft::Rename(s) => s.as_str(),
        }
    }

    /// The text typed so far, to edit in place; the kind of draft stays.
    pub fn body_mut(&mut self) -> (s: &mut String)
        ensures
            *s == match *old(self) {
                Draft::Comment(t) => t,
                Draft::Review(t) => t,
                Draft::Rename(t) => t,
            },
            *final(self) == match *old(self) {
                Draft::Comment(_) => Draft::Comment(*final(s)),
                Draft::Review(_) => Draft::Review(*final(s)),
                Draft::Rename(_) => Draft::Rename(*final(s)),
            },
    {
        match self {
            Draft::Comment(s) => s,
            Draft::Review(s) => s,
            Draft::Rename(s) => s,
        }
    }

    /// Comments and the review belong to the focused panel; a rename does not.
    pub fn is_panel(&self) -> (b: bool)
        ensures
            b == !(self is Rename),
    {
        match self {
            Draft::Comment(_) => true,
            Draft::Review(_) => true,
            Draft::Rename(_) => false,
        }
    }

    /// Whether `\\`+Enter inserts a newline: in panel drafts, not in a rename.
    pub fn multiline(&self) -> (b: bool)
        ensures
            b == !(self is Rename),
    {
        self.is_panel()
    }
}

/// The scrollbar for `total` rows in a `view`-row viewport scrolled to `pos`: none when all
/// rows fit; else the range and thumb position given to the scrollbar widget — the real scroll
/// range, but capped at three viewports with the position scaled into the cap, so the thumb
/// stays visible over a long history and its ends still map flush.
pub open spec fn spec_scrollbar(total: int, view: int, pos: int) -> Option<(int, int)> {
    if total <= view {
        None
    } else {
        let steps = total - view;
        if steps > 3 * view {
            Some((3 * view, pos * 3 * view / steps))
        } else {
            Some((steps, pos))
        }
    }
}

/// See `spec_scrollbar`; at the top the thumb is at the start, at the bottom at the end.
pub fn scrollbar(total: usize, view: usize, pos: usize) -> (r: Option<(usize, usize)>)
    requires
        total > view ==> 3 * view <= usize::MAX,
        total > view && total - view > 3 * view ==> pos * 3 <= usize::MAX && pos * 3 * view
            <= usize::MAX,
    ensures
        match r {
            Some((c, p)) => spec_scrollbar(total as int, view as int, pos as int) == Some(
                (c as int, p as int),
            ),
            None => spec_scrollbar(total as int, view as int, pos as int) is None,
        },
        r matches Some((c, p)) ==> (pos == 0 ==> p == 0) && (pos == total - view ==> p == c),
{
    if total <= view {
        return None;
    }
    let steps = total - view;
    if steps > 3 * view {
        let scaled = pos * 3 * view / steps;
        proof {
            if pos == steps {
                vstd::arithmetic::div_mod::lemma_div_multiples_vanish(3 * view as int, steps as int);
                assert(pos * 3 * view == steps * (3 * view)) by (nonlinear_arith)
                    requires
                        pos == steps,
                ;
            }
            if pos == 0 {
                assert(pos * 3 * view == 0) by (nonlinear_arith)
                    requires
                        pos == 0,
                ;
            }
        }
        Some((3 * view, scaled))
    } else {
        Some((steps, pos))
    }
}

/// Each line of a draft wrapped to `w` columns, in order.
pub open spec fn wrapped_lines(ls: Seq<Seq<char>>, w: nat) -> Seq<Seq<char>>
    decreases ls.len(),
{
    if ls.len() == 0 {
        seq![]
    } else {
        wrapped_lines(ls.drop_last(), w) + wrapped(ls.last(), w)
    }
}

/// A draft box's rows: the body's lines wrapped to the box's inner width, never none.
pub open spec fn box_rows(body: Seq<char>, w: nat) -> Seq<Seq<char>> {
    let rows = wrapped_lines(split_newlines(body), w);
    if rows.len() == 0 { seq![seq![]] } else { rows }
}

/// The width inside a box's border: two columns less, at least one.
pub open spec fn box_inner_width(area: Rect) -> nat {
    if area.width >= 3 { (area.width - 2) as nat } else { 1 }
}

/// How many rows a draft box shows: its rows, between two and six.
pub open spec fn box_view(n: nat) -> nat {
    if n < 2 { 2 } else if n > 6 { 6 } else { n }
}

/// A draft box: the wrapped rows, where it sits and how far its text is scrolled.
pub struct DraftBox {
    pub rows: Vec<String>,
    pub area: Rect,
    pub scroll: u16,
}

/// The bordered draft box pinned to the bottom of `area` (the shell pane): it grows from two to
/// six rows, then scrolls to keep the last rows in view; the body wraps like a panel's lines.
pub fn draft_box(area: Rect, body: &str) -> (b: DraftBox)
    requires
        area.valid(),
    ensures
        b.rows@.map_values(|r: String| r@) == box_rows(body@, box_inner_width(area)),
        ({
            let n = box_rows(body@, box_inner_width(area)).len();
            let h = box_view(n) + 2;
            &&& b.area.x == area.x
            &&& b.area.y == area.y + (if area.height > h { area.height - h } else { 0 })
            &&& b.area.width == area.width
            &&& b.area.height == (if h < area.height { h as int } else { area.height as int })
            &&& b.scroll == (if n > box_view(n) { n - box_view(n) } else { 0 }) as u16
        }),
{
    let inner_w: usize = if area.width >= 3 { (area.width - 2) as usize } else { 1 };
    let lines = split_on_newlines(chars_of(body).as_slice());
    let ghost ls = split_newlines(body@);
    let mut rows: Vec<String> = Vec::new();
    let mut i: usize = 0;
    while i < lines.len()
        invariant
            i <= lines@.len(),
            inner_w >= 1,
            inner_w == box_inner_width(area),
            lines@.map_values(|w: Vec<char>| w@) == ls,
            rows@.map_values(|r: String| r@) == wrapped_lines(ls.take(i as int), inner_w as nat),
        decreases lines@.len() - i,
    {
        let line = string_of(lines[i].as_slice());
        let more = wrap_line(line.as_str(), inner_w);
        let ghost before = rows@;
        let mut k: usize = 0;
        while k < more.len()
            invariant
                k <= more@.len(),
                rows@.map_values(|r: String| r@) == before.map_values(|r: String| r@) + more@.map_values(
                    |r: String| r@,
                ).take(k as int),
            decreases more@.len() - k,
        {
            let piece = string_of(chars_of(more[k].as_str()).as_slice());
            let ghost old_rows = rows@;
            rows.push(piece);
            proof {
                assert(rows@ == old_rows.push(piece));
                assert(rows@.map_values(|r: String| r@) =~= old_rows.map_values(|r: String| r@).push(
                    piece@,
                ));
                assert(more@.map_values(|r: String| r@).take(k + 1) =~= more@.map_values(
                    |r: String| r@,
                ).take(k as int).push(piece@));
            }
            k = k + 1;
        }
        proof {
            assert(ls.take(i + 1).drop_last() =~= ls.take(i as int));
            assert(ls.take(i + 1).last() == ls[i as int]);
            assert(more@.map_values(|r: String| r@).take(more@.len() as int) =~= more@.map_values(
                |r: String| r@,
            ));
        }
        i = i + 1;
    }
    assert(ls.take(lines@.len() as int) =~= ls);
    if rows.len() == 0 {
        rows.push(string_of(Vec::new().as_slice()));
        assert(rows@.map_values(|r: String| r@) =~= seq![Seq::<char>::empty()]);
    }
    let n = rows.len();
    let view: usize = if n < 2 { 2 } else if n > 6 { 6 } else { n };
    let h: u16 = view as u16 + 2;
    let y_off: u16 = if area.height > h { area.height - h } else { 0 };
    let box_area = Rect {
        x: area.x,
        y: area.y + y_off,
        width: area.width,
        height: if h < area.height { h } else { area.height },
    };
    let scroll: u16 = (if n > view { n - view } else { 0 }) as u16;
    DraftBox { rows, area: box_area, scroll }
}

/// The labels `[lo, hi)` as spans, the active one reversed.
pub open spec fn bar_labels(labels: Seq<Seq<char>>, active: int, lo: int, hi: int) -> Seq<
    (Seq<char>, Style),
> {
    Seq::new(
        (hi - lo) as nat,
        |i: int|
            (
                labels[lo + i],
                if lo + i == active {
                    Style::spec_modified(MOD_REVERSED)
                } else {
                    Style::spec_plain()
                },
            ),
    )
}

/// The tab bar's spans: `‹` when tabs are hidden to the left, the visible labels with the
/// active one reversed, `›` when tabs are hidden to the right.
pub open spec fn tab_bar_spans(labels: Seq<Seq<char>>, active: int, lo: int, hi: int) -> Seq<
    (Seq<char>, Style),
> {
    (if lo > 0 { seq![(seq!['\u{2039}'], Style::spec_plain())] } else { seq![] }) + bar_labels(
        labels,
        active,
        lo,
        hi,
    ) + (if hi < labels.len() { seq![(seq!['\u{203A}'], Style::spec_plain())] } else { seq![] })
}

/// The one-line tab bar: the labels `tab_window` shows in `width` columns (see `tab_bar_spans`).
pub fn tab_bar(labels: &Vec<String>, active: usize, width: u16) -> (l: StyledLine)
    requires
        active < labels@.len(),
    ensures
        ({
            let (lo, hi) = spec_tab_window(label_widths(labels@), active as int, width as nat);
            line_view(l) == tab_bar_spans(labels@.map_values(|s: String| s@), active as int, lo, hi)
        }),
{
    let (lo, hi) = tab_window(labels, active, width as usize);
    let ghost ls = labels@.map_values(|s: String| s@);
    proof {
        lemma_tab_window_fits(label_widths(labels@), active as int, width as nat);
    }
    let mut spans: Vec<Span> = Vec::new();
    if lo > 0 {
        let mut left: Vec<char> = Vec::new();
        left.push('\u{2039}');
        let sp = Span::raw(string_of(left.as_slice()));
        assert(span_view(sp) == (seq!['\u{2039}'], Style::spec_plain())) by {
            assert(left@ =~= seq!['\u{2039}']);
        }
        spans.push(sp);
        assert(spans@.map_values(|s: Span| span_view(s)) =~= seq![
            (seq!['\u{2039}'], Style::spec_plain()),
        ]);
    }
    let ghost pre = spans@.map_values(|s: Span| span_view(s));
    assert(bar_labels(ls, active as int, lo as int, lo as int) =~= Seq::<(Seq<char>, Style)>::empty());
    assert(pre =~= pre + bar_labels(ls, active as int, lo as int, lo as int));
    let mut i = lo;
    while i < hi
        invariant
            lo <= i <= hi <= labels@.len(),
            ls == labels@.map_values(|s: String| s@),
            spans@.map_values(|s: Span| span_view(s)) == pre + bar_labels(ls, active as int, lo as int, i as int),
            pre.len() == (if lo > 0 { 1int } else { 0 }),
        decreases hi - i,
    {
        let label = string_of(chars_of(labels[i].as_str()).as_slice());
        let style = if i == active { Style::modified(MOD_REVERSED) } else { Style::plain() };
        let ghost old_spans = spans@;
        spans.push(Span::styled(label, style));
        proof {
            assert(spans@ == old_spans.push(spans@.last()));
            assert(bar_labels(ls, active as int, lo as int, i + 1) =~= bar_labels(
                ls,
                active as int,
                lo as int,
                i as int,
            ).push(span_view(spans@.last())));
            assert(spans@.map_values(|s: Span| span_view(s)) =~= old_spans.map_values(
                |s: Span| span_view(s),
            ).push(span_view(spans@.last())));
        }
        i = i + 1;
    }
    let ghost mid = spans@;
    if hi < labels.len() {
        let mut right: Vec<char> = Vec::new();
        right.push('\u{203A}');
        let sp = Span::raw(string_of(right.as_slice()));
        assert(span_view(sp) == (seq!['\u{203A}'], Style::spec_plain())) by {
            assert(right@ =~= seq!['\u{203A}']);
        }
        spans.push(sp);
        assert(spans@.map_values(|s: Span| span_view(s)) =~= mid.map_values(|s: Span| span_view(s))
            + seq![(seq!['\u{203A}'], Style::spec_plain())]);
    } else {
        assert(spans@.map_values(|s: Span| span_view(s)) =~= mid.map_values(|s: Span| span_view(s))
            + Seq::<(Seq<char>, Style)>::empty());
    }
    let l = StyledLine { spans };
    assert(line_view(l) =~= tab_bar_spans(ls, active as int, lo as int, hi as int));
    l
}

} // verus!
