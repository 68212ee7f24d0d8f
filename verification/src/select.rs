//! A left-drag selection inside one pane, and the text it copies from the drawn screen.

use std::collections::HashMap;

use vstd::prelude::*;
use vstd::std_specs::hash::obeys_key_model;

use crate::layout::Rect;
use crate::markdown::joined_lines;
use crate::mouse::{
    before_or_at, clamp, clamp_point, last_col, last_row, normalize, row_span, span_on_row,
    MouseButton, MouseEvent, MouseEventKind,
};
use crate::protocol::PaneId;
use crate::text::{chars_of, string_of, trim_end, trim_end_chars};

verus! {

broadcast use vstd::std_specs::hash::group_hash_axioms;

/// A drag selection: the pane it started in, where it started and where the pointer is, as
/// screen cells inside that pane's border.
#[derive(Debug, Clone, Copy)]
pub struct Selection {
    pub pane: PaneId,
    pub anchor: (u16, u16),
    pub head: (u16, u16),
}

/// The interior of a bordered pane (see `Rect::inner1`).
pub open spec fn interior(r: Rect) -> Rect {
    if r.width < 2 || r.height < 2 {
        Rect { x: 0, y: 0, width: 0, height: 0 }
    } else {
        Rect {
            x: if r.x < u16::MAX { (r.x + 1) as u16 } else { u16::MAX },
            y: if r.y < u16::MAX { (r.y + 1) as u16 } else { u16::MAX },
            width: (r.width - 2) as u16,
            height: (r.height - 2) as u16,
        }
    }
}

/// `(col, row)` clamped into `rect` (see `clamp_point`).
pub open spec fn clamped(rect: Rect, col: u16, row: u16) -> (u16, u16) {
    (
        clamp(col as int, rect.x as int, last_col(rect)) as u16,
        clamp(row as int, rect.y as int, last_row(rect)) as u16,
    )
}

/// A left press starts a selection at the pointer in the pane under it; a left drag moves the
/// head, clamped to the pane the selection started in; anything else leaves it.
pub open spec fn selection_after(
    sel: Option<Selection>,
    m: MouseEvent,
    over: Option<PaneId>,
    rects: Map<PaneId, Rect>,
) -> Option<Selection> {
    match m.kind {
        MouseEventKind::Down(MouseButton::Left) => match over {
            Some(p) => if rects.contains_key(p) {
                let q = clamped(interior(rects[p]), m.column, m.row);
                Some(Selection { pane: p, anchor: q, head: q })
            } else {
                sel
            },
            None => sel,
        },
        MouseEventKind::Drag(MouseButton::Left) => match sel {
            Some(s) => if rects.contains_key(s.pane) {
                Some(
                    Selection {
                        pane: s.pane,
                        anchor: s.anchor,
                        head: clamped(interior(rects[s.pane]), m.column, m.row),
                    },
                )
            } else {
                sel
            },
            None => None,
        },
        _ => sel,
    }
}

/// Update `sel` from a left-button event (see `selection_after`); the release is the caller's,
/// since copying needs the drawn screen.
pub fn update_selection(
    sel: &mut Option<Selection>,
    m: &MouseEvent,
    over: Option<PaneId>,
    rect_map: &HashMap<PaneId, Rect>,
)
    ensures
        *final(sel) == selection_after(*old(sel), *m, over, rect_map@),
{
    proof {
        assert(obeys_key_model::<PaneId>());
    }
    match m.kind {
        MouseEventKind::Down(MouseButton::Left) => {
            if let Some(pane) = over {
                if let Some(rect) = rect_map.get(&pane) {
                    let p = clamp_point(rect.inner1(), m.column, m.row);
                    *sel = Some(Selection { pane, anchor: p, head: p });
                }
            }
        },
        MouseEventKind::Drag(MouseButton::Left) => {
            if let Some(s) = *sel {
                if let Some(rect) = rect_map.get(&s.pane) {
                    let head = clamp_point(rect.inner1(), m.column, m.row);
                    *sel = Some(Selection { pane: s.pane, anchor: s.anchor, head });
                }
            }
        },
        _ => {},
    }
}

/// The drawn screen: one symbol per cell of `area`, row by row.
pub struct Screen {
    pub area: Rect,
    pub cells: Vec<String>,
}

impl Screen {
    /// One symbol per cell, and the area inside the `u16` coordinate space.
    pub open spec fn wf(&self) -> bool {
        &&& self.area.valid()
        &&& self.cells@.len() == self.area.width * self.area.height
    }

    /// The cell `(x, y)` lies inside the screen.
    pub open spec fn holds(&self, x: int, y: int) -> bool {
        &&& self.area.x <= x < self.area.x + self.area.width
        &&& self.area.y <= y < self.area.y + self.area.height
    }

    /// The symbol drawn at `(x, y)`; nothing outside the screen.
    pub open spec fn symbol(&self, x: int, y: int) -> Seq<char> {
        if self.holds(x, y) {
            self.cells@[(y - self.area.y) * self.area.width + (x - self.area.x)]@
        } else {
            seq![]
        }
    }
}

/// The symbols of row `y` from column `x0` to `x1`, both included.
pub open spec fn row_symbols(s: Screen, y: int, x0: int, x1: int) -> Seq<char>
    decreases x1 - x0 + 1,
{
    if x1 < x0 {
        seq![]
    } else {
        row_symbols(s, y, x0, x1 - 1) + s.symbol(x1, y)
    }
}

/// The points in reading order.
pub open spec fn ordered(anchor: (u16, u16), head: (u16, u16)) -> ((u16, u16), (u16, u16)) {
    if before_or_at(anchor, head) { (anchor, head) } else { (head, anchor) }
}

/// The selected rows, each right-trimmed: from the start column to the row's end on the first
/// row, whole rows between, up to the end column on the last; cells from `min_x` on only.
pub open spec fn selected_rows(
    s: Screen,
    inner: Rect,
    anchor: (u16, u16),
    head: (u16, u16),
    min_x: int,
) -> Seq<Seq<char>> {
    let (start, end) = ordered(anchor, head);
    Seq::new(
        (end.1 - start.1 + 1) as nat,
        |i: int|
            {
                let y = start.1 + i;
                let sp = span_on_row(inner, start, end, y as u16);
                trim_end(row_symbols(s, y, if sp.0 < min_x { min_x } else { sp.0 }, sp.1))
            },
    )
}

/// What a selection in the shell copies: the selected rows joined by newlines.
pub open spec fn extracted(s: Screen, inner: Rect, anchor: (u16, u16), head: (u16, u16)) -> Seq<
    char,
> {
    joined_lines(selected_rows(s, inner, anchor, head, 0))
}

/// The symbol at `(x, y)`, empty outside the screen.
fn symbol_at(s: &Screen, x: u16, y: u16) -> (r: Vec<char>)
    requires
        s.wf(),
    ensures
        r@ == s.symbol(x as int, y as int),
{
    let a = s.area;
    let n = s.cells.len();
    if a.x <= x && x < a.right() && a.y <= y && y < a.bottom() {
        let dy = (y - a.y) as usize;
        let dx = (x - a.x) as usize;
        let w = a.width as usize;
        proof {
            assert(dy * w + dx < (a.height as int) * w) by (nonlinear_arith)
                requires
                    dy < a.height,
                    dx < w,
            ;
            assert((a.height as int) * w == a.width * a.height) by (nonlinear_arith)
                requires
                    w == a.width,
            ;
            assert(dy * w <= dy * w + dx);
        }
        chars_of(s.cells[dy * w + dx].as_str())
    } else {
        Vec::new()
    }
}

/// The symbols of row `y` from `x0` to `x1`, both included.
fn row_text(s: &Screen, y: u16, x0: u16, x1: u16) -> (r: Vec<char>)
    requires
        s.wf(),
    ensures
        r@ == row_symbols(*s, y as int, x0 as int, x1 as int),
{
    let mut out: Vec<char> = Vec::new();
    if x1 < x0 {
        return out;
    }
    let mut x: u32 = x0 as u32;
    while x <= x1 as u32
        invariant
            s.wf(),
            x0 <= x <= x1 + 1,
            out@ == row_symbols(*s, y as int, x0 as int, x - 1),
        decreases x1 + 1 - x,
    {
        let sym = symbol_at(s, x as u16, y);
        crate::text::push_chars(&mut out, sym.as_slice());
        x = x + 1;
    }
    out
}

/// Row `y` of a selection from `start` to `end`, from column `min_x` on, right-trimmed.
fn selected_row(
    s: &Screen,
    inner: Rect,
    start: (u16, u16),
    end: (u16, u16),
    y: u16,
    min_x: u16,
) -> (r: Vec<char>)
    requires
        s.wf(),
    ensures
        r@ == ({
            let sp = span_on_row(inner, start, end, y);
            trim_end(row_symbols(*s, y as int, if sp.0 < min_x { min_x as int } else { sp.0 }, sp.1))
        }),
{
    let (x0, x1) = row_span(inner, start, end, y);
    let from: u16 = if x0 < min_x { min_x } else { x0 };
    let raw = row_text(s, y, from, x1);
    trim_end_chars(raw.as_slice())
}

/// Rows `0..k` of the selection, joined, extend by a newline and the next row.
proof fn lemma_joined_step(rows: Seq<Seq<char>>, k: int)
    requires
        0 <= k < rows.len(),
    ensures
        joined_lines(rows.take(k + 1)) == if k == 0 {
            rows[0]
        } else {
            joined_lines(rows.take(k)) + seq!['\n'] + rows[k]
        },
{
    assert(rows.take(k + 1).drop_last() =~= rows.take(k));
}

/// Read the selected glyphs from the drawn screen, right-trimming each row and joining the rows
/// with `\n` (see `extracted`).
pub fn extract(s: &Screen, inner: Rect, anchor: (u16, u16), head: (u16, u16)) -> (text: String)
    requires
        s.wf(),
    ensures
        text@ == extracted(*s, inner, anchor, head),
{
    let (start, end) = normalize(anchor, head);
    let ghost rows = selected_rows(*s, inner, anchor, head, 0);
    let mut out: Vec<char> = Vec::new();
    let mut y: u32 = start.1 as u32;
    while y <= end.1 as u32
        invariant
            s.wf(),
            (start, end) == ordered(anchor, head),
            rows == selected_rows(*s, inner, anchor, head, 0),
            start.1 <= y <= end.1 + 1,
            out@ == joined_lines(rows.take(y - start.1)),
        decreases end.1 + 1 - y,
    {
        let row = selected_row(s, inner, start, end, y as u16, 0);
        proof {
            lemma_joined_step(rows, y - start.1);
            assert(rows[y - start.1] == row@);
        }
        if y > start.1 as u32 {
            out.push('\n');
        }
        crate::text::push_chars(&mut out, row.as_slice());
        y = y + 1;
    }
    assert(rows.take(rows.len() as int) =~= rows);
    string_of(out.as_slice())
}

/// The panel text of selected rows: a row joins the one above with a space when both show the
/// same source line, with a newline when they show different ones, and with nothing when the
/// row above shows none.
pub open spec fn panel_joined(rows: Seq<Seq<char>>, lines: Seq<Option<usize>>) -> Seq<char>
    decreases rows.len(),
{
    if rows.len() == 0 {
        seq![]
    } else if rows.len() == 1 {
        rows[0]
    } else {
        let k = rows.len() - 1;
        let sep = match lines[k - 1] {
            Some(p) => if lines[k] == Some(p) { seq![' '] } else { seq!['\n'] },
            None => seq![],
        };
        panel_joined(rows.drop_last(), lines.drop_last()) + sep + rows[k]
    }
}

/// The source line laid-out row `i` shows, if the layout has that row.
pub open spec fn line_of_row(line_at: Seq<usize>, i: int) -> Option<usize> {
    if 0 <= i < line_at.len() { Some(line_at[i]) } else { None }
}

/// The source line each selected screen row shows: row `y` is laid-out row `off + y - inner.y`.
pub open spec fn selected_lines(
    inner: Rect,
    off: int,
    line_at: Seq<usize>,
    anchor: (u16, u16),
    head: (u16, u16),
) -> Seq<Option<usize>> {
    let (start, end) = ordered(anchor, head);
    Seq::new(
        (end.1 - start.1 + 1) as nat,
        |i: int| line_of_row(line_at, off + start.1 + i - inner.y),
    )
}

/// What a selection in a panel copies: the text right of the `gutter` columns, with a source
/// line's wrapped rows rejoined by spaces (see `panel_joined`).
pub open spec fn extracted_panel(
    s: Screen,
    inner: Rect,
    gutter: u16,
    off: int,
    line_at: Seq<usize>,
    anchor: (u16, u16),
    head: (u16, u16),
) -> Seq<char> {
    panel_joined(
        selected_rows(s, inner, anchor, head, inner.x + gutter),
        selected_lines(inner, off, line_at, anchor, head),
    )
}

/// Rows `0..k` of a panel selection, joined, extend by the separator and the next row.
proof fn lemma_panel_step(rows: Seq<Seq<char>>, lines: Seq<Option<usize>>, k: int)
    requires
        0 <= k < rows.len(),
        rows.len() == lines.len(),
    ensures
        panel_joined(rows.take(k + 1), lines.take(k + 1)) == if k == 0 {
            rows[0]
        } else {
            panel_joined(rows.take(k), lines.take(k)) + (match lines[k - 1] {
                Some(p) => if lines[k] == Some(p) { seq![' '] } else { seq!['\n'] },
                None => seq![],
            }) + rows[k]
        },
{
    assert(rows.take(k + 1).drop_last() =~= rows.take(k));
    assert(lines.take(k + 1).drop_last() =~= lines.take(k));
}

/// Panel twin of `extract` (see `extracted_panel`); `off` is the panel's scroll offset and
/// `line_at[r]` the source line of laid-out row `r`.
#[verifier::rlimit(40)]
pub fn extract_panel(
    s: &Screen,
    inner: Rect,
    gutter: u16,
    off: usize,
    line_at: &[usize],
    anchor: (u16, u16),
    head: (u16, u16),
) -> (text: String)
    requires
        s.wf(),
        inner.x + gutter <= u16::MAX,
        inner.y <= anchor.1,
        inner.y <= head.1,
        off + anchor.1 - inner.y <= usize::MAX,
        off + head.1 - inner.y <= usize::MAX,
    ensures
        text@ == extracted_panel(*s, inner, gutter, off as int, line_at@, anchor, head),
{
    let (start, end) = normalize(anchor, head);
    let text_x0: u16 = inner.x + gutter;
    let ghost rows = selected_rows(*s, inner, anchor, head, text_x0 as int);
    let ghost lines = selected_lines(inner, off as int, line_at@, anchor, head);
    let mut out: Vec<char> = Vec::new();
    let mut prev_line: Option<usize> = None;
    let mut y: u32 = start.1 as u32;
    while y <= end.1 as u32
        invariant
            s.wf(),
            (start, end) == ordered(anchor, head),
            rows == selected_rows(*s, inner, anchor, head, text_x0 as int),
            lines == selected_lines(inner, off as int, line_at@, anchor, head),
            text_x0 == inner.x + gutter,
            inner.y <= start.1,
            off + end.1 - inner.y <= usize::MAX,
            start.1 <= y <= end.1 + 1,
            out@ == panel_joined(rows.take(y - start.1), lines.take(y - start.1)),
            y > start.1 ==> prev_line == lines[y - start.1 - 1],
            y == start.1 ==> prev_line is None,
        decreases end.1 + 1 - y,
    {
        let row = selected_row(s, inner, start, end, y as u16, text_x0);
        let i: usize = off + (y as u16 - inner.y) as usize;
        let line: Option<usize> = if i < line_at.len() { Some(line_at[i]) } else { None };
        proof {
            lemma_panel_step(rows, lines, y - start.1);
            assert(rows[y - start.1] == row@);
            assert(lines[y - start.1] == line);
        }
        match prev_line {
            Some(p) => {
                if line == Some(p) {
                    out.push(' ');
                } else {
                    out.push('\n');
                }
            },
            None => {},
        }
        crate::text::push_chars(&mut out, row.as_slice());
        prev_line = line;
        y = y + 1;
    }
    assert(rows.take(rows.len() as int) =~= rows);
    assert(lines.take(lines.len() as int) =~= lines);
    string_of(out.as_slice())
}

/// A drag copies the same text whichever end it started from: swapping anchor and head selects
/// the same span.
pub proof fn lemma_extract_symmetric(s: Screen, inner: Rect, anchor: (u16, u16), head: (u16, u16))
    ensures
        extracted(s, inner, anchor, head) == extracted(s, inner, head, anchor),
{
    if before_or_at(anchor, head) && before_or_at(head, anchor) {
        assert(anchor == head);
    }
    assert(ordered(anchor, head) == ordered(head, anchor));
}

} // verus!
