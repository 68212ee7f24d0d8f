//! The visual rows a panel lays out into: wrapping, the gutter, review cards, diff rows and
//! the code-box and inline-code cosmetics.

use vstd::prelude::*;

use crate::panel::{flat, leading_blank_cells, span_words, removed_view, clip_spans, clipped_spans, wrap_spans, wrapped_spans, blank, is_blank, spans_view, wrap_line, wrapped, AuthorView, Note, NoteView, Author, Panel, note_view, thread_view};
use crate::style::{line_view, span_view, spans_text, Color, Span, Style};
use crate::text::{decimal, push_str_chars, string_of};
use crate::gitdiff::ChangeKind;

verus! {

/// One visual row of a laid-out panel.
pub struct PanelRow {
    pub line: usize,
    /// `Some(n)` on a line's first row (its 1-based source line), `None` on continuation,
    /// comment and gap rows.
    pub gutter: Option<usize>,
    /// Styled, width-fit spans for this visual row.
    pub spans: Vec<Span>,
    /// A card or gap row (drawn dimmed, skipped by the cosmetics).
    pub comment: bool,
    /// Gutter-bar change folded from the row's source range.
    pub change: Option<ChangeKind>,
    /// Review caret on the line's first row: `Some(collapsed)` when a thread is here.
    pub review: Option<bool>,
    /// Pre-formatted row (table/code/diff).
    pub nowrap: bool,
}

/// A panel's rows, each rendered line's start row, and the gutter digit width.
pub struct PanelLayout {
    pub rows: Vec<PanelRow>,
    pub starts: Vec<usize>,
    pub gutter_width: usize,
}

/// A row as plain values.
pub struct RowView {
    pub line: usize,
    pub gutter: Option<usize>,
    pub spans: Seq<(Seq<char>, Style)>,
    pub comment: bool,
    pub change: Option<ChangeKind>,
    pub review: Option<bool>,
    pub nowrap: bool,
}

pub open spec fn row_view(r: PanelRow) -> RowView {
    RowView {
        line: r.line,
        gutter: r.gutter,
        spans: spans_view(r.spans@),
        comment: r.comment,
        change: r.change,
        review: r.review,
        nowrap: r.nowrap,
    }
}

pub open spec fn rows_v(rows: Seq<PanelRow>) -> Seq<RowView> {
    rows.map_values(|r: PanelRow| row_view(r))
}

impl PanelRow {
    /// The row's plain text, styling and indent flattened.
    pub fn text(&self) -> (s: String)
        ensures
            s@ == spans_text(spans_view(self.spans@)),
    {
        let mut out: Vec<char> = Vec::new();
        let mut i: usize = 0;
        while i < self.spans.len()
            invariant
                i <= self.spans@.len(),
                out@ == spans_text(spans_view(self.spans@).subrange(0, i as int)),
            decreases self.spans@.len() - i,
        {
            crate::text::push_str_chars(&mut out, self.spans[i].content.as_str());
            proof {
                assert(spans_view(self.spans@).subrange(0, i + 1).drop_last() =~= spans_view(self.spans@).subrange(0, i as int));
            }
            i = i + 1;
        }
        assert(spans_view(self.spans@).subrange(0, self.spans@.len() as int) =~= spans_view(self.spans@));
        string_of(out.as_slice())
    }
}

/// The display width of spans: their character count.
pub open spec fn spans_width(spans: Seq<(Seq<char>, Style)>) -> nat {
    spans_text(spans).len()
}

/// A span counts as blank when all of its characters are whitespace.
pub open spec fn span_blank(s: (Seq<char>, Style)) -> bool {
    is_blank(s.0)
}

/// A fenced-code row: at least one non-blank span, and every non-blank one has a background.
pub open spec fn fenced(spans: Seq<(Seq<char>, Style)>) -> bool {
    (exists|i: int| 0 <= i < spans.len() && !span_blank(#[trigger] spans[i]))
        && forall|i: int| 0 <= i < spans.len() && !span_blank(#[trigger] spans[i]) ==> spans[i].1.bg is Some
}

fn is_fenced_row(spans: &Vec<Span>) -> (b: bool)
    ensures
        b == fenced(spans_view(spans@)),
{
    let ghost sv = spans_view(spans@);
    let mut any = false;
    let mut i: usize = 0;
    while i < spans.len()
        invariant
            i <= spans@.len(),
            sv == spans_view(spans@),
            any == exists|j: int| 0 <= j < i && !span_blank(#[trigger] sv[j]),
            forall|j: int| 0 <= j < i && !span_blank(#[trigger] sv[j]) ==> sv[j].1.bg is Some,
        decreases spans@.len() - i,
    {
        let nb = !blank(spans[i].content.as_str());
        proof {
            assert(sv[i as int] == span_view(spans@[i as int]));
        }
        if nb {
            any = true;
            if spans[i].style.bg.is_none() {
                return false;
            }
        }
        i = i + 1;
    }
    any
}

fn spans_len(spans: &Vec<Span>) -> (n: usize)
    ensures
        n == spans_width(spans_view(spans@)),
{
    let mut out: Vec<char> = Vec::new();
    let mut i: usize = 0;
    while i < spans.len()
        invariant
            i <= spans@.len(),
            out@ == spans_text(spans_view(spans@).subrange(0, i as int)),
        decreases spans@.len() - i,
    {
        crate::text::push_str_chars(&mut out, spans[i].content.as_str());
        proof {
            assert(spans_view(spans@).subrange(0, i + 1).drop_last() =~= spans_view(spans@).subrange(0, i as int));
        }
        i = i + 1;
    }
    assert(spans_view(spans@).subrange(0, spans@.len() as int) =~= spans_view(spans@));
    out.len()
}

/// `n` copies of `c`.
pub open spec fn repeat_char(c: char, n: nat) -> Seq<char> {
    Seq::new(n, |i: int| c)
}

fn repeat(c: char, n: usize) -> (s: String)
    ensures
        s@ == repeat_char(c, n as nat),
{
    let mut v: Vec<char> = Vec::new();
    let mut i: usize = 0;
    while i < n
        invariant
            i <= n,
            v@ == repeat_char(c, i as nat),
        decreases n - i,
    {
        v.push(c);
        i = i + 1;
        assert(v@ =~= repeat_char(c, i as nat));
    }
    string_of(v.as_slice())
}

/// The style of the first non-blank span, else the plain style.
pub open spec fn first_nonblank_style(spans: Seq<(Seq<char>, Style)>) -> Style
    decreases spans.len(),
{
    if spans.len() == 0 {
        Style::spec_plain()
    } else if !span_blank(spans[0]) {
        spans[0].1
    } else {
        first_nonblank_style(spans.subrange(1, spans.len() as int))
    }
}

/// The number of consecutive fenced rows starting at `i`.
pub open spec fn fenced_run(rows: Seq<RowView>, i: int) -> nat
    decreases rows.len() - i,
{
    if i >= rows.len() || i < 0 || !fenced(rows[i].spans) {
        0
    } else {
        1 + fenced_run(rows, i + 1)
    }
}

/// A fenced run starting inside the rows stays inside them, and is non-empty exactly when its
/// first row is fenced.
pub proof fn lemma_fenced_run_bound(rows: Seq<RowView>, i: int)
    requires
        0 <= i <= rows.len(),
    ensures
        i + fenced_run(rows, i) <= rows.len(),
        i < rows.len() && fenced(rows[i].spans) ==> fenced_run(rows, i) >= 1,
    decreases rows.len() - i,
{
    if i < rows.len() && fenced(rows[i].spans) {
        lemma_fenced_run_bound(rows, i + 1);
    }
}

/// The widest row among `rows[i..end]`.
pub open spec fn widest(rows: Seq<RowView>, i: int, end: int) -> nat
    decreases end - i,
{
    if end <= i {
        0
    } else {
        let rest = widest(rows, i, end - 1);
        let w = spans_width(rows[end - 1].spans);
        if w > rest { w } else { rest }
    }
}

/// A fenced row padded to `w`: a one-cell space before, and after it enough spaces to reach `w`
/// plus one, both in the row's own code style.
pub open spec fn box_row(r: RowView, w: nat) -> RowView {
    let style = first_nonblank_style(r.spans);
    RowView {
        spans: seq![(seq![' '], style)] + r.spans + seq![(
            repeat_char(' ', (w - spans_width(r.spans) + 1) as nat),
            style,
        )],
        ..r
    }
}

/// Each maximal run of fenced rows (a run starts on a non-comment row) boxed into a uniform
/// rectangle as wide as its widest row.
pub open spec fn boxed_from(rows: Seq<RowView>, i: int) -> Seq<RowView>
    decreases rows.len() - i,
{
    if i >= rows.len() || i < 0 {
        rows
    } else if rows[i].comment || !fenced(rows[i].spans) {
        boxed_from(rows, i + 1)
    } else {
        let end = i + fenced_run(rows, i);
        let w = widest(rows, i, end);
        let updated = Seq::new(rows.len(), |j: int| if i <= j < end { box_row(rows[j], w) } else { rows[j] });
        proof {
            lemma_fenced_run_bound(rows, i);
        }
        boxed_from(updated, end)
    }
}


/// Every row of `rows[i..end]` is at most as wide as the widest.
pub proof fn lemma_widest_bounds(rows: Seq<RowView>, i: int, end: int, j: int)
    requires
        i <= j < end,
    ensures
        spans_width(rows[j].spans) <= widest(rows, i, end),
    decreases end - i,
{
    if j < end - 1 {
        lemma_widest_bounds(rows, i, end - 1, j);
    }
}

fn first_nonblank(spans: &Vec<Span>) -> (st: Style)
    ensures
        st == first_nonblank_style(spans_view(spans@)),
{
    let ghost sv = spans_view(spans@);
    let mut i: usize = 0;
    assert(sv.subrange(0, sv.len() as int) =~= sv);
    while i < spans.len()
        invariant
            i <= spans@.len(),
            sv == spans_view(spans@),
            first_nonblank_style(sv) == first_nonblank_style(sv.subrange(i as int, sv.len() as int)),
        decreases spans@.len() - i,
    {
        let ghost rest = sv.subrange(i as int, sv.len() as int);
        proof {
            assert(rest[0] == span_view(spans@[i as int]));
            assert(rest.subrange(1, rest.len() as int) =~= sv.subrange(i + 1, sv.len() as int));
        }
        if !blank(spans[i].content.as_str()) {
            return spans[i].style;
        }
        i = i + 1;
    }
    proof {
        assert(sv.subrange(i as int, sv.len() as int) =~= Seq::<(Seq<char>, Style)>::empty());
    }
    Style::plain()
}

/// `n + 1` spaces.
fn padding(n: usize) -> (s: String)
    ensures
        s@ == repeat_char(' ', n as nat + 1),
{
    let mut v: Vec<char> = Vec::new();
    v.push(' ');
    let mut i: usize = 0;
    while i < n
        invariant
            i <= n,
            v@ == repeat_char(' ', i as nat + 1),
        decreases n - i,
    {
        v.push(' ');
        i = i + 1;
        assert(v@ =~= repeat_char(' ', i as nat + 1));
    }
    string_of(v.as_slice())
}

/// A row with its spans replaced.
fn with_spans(r: &PanelRow, spans: Vec<Span>) -> (out: PanelRow)
    ensures
        row_view(out) == (RowView { spans: spans_view(spans@), ..row_view(*r) }),
{
    PanelRow {
        line: r.line,
        gutter: r.gutter,
        spans,
        comment: r.comment,
        change: r.change,
        review: r.review,
        nowrap: r.nowrap,
    }
}

/// Box each maximal run of fenced-code rows into a uniform rectangle (see `boxed_from`).
pub fn box_fenced(rows: &mut Vec<PanelRow>)
    ensures
        rows_v(final(rows)@) == boxed_from(rows_v(old(rows)@), 0),
{
    let ghost target = boxed_from(rows_v(rows@), 0);
    let mut i: usize = 0;
    while i < rows.len()
        invariant
            i <= rows@.len(),
            boxed_from(rows_v(rows@), i as int) == target,
        decreases rows@.len() - i,
    {
        let ghost rv = rows_v(rows@);
        if rows[i].comment || !is_fenced_row(&rows[i].spans) {
            i = i + 1;
        } else {
            let mut end: usize = i + 1;
            proof {
                assert(fenced_run(rv, i as int) == 1 + fenced_run(rv, i + 1));
            }
            while end < rows.len() && is_fenced_row(&rows[end].spans)
                invariant
                    i < end <= rows@.len(),
                    rv == rows_v(rows@),
                    fenced_run(rv, i as int) == (end - i) + fenced_run(rv, end as int),
                decreases rows@.len() - end,
            {
                proof {
                    assert(fenced_run(rv, end as int) == 1 + fenced_run(rv, end + 1));
                }
                end = end + 1;
            }
            let mut w: usize = 0;
            let mut k: usize = i;
            while k < end
                invariant
                    i <= k <= end <= rows@.len(),
                    rv == rows_v(rows@),
                    w == widest(rv, i as int, k as int),
                decreases end - k,
            {
                let used = spans_len(&rows[k].spans);
                if used > w {
                    w = used;
                }
                k = k + 1;
            }
            let ghost updated = Seq::new(rv.len(), |j: int| if i <= j < end { box_row(rv[j], w as nat) } else { rv[j] });
            let mut k: usize = i;
            while k < end
                invariant
                    i <= k <= end <= rows@.len(),
                    rv.len() == rows@.len(),
                    w == widest(rv, i as int, end as int),
                    forall|j: int| 0 <= j < rv.len() && !(i <= j < k) ==> #[trigger] row_view(rows@[j]) == rv[j],
                    forall|j: int| i <= j < k ==> #[trigger] row_view(rows@[j]) == box_row(rv[j], w as nat),
                decreases end - k,
            {
                proof {
                    lemma_widest_bounds(rv, i as int, end as int, k as int);
                    assert(row_view(rows@[k as int]) == rv[k as int]);
                }
                let style = first_nonblank(&rows[k].spans);
                let used = spans_len(&rows[k].spans);
                let mut boxed: Vec<Span> = Vec::new();
                let one = padding(0);
                assert(one@ =~= seq![' ']);
                boxed.push(Span::styled(one, style));
                let ghost b0 = boxed@;
                let mut old_spans = crate::style::copy_spans(&rows[k].spans);
                assert(spans_view(old_spans@) == rv[k as int].spans);
                boxed.append(&mut old_spans);
                let ghost b1 = boxed@;
                assert(spans_view(b1) =~= spans_view(b0) + rv[k as int].spans);
                boxed.push(Span::styled(padding(w - used), style));
                proof {
                    assert(spans_view(boxed@) =~= spans_view(b1).push((repeat_char(' ', (w - used + 1) as nat), style)));
                    assert(spans_view(boxed@) =~= seq![(seq![' '], style)] + rv[k as int].spans + seq![(
                        repeat_char(' ', (w - used + 1) as nat),
                        style,
                    )]);
                }
                let new_row = with_spans(&rows[k], boxed);
                rows.set(k, new_row);
                k = k + 1;
            }
            proof {
                lemma_fenced_run_bound(rv, i as int);
                assert(rows_v(rows@) =~= updated);
            }
            i = end;
        }
    }
    proof {
        assert(boxed_from(rows_v(rows@), i as int) == rows_v(rows@));
    }
}


/// The background of inline and fenced code.
pub open spec fn code_bg() -> Color {
    Color::Rgb(45, 45, 45)
}

/// A full-cell end cap in the code background's colour.
pub open spec fn cap_cell() -> (Seq<char>, Style) {
    (seq!['\u{2588}'], Style::spec_fg(code_bg()))
}

/// `spans` with a cap before and after each maximal run of spans that carry a background;
/// `in_run` says whether such a run is open on entry.
pub open spec fn capped(spans: Seq<(Seq<char>, Style)>, in_run: bool) -> Seq<(Seq<char>, Style)>
    decreases spans.len(),
{
    if spans.len() == 0 {
        if in_run { seq![cap_cell()] } else { seq![] }
    } else {
        let bg = spans[0].1.bg is Some;
        (if bg != in_run { seq![cap_cell()] } else { seq![] }) + seq![spans[0]] + capped(
            spans.drop_first(),
            bg,
        )
    }
}

/// Some span carries a background.
pub open spec fn has_bg(spans: Seq<(Seq<char>, Style)>) -> bool {
    exists|i: int| 0 <= i < spans.len() && (#[trigger] spans[i]).1.bg is Some
}

/// Inline code capped on prose rows; card, gap, nowrap and fenced rows stay as they are.
pub open spec fn cap_row(r: RowView) -> RowView {
    if r.comment || r.nowrap || fenced(r.spans) || !has_bg(r.spans) {
        r
    } else {
        RowView { spans: capped(r.spans, false), ..r }
    }
}

fn any_bg(spans: &Vec<Span>) -> (b: bool)
    ensures
        b == has_bg(spans_view(spans@)),
{
    let ghost sv = spans_view(spans@);
    let mut i: usize = 0;
    while i < spans.len()
        invariant
            i <= spans@.len(),
            sv == spans_view(spans@),
            forall|j: int| 0 <= j < i ==> (#[trigger] sv[j]).1.bg is None,
        decreases spans@.len() - i,
    {
        assert(sv[i as int] == span_view(spans@[i as int]));
        if spans[i].style.bg.is_some() {
            return true;
        }
        i = i + 1;
    }
    false
}

fn cap_span() -> (s: Span)
    ensures
        span_view(s) == cap_cell(),
{
    let mut v: Vec<char> = Vec::new();
    v.push('\u{2588}');
    let c = string_of(v.as_slice());
    assert(c@ =~= seq!['\u{2588}']);
    Span::styled(c, Style::fg(Color::Rgb(45, 45, 45)))
}

fn capped_spans(spans: &Vec<Span>) -> (out: Vec<Span>)
    ensures
        spans_view(out@) == capped(spans_view(spans@), false),
{
    let ghost sv = spans_view(spans@);
    let mut out: Vec<Span> = Vec::new();
    let mut in_run = false;
    let mut k: usize = 0;
    assert(sv.subrange(0, sv.len() as int) =~= sv);
    while k < spans.len()
        invariant
            k <= spans@.len(),
            sv == spans_view(spans@),
            spans_view(out@) + capped(sv.subrange(k as int, sv.len() as int), in_run) == capped(sv, false),
        decreases spans@.len() - k,
    {
        let ghost rest = sv.subrange(k as int, sv.len() as int);
        let ghost o0 = spans_view(out@);
        let bg = spans[k].style.bg.is_some();
        proof {
            assert(rest[0] == span_view(spans@[k as int]));
            assert(rest.drop_first() =~= sv.subrange(k + 1, sv.len() as int));
        }
        if bg != in_run {
            out.push(cap_span());
        }
        out.push(crate::style::copy_span(&spans[k]));
        proof {
            let pre: Seq<(Seq<char>, Style)> = if bg != in_run { seq![cap_cell()] } else { seq![] };
            assert(spans_view(out@) =~= o0 + pre + seq![rest[0]]);
            assert(o0 + capped(rest, in_run) =~= spans_view(out@) + capped(sv.subrange(k + 1, sv.len() as int), bg));
        }
        in_run = bg;
        k = k + 1;
    }
    let ghost o0 = spans_view(out@);
    if in_run {
        out.push(cap_span());
    }
    proof {
        assert(sv.subrange(k as int, sv.len() as int) =~= Seq::<(Seq<char>, Style)>::empty());
        assert(spans_view(out@) =~= o0 + capped(Seq::<(Seq<char>, Style)>::empty(), in_run));
    }
    out
}

/// Cap each run of inline code on prose rows (see `cap_row`).
pub fn cap_inline(rows: &mut Vec<PanelRow>)
    ensures
        rows_v(final(rows)@) == rows_v(old(rows)@).map_values(|r: RowView| cap_row(r)),
{
    let ghost rv = rows_v(rows@);
    let mut k: usize = 0;
    while k < rows.len()
        invariant
            k <= rows@.len(),
            rv.len() == rows@.len(),
            forall|j: int| k <= j < rv.len() ==> #[trigger] row_view(rows@[j]) == rv[j],
            forall|j: int| 0 <= j < k ==> #[trigger] row_view(rows@[j]) == cap_row(rv[j]),
        decreases rows@.len() - k,
    {
        assert(row_view(rows@[k as int]) == rv[k as int]);
        let skip = rows[k].comment || rows[k].nowrap || is_fenced_row(&rows[k].spans) || !any_bg(&rows[k].spans);
        if !skip {
            let spans = capped_spans(&rows[k].spans);
            let new_row = with_spans(&rows[k], spans);
            rows.set(k, new_row);
        }
        k = k + 1;
    }
    assert(rows_v(rows@) =~= rv.map_values(|r: RowView| cap_row(r)));
}


/// How strongly a change reads in the gutter: modified over added over removed.
pub open spec fn rank(k: ChangeKind) -> int {
    match k {
        ChangeKind::Modified => 2,
        ChangeKind::Added => 1,
        ChangeKind::Removed(_) => 0,
    }
}

/// The marker of source line `s`; none past the table.
pub open spec fn change_at(changes: Seq<Option<ChangeKind>>, s: int) -> Option<ChangeKind> {
    if 0 <= s < changes.len() {
        changes[s]
    } else {
        None
    }
}

/// The highest-ranked marker over source lines `a..s`, the last one among equals.
pub open spec fn strongest(changes: Seq<Option<ChangeKind>>, a: int, s: int) -> Option<ChangeKind>
    decreases s - a,
{
    if s <= a {
        None
    } else {
        let prev = strongest(changes, a, s - 1);
        match change_at(changes, s - 1) {
            None => prev,
            Some(k) => match prev {
                None => Some(k),
                Some(p) => if rank(k) >= rank(p) { Some(k) } else { Some(p) },
            },
        }
    }
}

/// The deleted-line counts over source lines `a..s`, summed.
pub open spec fn removed_sum(changes: Seq<Option<ChangeKind>>, a: int, s: int) -> int
    decreases s - a,
{
    if s <= a {
        0
    } else {
        removed_sum(changes, a, s - 1) + match change_at(changes, s - 1) {
            Some(ChangeKind::Removed(k)) => k as int,
            _ => 0,
        }
    }
}

proof fn lemma_past_changes(changes: Seq<Option<ChangeKind>>, a: int, s: int, e: int)
    requires
        a <= e <= s,
        e >= changes.len(),
    ensures
        strongest(changes, a, s) == strongest(changes, a, e),
        removed_sum(changes, a, s) == removed_sum(changes, a, e),
    decreases s - e,
{
    if s > e {
        lemma_past_changes(changes, a, s - 1, e);
    }
}

impl Panel {
    /// Rendered row `i`'s gutter change: the highest-ranked marker over its source range.
    pub open spec fn spec_row_change(&self, i: int) -> Option<ChangeKind> {
        if 0 <= i < self.source@.len() {
            strongest(self.changes@, self.source@[i].0 as int, self.source@[i].1 + 1)
        } else {
            None
        }
    }

    /// Deleted lines surfacing above rendered row `i`, counted on its block's first row only,
    /// capped at `usize::MAX`.
    pub open spec fn spec_removed_in_row(&self, i: int) -> Option<nat> {
        if i < 0 || i >= self.source@.len() {
            None
        } else if i > 0 && self.source@[i - 1] == self.source@[i] {
            None
        } else {
            let n = removed_sum(self.changes@, self.source@[i].0 as int, self.source@[i].1 + 1);
            if n <= 0 {
                None
            } else if n > usize::MAX {
                Some(usize::MAX as nat)
            } else {
                Some(n as nat)
            }
        }
    }

    fn change_bounds(&self, i: usize) -> (r: (usize, usize))
        requires
            i < self.source@.len(),
        ensures
            r.0 == self.source@[i as int].0,
            r.1 == (if self.source@[i as int].1 < self.changes@.len() {
                self.source@[i as int].1 + 1
            } else {
                self.changes@.len() as int
            }),
    {
        let (a, b) = self.source[i];
        let end = if b < self.changes.len() { b + 1 } else { self.changes.len() };
        (a, end)
    }

    /// Rendered row `i`'s gutter change (see `spec_row_change`).
    pub fn row_change(&self, i: usize) -> (c: Option<ChangeKind>)
        ensures
            c == self.spec_row_change(i as int),
    {
        if i >= self.source.len() {
            return None;
        }
        let (a, end) = self.change_bounds(i);
        let ghost b1 = self.source@[i as int].1 + 1;
        let mut best: Option<ChangeKind> = None;
        let mut s: usize = a;
        while s < end
            invariant
                a <= s,
                a <= end ==> s <= end,
                end < a ==> s == a,
                end <= self.changes@.len(),
                best == strongest(self.changes@, a as int, s as int),
            decreases end - s,
        {
            let c = self.changes[s];
            match c {
                None => {},
                Some(k) => {
                    best = match best {
                        None => Some(k),
                        Some(p) => if rank_of(k) >= rank_of(p) { Some(k) } else { Some(p) },
                    };
                },
            }
            s = s + 1;
        }
        proof {
            if end < b1 {
                if a <= end {
                    lemma_past_changes(self.changes@, a as int, b1, end as int);
                } else if a <= b1 {
                    lemma_past_changes(self.changes@, a as int, b1, a as int);
                }
            }
            assert(best == strongest(self.changes@, a as int, b1));
        }
        best
    }

    /// Deleted lines surfacing above rendered row `i` (see `spec_removed_in_row`).
    pub fn removed_in_row(&self, i: usize) -> (n: Option<usize>)
        ensures
            n matches Some(k) ==> self.spec_removed_in_row(i as int) == Some(k as nat),
            n is None ==> self.spec_removed_in_row(i as int) is None,
    {
        if i >= self.source.len() {
            return None;
        }
        if i > 0 && self.source[i - 1].0 == self.source[i].0 && self.source[i - 1].1 == self.source[i].1 {
            return None;
        }
        let (a, end) = self.change_bounds(i);
        let ghost b1 = self.source@[i as int].1 + 1;
        let mut total: usize = 0;
        let mut saturated = false;
        let mut s: usize = a;
        while s < end
            invariant
                a <= s,
                a <= end ==> s <= end,
                end < a ==> s == a,
                end <= self.changes@.len(),
                saturated ==> removed_sum(self.changes@, a as int, s as int) > usize::MAX,
                !saturated ==> total == removed_sum(self.changes@, a as int, s as int),
            decreases end - s,
        {
            match self.changes[s] {
                Some(ChangeKind::Removed(k)) => {
                    if !saturated {
                        if total <= usize::MAX - k {
                            total = total + k;
                        } else {
                            saturated = true;
                        }
                    }
                },
                _ => {},
            }
            proof {
                lemma_removed_sum_nonneg(self.changes@, a as int, s + 1);
            }
            s = s + 1;
        }
        proof {
            if end < b1 {
                if a <= end {
                    lemma_past_changes(self.changes@, a as int, b1, end as int);
                } else if a <= b1 {
                    lemma_past_changes(self.changes@, a as int, b1, a as int);
                }
            }
        }
        if saturated {
            Some(usize::MAX)
        } else if total > 0 {
            Some(total)
        } else {
            None
        }
    }
}

proof fn lemma_removed_sum_nonneg(changes: Seq<Option<ChangeKind>>, a: int, s: int)
    ensures
        removed_sum(changes, a, s) >= 0,
    decreases s - a,
{
    if s > a {
        lemma_removed_sum_nonneg(changes, a, s - 1);
    }
}

fn rank_of(k: ChangeKind) -> (r: u8)
    ensures
        r as int == rank(k),
{
    match k {
        ChangeKind::Modified => 2,
        ChangeKind::Added => 1,
        ChangeKind::Removed(_) => 0,
    }
}


/// Spans per line, as plain values.
pub open spec fn lines_view(v: Seq<Vec<Span>>) -> Seq<Seq<(Seq<char>, Style)>> {
    v.map_values(|l: Vec<Span>| spans_view(l@))
}

/// The gray of a card's rounded border.
pub open spec fn border_style() -> Style {
    Style::spec_fg(Color::Rgb(120, 120, 120))
}

/// An agent note's foreground.
pub open spec fn agent_note_style() -> Style {
    Style::spec_fg(Color::Rgb(171, 178, 191))
}

/// A human note drawn as an inline-code chip.
pub open spec fn chip_style() -> Style {
    Style { bg: Some(code_bg()), ..Style::spec_fg(Color::Rgb(180, 180, 180)) }
}

/// The name a card shows for an author: `You` for the human, `Agent` for the unnamed agent,
/// a supplied agent name verbatim.
pub open spec fn card_name(a: AuthorView) -> Seq<char> {
    match a {
        AuthorView::User => seq!['Y', 'o', 'u'],
        AuthorView::Agent(n) => if n == seq!['a', 'g', 'e', 'n', 't'] {
            seq!['A', 'g', 'e', 'n', 't']
        } else {
            n
        },
    }
}

/// The reply connector before a note's first line: none for the root, `└─ ` for replies.
pub open spec fn connector(idx: nat) -> Seq<char> {
    if idx == 0 {
        seq![]
    } else {
        seq!['\u{2514}', '\u{2500}', ' ']
    }
}

/// The wrap budget of a card's notes: the inner width less the gutter decoration, two border
/// and two padding columns, floored at 12.
pub open spec fn card_cap(gutter_width: nat, inner_w: nat) -> nat {
    let budget = inner_w - (gutter_width + 3 + 4);
    if budget > 12 { budget as nat } else { 12 }
}

/// The inner lines of note `idx`: `{name} · body` wrapped as one unit, the first line behind the
/// connector and the rest under it; a human note is a padded chip.
pub open spec fn note_lines(n: NoteView, idx: nat, cap: nat) -> Seq<Seq<(Seq<char>, Style)>> {
    let user = n.author is User;
    let cw: nat = if idx == 0 { 0 } else { 3 };
    let pad: nat = if user { 2 } else { 0 };
    let full = card_name(n.author) + seq![' ', '\u{b7}', ' '] + n.body;
    let segs = wrapped(full, (cap - (cw + pad)) as nat);
    Seq::new(
        segs.len(),
        |j: int|
            {
                let lead = if j == 0 { connector(idx) } else { repeat_char(' ', cw) };
                let head: Seq<(Seq<char>, Style)> = if lead.len() > 0 {
                    seq![(lead, border_style())]
                } else {
                    seq![]
                };
                head + seq![
                    if user {
                        (seq![' '] + segs[j] + seq![' '], chip_style())
                    } else {
                        (segs[j], agent_note_style())
                    },
                ]
            },
    )
}

/// The inner lines of a thread's notes, in order.
pub open spec fn card_inner(notes: Seq<NoteView>, cap: nat) -> Seq<Seq<(Seq<char>, Style)>>
    decreases notes.len(),
{
    if notes.len() == 0 {
        seq![]
    } else {
        card_inner(notes.drop_last(), cap) + note_lines(notes.last(), (notes.len() - 1) as nat, cap)
    }
}

/// The widest of some lines.
pub open spec fn max_width(lines: Seq<Seq<(Seq<char>, Style)>>) -> nat
    decreases lines.len(),
{
    if lines.len() == 0 {
        0
    } else {
        let rest = max_width(lines.drop_last());
        let w = spans_width(lines.last());
        if w > rest { w } else { rest }
    }
}

/// A card row pinned to rendered line `line`.
pub open spec fn card_row(line: usize, spans: Seq<(Seq<char>, Style)>) -> RowView {
    RowView { line, gutter: None, spans, comment: true, change: None, review: None, nowrap: false }
}

/// A rounded gray box around the notes' lines, grown to the widest.
pub open spec fn card_rows(line: usize, notes: Seq<NoteView>, cap: nat) -> Seq<RowView> {
    let inner = card_inner(notes, cap);
    let w = max_width(inner);
    seq![card_row(line, seq![(seq!['\u{256d}'] + repeat_char('\u{2500}', w + 2) + seq!['\u{256e}'], border_style())])]
        + Seq::new(
        inner.len(),
        |j: int|
            card_row(
                line,
                seq![(seq!['\u{2502}', ' '], border_style())] + inner[j] + seq![(
                    repeat_char(' ', (w - spans_width(inner[j])) as nat) + seq![' ', '\u{2502}'],
                    border_style(),
                )],
            ),
    ) + seq![card_row(line, seq![(seq!['\u{2570}'] + repeat_char('\u{2500}', w + 2) + seq!['\u{256f}'], border_style())])]
}

pub proof fn lemma_max_width_bounds(lines: Seq<Seq<(Seq<char>, Style)>>, j: int)
    requires
        0 <= j < lines.len(),
    ensures
        spans_width(lines[j]) <= max_width(lines),
    decreases lines.len(),
{
    if j < lines.len() - 1 {
        lemma_max_width_bounds(lines.drop_last(), j);
    }
}

impl Panel {
    /// Digits in the largest source line number.
    pub open spec fn spec_gutter_width(&self) -> nat {
        let n = self.source_lines@.len();
        decimal(if n >= 1 { n } else { 1 }).len()
    }

    /// The card rows under rendered line `i`: the expanded thread's box, none when there is no
    /// thread or it is collapsed.
    pub open spec fn spec_thread_rows(&self, i: int, inner_w: nat) -> Seq<RowView> {
        let ti = self.thread_index(i);
        if 0 <= i <= usize::MAX && ti < self.threads@.len() && !self.threads@[ti].collapsed {
            card_rows(i as usize, self.threads_v()[ti].notes, card_cap(self.spec_gutter_width(), inner_w))
        } else {
            seq![]
        }
    }

    /// Digits in the largest source line number.
    pub fn gutter_width(&self) -> (w: usize)
        ensures
            w == self.spec_gutter_width(),
            1 <= w <= 20,
    {
        let n = self.source_lines.len();
        let total = if n >= 1 { n } else { 1 };
        let d = crate::text::decimal_string(total as u64);
        proof {
            crate::text::lemma_decimal_len_bound(total as nat);
        }
        let v = crate::text::chars_of(d.as_str());
        v.len()
    }

    /// The card rows under rendered line `i` (see `spec_thread_rows`).
    pub fn thread_rows(&self, i: usize, inner_w: usize) -> (rows: Vec<PanelRow>)
        ensures
            rows_v(rows@) == self.spec_thread_rows(i as int, inner_w as nat),
    {
        let t = match self.thread_at(i) {
            Some(t) => t,
            None => return Vec::new(),
        };
        if t.collapsed {
            return Vec::new();
        }
        let gw = self.gutter_width();
        let budget: usize = if inner_w > gw + 7 { inner_w - (gw + 7) } else { 0 };
        let cap: usize = if budget > 12 { budget } else { 12 };
        let ghost notes = thread_view(*t).notes;
        proof {
            self.lemma_thread_index(i as int);
            assert(self.threads_v()[self.thread_index(i as int)] == thread_view(*t));
        }
        let mut inner: Vec<Vec<Span>> = Vec::new();
        push_note_lines(&mut inner, &t.root, 0, cap);
        proof {
            let first = notes.subrange(0, 1);
            assert(first.drop_last() =~= Seq::<NoteView>::empty());
            assert(card_inner(Seq::<NoteView>::empty(), cap as nat) =~= seq![]);
            assert(first.last() == note_view(t.root));
            assert(lines_view(inner@) =~= card_inner(first, cap as nat));
        }
        let mut k: usize = 0;
        while k < t.replies.len()
            invariant
                k <= t.replies@.len(),
                cap >= 12,
                notes == thread_view(*t).notes,
                lines_view(inner@) == card_inner(notes.subrange(0, k + 1), cap as nat),
            decreases t.replies@.len() - k,
        {
            push_note_lines(&mut inner, &t.replies[k], k + 1, cap);
            proof {
                assert(notes[k + 1] == note_view(t.replies@[k as int]));
                assert(notes.subrange(0, k + 2).drop_last() =~= notes.subrange(0, k + 1));
            }
            k = k + 1;
        }
        proof {
            assert(notes.subrange(0, notes.len() as int) =~= notes);
        }
        let ghost iv = lines_view(inner@);
        let mut w: usize = 0;
        let mut j: usize = 0;
        while j < inner.len()
            invariant
                j <= inner@.len(),
                iv == lines_view(inner@),
                w == max_width(iv.subrange(0, j as int)),
            decreases inner@.len() - j,
        {
            let used = spans_len(&inner[j]);
            proof {
                assert(iv.subrange(0, j + 1).drop_last() =~= iv.subrange(0, j as int));
            }
            if used > w {
                w = used;
            }
            j = j + 1;
        }
        proof {
            assert(iv.subrange(0, iv.len() as int) =~= iv);
        }
        let mut rows: Vec<PanelRow> = Vec::new();
        rows.push(card_row_of(i, single(Span::styled(box_edge('\u{256d}', w, '\u{256e}'), Style::fg(Color::Rgb(120, 120, 120))))));
        let mut j: usize = 0;
        while j < inner.len()
            invariant
                j <= inner@.len(),
                iv == lines_view(inner@),
                w == max_width(iv),
                rows@.len() == j + 1,
                rows_v(rows@)[0] == card_row(i, seq![(seq!['\u{256d}'] + repeat_char('\u{2500}', w as nat + 2) + seq!['\u{256e}'], border_style())]),
                forall|m: int| 0 <= m < j ==> #[trigger] row_view(rows@[m + 1]) == card_row(
                    i,
                    seq![(seq!['\u{2502}', ' '], border_style())] + iv[m] + seq![(
                        repeat_char(' ', (w - spans_width(iv[m])) as nat) + seq![' ', '\u{2502}'],
                        border_style(),
                    )],
                ),
            decreases inner@.len() - j,
        {
            let used = spans_len(&inner[j]);
            proof {
                lemma_max_width_bounds(iv, j as int);
            }
            let mut spans: Vec<Span> = Vec::new();
            spans.push(Span::styled(bar_open(), Style::fg(Color::Rgb(120, 120, 120))));
            let mut body = crate::style::copy_spans(&inner[j]);
            spans.append(&mut body);
            spans.push(Span::styled(bar_close(w - used), Style::fg(Color::Rgb(120, 120, 120))));
            proof {
                assert(spans_view(spans@) =~= seq![(seq!['\u{2502}', ' '], border_style())] + iv[j as int] + seq![(
                    repeat_char(' ', (w - spans_width(iv[j as int])) as nat) + seq![' ', '\u{2502}'],
                    border_style(),
                )]);
            }
            rows.push(card_row_of(i, spans));
            proof {
                assert(row_view(rows@[j + 1]) == card_row(
                    i,
                    seq![(seq!['\u{2502}', ' '], border_style())] + iv[j as int] + seq![(
                        repeat_char(' ', (w - spans_width(iv[j as int])) as nat) + seq![' ', '\u{2502}'],
                        border_style(),
                    )],
                ));
            }
            j = j + 1;
        }
        rows.push(card_row_of(i, single(Span::styled(box_edge('\u{2570}', w, '\u{256f}'), Style::fg(Color::Rgb(120, 120, 120))))));
        proof {
            let expect = card_rows(i, notes, cap as nat);
            assert(iv == card_inner(notes, cap as nat));
            assert forall|x: int| 0 <= x < rows@.len() implies #[trigger] rows_v(rows@)[x] == expect[x] by {
                if 1 <= x < rows@.len() - 1 {
                    let m = x - 1;
                    assert(row_view(rows@[m + 1]) == card_row(
                        i,
                        seq![(seq!['\u{2502}', ' '], border_style())] + iv[m] + seq![(
                            repeat_char(' ', (w - spans_width(iv[m])) as nat) + seq![' ', '\u{2502}'],
                            border_style(),
                        )],
                    ));
                }
            }
            assert(rows_v(rows@) =~= expect);
        }
        rows
    }
}

fn card_row_of(line: usize, spans: Vec<Span>) -> (r: PanelRow)
    ensures
        row_view(r) == card_row(line, spans_view(spans@)),
{
    PanelRow { line, gutter: None, spans, comment: true, change: None, review: None, nowrap: false }
}

/// `left`, `w + 2` rules, `right`.
fn box_edge(left: char, w: usize, right: char) -> (s: String)
    ensures
        s@ == seq![left] + repeat_char('\u{2500}', w as nat + 2) + seq![right],
{
    let mut v: Vec<char> = Vec::new();
    v.push(left);
    v.push('\u{2500}');
    v.push('\u{2500}');
    let mut k: usize = 0;
    while k < w
        invariant
            k <= w,
            v@ == seq![left] + repeat_char('\u{2500}', k as nat + 2),
        decreases w - k,
    {
        v.push('\u{2500}');
        k = k + 1;
        assert(v@ =~= seq![left] + repeat_char('\u{2500}', k as nat + 2));
    }
    v.push(right);
    assert(v@ =~= seq![left] + repeat_char('\u{2500}', w as nat + 2) + seq![right]);
    string_of(v.as_slice())
}

fn bar_open() -> (s: String)
    ensures
        s@ == seq!['\u{2502}', ' '],
{
    let mut v: Vec<char> = Vec::new();
    v.push('\u{2502}');
    v.push(' ');
    assert(v@ =~= seq!['\u{2502}', ' ']);
    string_of(v.as_slice())
}

/// `n` spaces, then ` │`.
fn bar_close(n: usize) -> (s: String)
    ensures
        s@ == repeat_char(' ', n as nat) + seq![' ', '\u{2502}'],
{
    let mut v: Vec<char> = Vec::new();
    let mut k: usize = 0;
    while k < n
        invariant
            k <= n,
            v@ == repeat_char(' ', k as nat),
        decreases n - k,
    {
        v.push(' ');
        k = k + 1;
        assert(v@ =~= repeat_char(' ', k as nat));
    }
    v.push(' ');
    v.push('\u{2502}');
    assert(v@ =~= repeat_char(' ', n as nat) + seq![' ', '\u{2502}']);
    string_of(v.as_slice())
}

fn is_agent_word(s: &str) -> (b: bool)
    ensures
        b == (s@ == seq!['a', 'g', 'e', 'n', 't']),
{
    let c = crate::text::chars_of(s);
    let b = c.len() == 5 && c[0] == 'a' && c[1] == 'g' && c[2] == 'e' && c[3] == 'n' && c[4] == 't';
    proof {
        if b {
            assert(s@ =~= seq!['a', 'g', 'e', 'n', 't']);
        }
    }
    b
}

fn card_name_of(a: &Author) -> (s: String)
    ensures
        s@ == card_name(crate::panel::author_view(*a)),
{
    let mut v: Vec<char> = Vec::new();
    match a {
        Author::User => {
            v.push('Y');
            v.push('o');
            v.push('u');
            assert(v@ =~= seq!['Y', 'o', 'u']);
        },
        Author::Agent(n) => {
            if is_agent_word(n.as_str()) {
                v.push('A');
                v.push('g');
                v.push('e');
                v.push('n');
                v.push('t');
                assert(v@ =~= seq!['A', 'g', 'e', 'n', 't']);
            } else {
                push_str_chars(&mut v, n.as_str());
                assert(v@ =~= n@);
            }
        },
    }
    string_of(v.as_slice())
}

/// Push note `idx`'s inner lines (see `note_lines`).
fn push_note_lines(inner: &mut Vec<Vec<Span>>, n: &Note, idx: usize, cap: usize)
    requires
        cap >= 12,
    ensures
        lines_view(final(inner)@) == lines_view(old(inner)@) + note_lines(note_view(*n), idx as nat, cap as nat),
{
    let ghost nv = note_view(*n);
    let user = match n.author {
        Author::User => true,
        Author::Agent(_) => false,
    };
    let cw: usize = if idx == 0 { 0 } else { 3 };
    let pad: usize = if user { 2 } else { 0 };
    let mut full: Vec<char> = Vec::new();
    let name = card_name_of(&n.author);
    push_str_chars(&mut full, name.as_str());
    full.push(' ');
    full.push('\u{b7}');
    full.push(' ');
    push_str_chars(&mut full, n.body.as_str());
    let full_s = string_of(full.as_slice());
    proof {
        assert(full_s@ =~= card_name(nv.author) + seq![' ', '\u{b7}', ' '] + nv.body);
    }
    let segs = wrap_line(full_s.as_str(), cap - (cw + pad));
    let ghost sv = segs@.map_values(|r: String| r@);
    let ghost expect = note_lines(nv, idx as nat, cap as nat);
    let ghost start = lines_view(inner@);
    let mut j: usize = 0;
    while j < segs.len()
        invariant
            j <= segs@.len(),
            sv == segs@.map_values(|r: String| r@),
            sv == wrapped(card_name(nv.author) + seq![' ', '\u{b7}', ' '] + nv.body, (cap - (cw + pad)) as nat),
            expect == note_lines(nv, idx as nat, cap as nat),
            user == (nv.author is User),
            cw as nat == (if idx == 0 { 0nat } else { 3nat }),
            pad as nat == (if user { 2nat } else { 0nat }),
            expect.len() == sv.len(),
            lines_view(inner@) == start + expect.subrange(0, j as int),
        decreases segs@.len() - j,
    {
        let mut spans: Vec<Span> = Vec::new();
        let mut lead: Vec<char> = Vec::new();
        if j == 0 {
            if idx != 0 {
                lead.push('\u{2514}');
                lead.push('\u{2500}');
                lead.push(' ');
            }
        } else {
            let mut k: usize = 0;
            while k < cw
                invariant
                    k <= cw,
                    lead@ == repeat_char(' ', k as nat),
                decreases cw - k,
            {
                lead.push(' ');
                k = k + 1;
                assert(lead@ =~= repeat_char(' ', k as nat));
            }
        }
        let ghost lead_v: Seq<char> = if j == 0 { connector(idx as nat) } else { repeat_char(' ', cw as nat) };
        assert(lead@ =~= lead_v);
        if lead.len() > 0 {
            spans.push(Span::styled(string_of(lead.as_slice()), Style::fg(Color::Rgb(120, 120, 120))));
        }
        if user {
            let mut chip: Vec<char> = Vec::new();
            chip.push(' ');
            push_str_chars(&mut chip, segs[j].as_str());
            chip.push(' ');
            assert(chip@ =~= seq![' '] + sv[j as int] + seq![' ']);
            spans.push(Span::styled(
                string_of(chip.as_slice()),
                Style { fg: Some(Color::Rgb(180, 180, 180)), bg: Some(Color::Rgb(45, 45, 45)), underline_color: None, add_modifier: 0, sub_modifier: 0 },
            ));
        } else {
            let seg = segs[j].clone();
            spans.push(Span::styled(seg, Style::fg(Color::Rgb(171, 178, 191))));
        }
        proof {
            assert(spans_view(spans@) =~= expect[j as int]);
        }
        let ghost before = lines_view(inner@);
        inner.push(spans);
        proof {
            assert(lines_view(inner@) =~= before.push(expect[j as int]));
            assert(expect.subrange(0, j + 1) =~= expect.subrange(0, j as int).push(expect[j as int]));
            assert(lines_view(inner@) =~= start + expect.subrange(0, j + 1));
        }
        j = j + 1;
    }
    proof {
        assert(expect.subrange(0, expect.len() as int) =~= expect);
    }
}


/// A one-span line.
fn single(s: Span) -> (v: Vec<Span>)
    ensures
        spans_view(v@) == seq![span_view(s)],
{
    let mut v: Vec<Span> = Vec::new();
    v.push(s);
    assert(spans_view(v@) =~= seq![span_view(s)]);
    v
}


/// The text budget of a panel row: the inner width less the number, the change bar, the caret
/// and their separators, at least one column.
pub open spec fn text_width(gutter_width: nat, inner_w: nat) -> nat {
    let t = inner_w - (gutter_width + 5);
    if t >= 1 { t as nat } else { 1 }
}

/// The dim red of deletions.
pub open spec fn removed_style() -> Style {
    Style::spec_fg(Color::Rgb(191, 97, 106))
}

/// `── {n} line(s) removed `, then rules out to two columns past the text budget.
pub open spec fn gap_label(n: nat, tw: nat) -> Seq<char> {
    let word: Seq<char> = if n == 1 { seq!['l', 'i', 'n', 'e'] } else { seq!['l', 'i', 'n', 'e', 's'] };
    let label = seq!['\u{2500}', '\u{2500}', ' '] + decimal(n) + seq![' '] + word + seq![
        ' ',
        'r',
        'e',
        'm',
        'o',
        'v',
        'e',
        'd',
        ' ',
    ];
    let dashes = (tw + 2) - label.len();
    label + repeat_char('\u{2500}', if dashes > 0 { dashes as nat } else { 0 })
}

/// A lone `─` span marks a thematic break.
pub open spec fn rule_sentinel(spans: Seq<(Seq<char>, Style)>) -> bool {
    spans.len() == 1 && spans[0].0 == seq!['\u{2500}']
}

impl Panel {
    /// The text budget of this panel at `inner_w`.
    pub open spec fn spec_text_width(&self, inner_w: nat) -> nat {
        text_width(self.spec_gutter_width(), inner_w)
    }

    /// The dim red gap row above rendered line `i` when deletions surface there.
    pub open spec fn gap_rows(&self, i: int, tw: nat) -> Seq<RowView> {
        match self.spec_removed_in_row(i) {
            Some(n) => seq![RowView {
                line: i as usize,
                gutter: None,
                spans: seq![(gap_label(n, tw), removed_style())],
                comment: true,
                change: None,
                review: None,
                nowrap: false,
            }],
            None => seq![],
        }
    }

    /// Line `i`'s chunks: a break stretched across the budget, a pre-formatted line clipped to
    /// the horizontal window, anything else word-wrapped.
    pub open spec fn line_chunks(&self, i: int, tw: nat) -> Seq<Seq<(Seq<char>, Style)>> {
        let spans = line_view(self.styled@[i]);
        if rule_sentinel(spans) {
            seq![seq![(repeat_char('\u{2500}', tw), spans[0].1)]]
        } else if self.nowrap@[i] {
            seq![clipped_spans(spans, self.h_offset as nat, tw)]
        } else {
            wrapped_spans(spans, tw)
        }
    }

    /// The review caret on line `i`'s first row: whether its thread is collapsed, when it has one.
    pub open spec fn caret(&self, i: int) -> Option<bool> {
        let ti = self.thread_index(i);
        if ti < self.threads@.len() {
            Some(self.threads@[ti].collapsed)
        } else {
            None
        }
    }

    /// Line `i`'s own rows: the first carries its first source line number and the caret.
    pub open spec fn body_rows(&self, i: int, tw: nat) -> Seq<RowView> {
        let chunks = self.line_chunks(i, tw);
        Seq::new(
            chunks.len(),
            |k: int|
                RowView {
                    line: i as usize,
                    gutter: if k == 0 { Some((self.source@[i].0 + 1) as usize) } else { None },
                    spans: chunks[k],
                    comment: false,
                    change: self.spec_row_change(i),
                    review: if k == 0 { self.caret(i) } else { None },
                    nowrap: self.nowrap@[i],
                },
        )
    }

    /// Row `i` ends its folded unit: the next row shows another source range, or there is none.
    pub open spec fn unit_end(&self, i: int) -> bool {
        i + 1 >= self.source@.len() || self.source@[i + 1] != self.source@[i]
    }

    /// The first row of row `i`'s folded unit: the run of rows before it showing the same source
    /// range.
    pub open spec fn unit_start(&self, i: int) -> int
        decreases i,
    {
        if 0 < i < self.source@.len() && self.source@[i - 1] == self.source@[i] {
            self.unit_start(i - 1)
        } else {
            i
        }
    }

    /// The cards of rows `c..=i`, in order.
    pub open spec fn cards_from(&self, c: int, i: int, inner_w: nat) -> Seq<RowView>
        decreases i - c + 1,
    {
        if i < c {
            seq![]
        } else {
            self.cards_from(c, i - 1, inner_w) + self.spec_thread_rows(i, inner_w)
        }
    }

    /// Everything line `i` lays out into: its gap row, its own rows, and, when it ends its
    /// folded unit, the cards of the whole unit, so a card never splits a folded block.
    pub open spec fn line_block(&self, i: int, inner_w: nat) -> Seq<RowView> {
        let tw = self.spec_text_width(inner_w);
        self.gap_rows(i, tw) + self.body_rows(i, tw) + (if self.unit_end(i) {
            self.cards_from(self.unit_start(i), i, inner_w)
        } else {
            seq![]
        })
    }

    /// The rows of the first `n` lines, before the cosmetics.
    pub open spec fn raw_rows(&self, n: int, inner_w: nat) -> Seq<RowView>
        decreases n,
    {
        if n <= 0 {
            seq![]
        } else {
            self.raw_rows(n - 1, inner_w) + self.line_block(n - 1, inner_w)
        }
    }

    /// Where line `i`'s own rows start: after the earlier lines and its own gap row.
    pub open spec fn line_start(&self, i: int, inner_w: nat) -> nat {
        self.raw_rows(i, inner_w).len() + self.gap_rows(i, self.spec_text_width(inner_w)).len()
    }

    /// The file view's rows: the lines' rows, fenced code boxed, then inline code capped.
    pub open spec fn file_rows(&self, inner_w: nat) -> Seq<RowView> {
        boxed_from(self.raw_rows(self.styled@.len() as int, inner_w), 0).map_values(|r: RowView| cap_row(r))
    }

    /// The line's gap row, if deletions surface above it.
    fn push_gap_row(&self, rows: &mut Vec<PanelRow>, i: usize, tw: usize)
        requires
            i < self.source@.len(),
            tw >= 1,
        ensures
            rows_v(final(rows)@) == rows_v(old(rows)@) + self.gap_rows(i as int, tw as nat),
    {
        match self.removed_in_row(i) {
            None => {
                assert(rows_v(rows@) =~= rows_v(rows@) + Seq::<RowView>::empty());
            },
            Some(n) => {
                let mut label: Vec<char> = Vec::new();
                label.push('\u{2500}');
                label.push('\u{2500}');
                label.push(' ');
                crate::text::push_decimal(&mut label, n as u64);
                label.push(' ');
                label.push('l');
                label.push('i');
                label.push('n');
                label.push('e');
                if n != 1 {
                    label.push('s');
                }
                label.push(' ');
                label.push('r');
                label.push('e');
                label.push('m');
                label.push('o');
                label.push('v');
                label.push('e');
                label.push('d');
                label.push(' ');
                let ghost lab = label@;
                let lab_len = label.len();
                let dashes: usize = if lab_len <= tw {
                    (tw - lab_len) + 2
                } else if lab_len - tw <= 2 {
                    2 - (lab_len - tw)
                } else {
                    0
                };
                let mut k: usize = 0;
                while k < dashes
                    invariant
                        k <= dashes,
                        label@ == lab + repeat_char('\u{2500}', k as nat),
                    decreases dashes - k,
                {
                    label.push('\u{2500}');
                    k = k + 1;
                    assert(label@ =~= lab + repeat_char('\u{2500}', k as nat));
                }
                proof {
                    let word: Seq<char> = if n == 1 { seq!['l', 'i', 'n', 'e'] } else { seq!['l', 'i', 'n', 'e', 's'] };
                    assert(lab =~= seq!['\u{2500}', '\u{2500}', ' '] + decimal(n as nat) + seq![' '] + word + seq![
                        ' ',
                        'r',
                        'e',
                        'm',
                        'o',
                        'v',
                        'e',
                        'd',
                        ' ',
                    ]);
                    assert(label@ =~= gap_label(n as nat, tw as nat));
                }
                let text = string_of(label.as_slice());
                let row = PanelRow {
                    line: i,
                    gutter: None,
                    spans: single(Span::styled(text, Style::fg(Color::Rgb(191, 97, 106)))),
                    comment: true,
                    change: None,
                    review: None,
                    nowrap: false,
                };
                let ghost before = rows_v(rows@);
                rows.push(row);
                assert(rows_v(rows@) =~= before + self.gap_rows(i as int, tw as nat));
            },
        }
    }

    /// Line `i`'s chunks (see `line_chunks`).
    fn chunks_of(&self, i: usize, tw: usize) -> (c: Vec<Vec<Span>>)
        requires
            self.wf(),
            i < self.styled@.len(),
            tw >= 1,
        ensures
            lines_view(c@) == self.line_chunks(i as int, tw as nat),
    {
        let spans = &self.styled[i].spans;
        let ghost sv = line_view(self.styled@[i as int]);
        assert(spans_view(spans@) == sv);
        let mut sentinel = false;
        if spans.len() == 1 {
            let c = crate::text::chars_of(spans[0].content.as_str());
            sentinel = c.len() == 1 && c[0] == '\u{2500}';
            proof {
                assert(sv[0] == span_view(spans@[0]));
                if sentinel {
                    assert(spans@[0].content@ =~= seq!['\u{2500}']);
                } else if c@.len() == 1 {
                    assert(spans@[0].content@[0] == c@[0]);
                }
            }
        }
        let mut out: Vec<Vec<Span>> = Vec::new();
        if sentinel {
            let mut v: Vec<char> = Vec::new();
            let mut k: usize = 0;
            while k < tw
                invariant
                    k <= tw,
                    v@ == repeat_char('\u{2500}', k as nat),
                decreases tw - k,
            {
                v.push('\u{2500}');
                k = k + 1;
                assert(v@ =~= repeat_char('\u{2500}', k as nat));
            }
            out.push(single(Span::styled(string_of(v.as_slice()), spans[0].style)));
            proof {
                assert(sv[0] == span_view(spans@[0]));
                assert(lines_view(out@) =~= self.line_chunks(i as int, tw as nat));
            }
        } else if self.nowrap[i] {
            out.push(clip_spans(spans, self.h_offset, tw));
            assert(lines_view(out@) =~= self.line_chunks(i as int, tw as nat));
        } else {
            out = wrap_spans(spans, tw);
            assert(lines_view(out@) =~= self.line_chunks(i as int, tw as nat));
        }
        out
    }

    /// The review caret on line `i` (see `caret`).
    fn caret_of(&self, i: usize) -> (c: Option<bool>)
        ensures
            c == self.caret(i as int),
    {
        match self.thread_at(i) {
            Some(t) => Some(t.collapsed),
            None => None,
        }
    }

    /// Line `i`'s own rows (see `body_rows`).
    fn push_body_rows(&self, rows: &mut Vec<PanelRow>, i: usize, tw: usize)
        requires
            self.wf(),
            i < self.styled@.len(),
            tw >= 1,
        ensures
            rows_v(final(rows)@) == rows_v(old(rows)@) + self.body_rows(i as int, tw as nat),
    {
        let chunks = self.chunks_of(i, tw);
        let ghost cv = lines_view(chunks@);
        let ghost start = rows_v(rows@);
        let ghost expect = self.body_rows(i as int, tw as nat);
        let change = self.row_change(i);
        let caret = self.caret_of(i);
        let first_line = self.source[i].0 + 1;
        let nowrap = self.nowrap[i];
        let mut k: usize = 0;
        while k < chunks.len()
            invariant
                k <= chunks@.len(),
                cv == lines_view(chunks@),
                cv == self.line_chunks(i as int, tw as nat),
                expect == self.body_rows(i as int, tw as nat),
                change == self.spec_row_change(i as int),
                caret == self.caret(i as int),
                first_line == self.source@[i as int].0 + 1,
                nowrap == self.nowrap@[i as int],
                rows_v(rows@) == start + expect.subrange(0, k as int),
            decreases chunks@.len() - k,
        {
            let spans = crate::style::copy_spans(&chunks[k]);
            let row = PanelRow {
                line: i,
                gutter: if k == 0 { Some(first_line) } else { None },
                spans,
                comment: false,
                change,
                review: if k == 0 { caret } else { None },
                nowrap,
            };
            let ghost before = rows_v(rows@);
            proof {
                assert(spans_view(spans@) == cv[k as int]);
                assert(row_view(row) == expect[k as int]);
            }
            rows.push(row);
            proof {
                assert(rows_v(rows@) =~= before.push(expect[k as int]));
                assert(expect.subrange(0, k + 1) =~= expect.subrange(0, k as int).push(expect[k as int]));
            }
            k = k + 1;
        }
        assert(expect.subrange(0, expect.len() as int) =~= expect);
    }

    /// Append the cards of rows `unit..=i`.
    fn push_unit_cards(&self, rows: &mut Vec<PanelRow>, unit: usize, i: usize, inner_w: usize)
        requires
            unit <= i < self.styled@.len(),
        ensures
            rows_v(final(rows)@) == rows_v(old(rows)@) + self.cards_from(unit as int, i as int, inner_w as nat),
    {
        let ghost start = rows_v(rows@);
        let n = self.styled.len();
        assert(i < n);
        let mut k: usize = unit;
        assert(self.cards_from(unit as int, unit - 1, inner_w as nat) =~= Seq::<RowView>::empty());
        assert(start =~= start + Seq::<RowView>::empty());
        while k <= i
            invariant
                unit <= k <= i + 1,
                i < self.styled@.len(),
                i < usize::MAX,
                rows_v(rows@) == start + self.cards_from(unit as int, k - 1, inner_w as nat),
            decreases i + 1 - k,
        {
            let mut cards = self.thread_rows(k, inner_w);
            let ghost pre = rows_v(rows@);
            rows.append(&mut cards);
            proof {
                assert(rows_v(rows@) =~= pre + self.spec_thread_rows(k as int, inner_w as nat));
                assert(self.cards_from(unit as int, k as int, inner_w as nat) == self.cards_from(
                    unit as int,
                    k - 1,
                    inner_w as nat,
                ) + self.spec_thread_rows(k as int, inner_w as nat));
                assert(rows_v(rows@) =~= start + self.cards_from(unit as int, k as int, inner_w as nat));
            }
            k = k + 1;
        }
    }

    /// Lay the file view into visual rows for an `inner_w`-wide area (see `file_rows`).
    #[verifier::rlimit(30)]
    fn file_layout(&self, inner_w: usize) -> (l: PanelLayout)
        requires
            self.wf(),
        ensures
            rows_v(l.rows@) == self.file_rows(inner_w as nat),
            l.starts@.len() == self.styled@.len(),
            forall|i: int| 0 <= i < l.starts@.len() ==> #[trigger] l.starts@[i] as int == self.line_start(i, inner_w as nat),
            l.gutter_width == self.spec_gutter_width(),
    {
        let gw = self.gutter_width();
        let tw: usize = if inner_w > gw + 5 && inner_w - (gw + 5) >= 1 { inner_w - (gw + 5) } else { 1 };
        assert(tw == self.spec_text_width(inner_w as nat));
        let mut rows: Vec<PanelRow> = Vec::new();
        let mut starts: Vec<usize> = Vec::new();
        let mut unit: usize = 0;
        let mut i: usize = 0;
        while i < self.styled.len()
            invariant
                self.wf(),
                i <= self.styled@.len(),
                unit <= i,
                tw == self.spec_text_width(inner_w as nat),
                tw >= 1,
                rows_v(rows@) == self.raw_rows(i as int, inner_w as nat),
                starts@.len() == i,
                forall|j: int| 0 <= j < i ==> #[trigger] starts@[j] as int == self.line_start(j, inner_w as nat),
                i > 0 ==> unit == self.unit_start(i - 1),
            decreases self.styled@.len() - i,
        {
            let ghost before = rows_v(rows@);
            let same_as_prev = i > 0 && self.source[i - 1].0 == self.source[i].0 && self.source[i - 1].1
                == self.source[i].1;
            if !same_as_prev {
                unit = i;
            }
            assert(unit == self.unit_start(i as int));
            self.push_gap_row(&mut rows, i, tw);
            proof {
                assert(rows_v(rows@).len() == rows@.len());
                assert(rows_v(rows@).len() == self.raw_rows(i as int, inner_w as nat).len() + self.gap_rows(
                    i as int,
                    tw as nat,
                ).len());
            }
            starts.push(rows.len());
            proof {
                assert(starts@[i as int] as int == self.line_start(i as int, inner_w as nat));
            }
            self.push_body_rows(&mut rows, i, tw);
            let ghost mid = rows_v(rows@);
            let ends = i + 1 >= self.source.len() || self.source[i + 1].0 != self.source[i].0
                || self.source[i + 1].1 != self.source[i].1;
            if ends {
                self.push_unit_cards(&mut rows, unit, i, inner_w);
            } else {
                assert(rows_v(rows@) =~= mid + Seq::<RowView>::empty());
            }
            proof {
                assert(self.raw_rows(i + 1, inner_w as nat) =~= before + self.line_block(i as int, inner_w as nat));
            }
            i = i + 1;
        }
        box_fenced(&mut rows);
        cap_inline(&mut rows);
        PanelLayout { rows, starts, gutter_width: gw }
    }
}


/// The green of added and modified lines in the diff view.
pub open spec fn added_style() -> Style {
    Style::spec_fg(Color::Rgb(163, 190, 140))
}

/// A diff-view row: no gutter change, caret or card.
pub open spec fn diff_row(line: usize, gutter: Option<usize>, spans: Seq<(Seq<char>, Style)>) -> RowView {
    RowView { line, gutter, spans, comment: false, change: None, review: None, nowrap: false }
}

/// The red `-` rows of one deleted line's text, keyed to its line (clamped into the file).
pub open spec fn minus_rows(idx: usize, text: Seq<char>, tw: nat, line_count: nat) -> Seq<RowView> {
    let chunks = wrapped(seq!['-'] + text, tw);
    let line = if idx < line_count - 1 { idx } else { (line_count - 1) as usize };
    Seq::new(chunks.len(), |k: int| diff_row(line, None, seq![(chunks[k], removed_style())]))
}

/// The red rows of deleted texts, in order.
pub open spec fn texts_rows(idx: usize, texts: Seq<Seq<char>>, tw: nat, line_count: nat) -> Seq<RowView>
    decreases texts.len(),
{
    if texts.len() == 0 {
        seq![]
    } else {
        texts_rows(idx, texts.drop_last(), tw, line_count) + minus_rows(idx, texts.last(), tw, line_count)
    }
}

/// The red rows queued before source line `at`: every deletion entry keyed there, in order.
pub open spec fn removed_rows(removed: Seq<(usize, Seq<Seq<char>>)>, at: int, tw: nat, line_count: nat) -> Seq<
    RowView,
>
    decreases removed.len(),
{
    if removed.len() == 0 {
        seq![]
    } else {
        let e = removed.last();
        removed_rows(removed.drop_last(), at, tw, line_count) + if e.0 == at {
            texts_rows(e.0, e.1, tw, line_count)
        } else {
            seq![]
        }
    }
}

impl Panel {
    /// Lines the diff view walks: the source lines, at least one.
    pub open spec fn diff_line_count(&self) -> nat {
        let n = self.source_lines@.len();
        if n >= 1 { n } else { 1 }
    }

    /// Source line `i` in the diff view: `+` and green when added or modified, else a space and
    /// unstyled; its first row carries the 1-based line number.
    pub open spec fn diff_line_rows(&self, i: int, tw: nat) -> Seq<RowView> {
        let marked = match change_at(self.changes@, i) {
            Some(ChangeKind::Added) => true,
            Some(ChangeKind::Modified) => true,
            _ => false,
        };
        let text = if i < self.source_lines@.len() { self.source_lines@[i]@ } else { seq![] };
        let chunks = wrapped(seq![if marked { '+' } else { ' ' }] + text, tw);
        let style = if marked { added_style() } else { Style::spec_plain() };
        Seq::new(
            chunks.len(),
            |k: int| diff_row(i as usize, if k == 0 { Some((i + 1) as usize) } else { None }, seq![(chunks[k], style)]),
        )
    }

    /// The diff view's rows for the first `n` source lines, deletions above the line they precede.
    pub open spec fn diff_raw(&self, n: int, tw: nat) -> Seq<RowView>
        decreases n,
    {
        if n <= 0 {
            seq![]
        } else {
            self.diff_raw(n - 1, tw) + removed_rows(removed_view(self.removed@), n - 1, tw, self.diff_line_count())
                + self.diff_line_rows(n - 1, tw)
        }
    }

    /// The whole diff view, with deletions at the end of the file last.
    pub open spec fn diff_rows(&self, inner_w: nat) -> Seq<RowView> {
        let tw = self.spec_text_width(inner_w);
        let n = self.diff_line_count();
        self.diff_raw(n as int, tw) + removed_rows(removed_view(self.removed@), n as int, tw, n)
    }

    /// Where source line `i`'s own rows start in the diff view.
    pub open spec fn diff_start(&self, i: int, inner_w: nat) -> nat {
        let tw = self.spec_text_width(inner_w);
        self.diff_raw(i, tw).len() + removed_rows(removed_view(self.removed@), i, tw, self.diff_line_count()).len()
    }

    /// The red rows queued before source line `at` (see `removed_rows`).
    fn push_removed_rows(&self, rows: &mut Vec<PanelRow>, at: usize, tw: usize, line_count: usize)
        requires
            tw >= 1,
            line_count >= 1,
        ensures
            rows_v(final(rows)@) == rows_v(old(rows)@) + removed_rows(
                removed_view(self.removed@),
                at as int,
                tw as nat,
                line_count as nat,
            ),
    {
        let ghost rv = removed_view(self.removed@);
        let ghost start = rows_v(rows@);
        let mut e: usize = 0;
        assert(rv.subrange(0, 0) =~= Seq::<(usize, Seq<Seq<char>>)>::empty());
        while e < self.removed.len()
            invariant
                e <= self.removed@.len(),
                tw >= 1,
                line_count >= 1,
                rv == removed_view(self.removed@),
                rows_v(rows@) == start + removed_rows(rv.subrange(0, e as int), at as int, tw as nat, line_count as nat),
            decreases self.removed@.len() - e,
        {
            let ghost before = rows_v(rows@);
            proof {
                assert(rv.subrange(0, e + 1).drop_last() =~= rv.subrange(0, e as int));
                assert(rv.subrange(0, e + 1).last() == rv[e as int]);
            }
            if self.removed[e].0 == at {
                let idx = self.removed[e].0;
                let texts = &self.removed[e].1;
                let ghost tv = texts@.map_values(|s: String| s@);
                assert(rv[e as int].1 == tv);
                let mut t: usize = 0;
                assert(tv.subrange(0, 0) =~= Seq::<Seq<char>>::empty());
                while t < texts.len()
                    invariant
                        t <= texts@.len(),
                        tw >= 1,
                        line_count >= 1,
                        tv == texts@.map_values(|s: String| s@),
                        rows_v(rows@) == before + texts_rows(idx, tv.subrange(0, t as int), tw as nat, line_count as nat),
                    decreases texts@.len() - t,
                {
                    let mut text: Vec<char> = Vec::new();
                    text.push('-');
                    push_str_chars(&mut text, texts[t].as_str());
                    let ts = string_of(text.as_slice());
                    assert(ts@ =~= seq!['-'] + tv[t as int]);
                    let chunks = wrap_line(ts.as_str(), tw);
                    let ghost cv = chunks@.map_values(|r: String| r@);
                    let line = if idx < line_count - 1 { idx } else { line_count - 1 };
                    let ghost mid = rows_v(rows@);
                    let ghost expect = minus_rows(idx, tv[t as int], tw as nat, line_count as nat);
                    let mut k: usize = 0;
                    while k < chunks.len()
                        invariant
                            k <= chunks@.len(),
                            cv == chunks@.map_values(|r: String| r@),
                            cv == wrapped(seq!['-'] + tv[t as int], tw as nat),
                            expect == minus_rows(idx, tv[t as int], tw as nat, line_count as nat),
                            line == (if idx < line_count - 1 { idx } else { (line_count - 1) as usize }),
                            rows_v(rows@) == mid + expect.subrange(0, k as int),
                        decreases chunks@.len() - k,
                    {
                        let row = PanelRow {
                            line,
                            gutter: None,
                            spans: single(Span::styled(chunks[k].clone(), Style::fg(Color::Rgb(191, 97, 106)))),
                            comment: false,
                            change: None,
                            review: None,
                            nowrap: false,
                        };
                        let ghost b = rows_v(rows@);
                        proof {
                            assert(row_view(row) == expect[k as int]);
                        }
                        rows.push(row);
                        proof {
                            assert(rows_v(rows@) =~= b.push(expect[k as int]));
                            assert(expect.subrange(0, k + 1) =~= expect.subrange(0, k as int).push(expect[k as int]));
                        }
                        k = k + 1;
                    }
                    proof {
                        assert(expect.subrange(0, expect.len() as int) =~= expect);
                        assert(tv.subrange(0, t + 1).drop_last() =~= tv.subrange(0, t as int));
                        assert(rows_v(rows@) =~= before + texts_rows(idx, tv.subrange(0, t + 1), tw as nat, line_count as nat));
                    }
                    t = t + 1;
                }
                proof {
                    assert(tv.subrange(0, tv.len() as int) =~= tv);
                    assert(rows_v(rows@) =~= start + removed_rows(rv.subrange(0, e + 1), at as int, tw as nat, line_count as nat));
                }
            } else {
                proof {
                    assert(rows_v(rows@) =~= start + removed_rows(rv.subrange(0, e + 1), at as int, tw as nat, line_count as nat));
                }
            }
            e = e + 1;
        }
        assert(rv.subrange(0, rv.len() as int) =~= rv);
    }

    /// Source line `i`'s diff-view rows (see `diff_line_rows`).
    fn push_diff_line_rows(&self, rows: &mut Vec<PanelRow>, i: usize, tw: usize)
        requires
            tw >= 1,
            i < usize::MAX,
        ensures
            rows_v(final(rows)@) == rows_v(old(rows)@) + self.diff_line_rows(i as int, tw as nat),
    {
        let marked = if i < self.changes.len() {
            match self.changes[i] {
                Some(ChangeKind::Added) => true,
                Some(ChangeKind::Modified) => true,
                _ => false,
            }
        } else {
            false
        };
        let mut text: Vec<char> = Vec::new();
        text.push(if marked { '+' } else { ' ' });
        if i < self.source_lines.len() {
            push_str_chars(&mut text, self.source_lines[i].as_str());
        }
        let ts = string_of(text.as_slice());
        let ghost body: Seq<char> = if i < self.source_lines@.len() { self.source_lines@[i as int]@ } else { seq![] };
        assert(ts@ =~= seq![if marked { '+' } else { ' ' }] + body);
        let chunks = wrap_line(ts.as_str(), tw);
        let ghost cv = chunks@.map_values(|r: String| r@);
        let ghost start = rows_v(rows@);
        let ghost expect = self.diff_line_rows(i as int, tw as nat);
        let style = if marked { Style::fg(Color::Rgb(163, 190, 140)) } else { Style::plain() };
        let mut k: usize = 0;
        while k < chunks.len()
            invariant
                k <= chunks@.len(),
                i < usize::MAX,
                cv == chunks@.map_values(|r: String| r@),
                cv == wrapped(seq![if marked { '+' } else { ' ' }] + body, tw as nat),
                expect == self.diff_line_rows(i as int, tw as nat),
                style == (if marked { added_style() } else { Style::spec_plain() }),
                marked == (match change_at(self.changes@, i as int) {
                    Some(ChangeKind::Added) => true,
                    Some(ChangeKind::Modified) => true,
                    _ => false,
                }),
                body == (if i < self.source_lines@.len() { self.source_lines@[i as int]@ } else { seq![] }),
                rows_v(rows@) == start + expect.subrange(0, k as int),
            decreases chunks@.len() - k,
        {
            let row = PanelRow {
                line: i,
                gutter: if k == 0 { Some(i + 1) } else { None },
                spans: single(Span::styled(chunks[k].clone(), style)),
                comment: false,
                change: None,
                review: None,
                nowrap: false,
            };
            let ghost b = rows_v(rows@);
            proof {
                assert(row_view(row) == expect[k as int]);
            }
            rows.push(row);
            proof {
                assert(rows_v(rows@) =~= b.push(expect[k as int]));
                assert(expect.subrange(0, k + 1) =~= expect.subrange(0, k as int).push(expect[k as int]));
            }
            k = k + 1;
        }
        assert(expect.subrange(0, expect.len() as int) =~= expect);
    }

    /// Lay the panel out as an inline diff against HEAD (see `diff_rows`).
    fn diff_layout(&self, inner_w: usize) -> (l: PanelLayout)
        ensures
            rows_v(l.rows@) == self.diff_rows(inner_w as nat),
            l.starts@.len() == self.diff_line_count(),
            forall|i: int| 0 <= i < l.starts@.len() ==> #[trigger] l.starts@[i] as int == self.diff_start(i, inner_w as nat),
            l.gutter_width == self.spec_gutter_width(),
    {
        let gw = self.gutter_width();
        let tw: usize = if inner_w > gw + 5 && inner_w - (gw + 5) >= 1 { inner_w - (gw + 5) } else { 1 };
        assert(tw == self.spec_text_width(inner_w as nat));
        let n = self.source_lines.len();
        let line_count: usize = if n >= 1 { n } else { 1 };
        let mut rows: Vec<PanelRow> = Vec::new();
        let mut starts: Vec<usize> = Vec::new();
        let mut i: usize = 0;
        while i < line_count
            invariant
                i <= line_count,
                line_count == self.diff_line_count(),
                tw == self.spec_text_width(inner_w as nat),
                tw >= 1,
                rows_v(rows@) == self.diff_raw(i as int, tw as nat),
                starts@.len() == i,
                forall|j: int| 0 <= j < i ==> #[trigger] starts@[j] as int == self.diff_start(j, inner_w as nat),
            decreases line_count - i,
        {
            let ghost before = rows_v(rows@);
            self.push_removed_rows(&mut rows, i, tw, line_count);
            starts.push(rows.len());
            self.push_diff_line_rows(&mut rows, i, tw);
            proof {
                assert(self.diff_raw(i + 1, tw as nat) =~= before + removed_rows(
                    removed_view(self.removed@),
                    i as int,
                    tw as nat,
                    line_count as nat,
                ) + self.diff_line_rows(i as int, tw as nat));
            }
            i = i + 1;
        }
        self.push_removed_rows(&mut rows, line_count, tw, line_count);
        PanelLayout { rows, starts, gutter_width: gw }
    }

    /// The rows this panel lays out into at `inner_w`: the diff view or the file view.
    pub open spec fn spec_layout_rows(&self, inner_w: nat) -> Seq<RowView> {
        if self.diff_view {
            self.diff_rows(inner_w)
        } else {
            self.file_rows(inner_w)
        }
    }

    /// Where each line's own rows start at `inner_w`.
    pub open spec fn spec_starts(&self, inner_w: nat) -> Seq<int> {
        if self.diff_view {
            Seq::new(self.diff_line_count(), |i: int| self.diff_start(i, inner_w) as int)
        } else {
            Seq::new(self.styled@.len(), |i: int| self.line_start(i, inner_w) as int)
        }
    }

    /// Lay the panel into visual rows for an `inner_w`-wide area: the diff view when it is on,
    /// else the file with gutter, gap rows and cards.
    pub fn layout(&self, inner_w: usize) -> (l: PanelLayout)
        requires
            self.wf(),
        ensures
            rows_v(l.rows@) == self.spec_layout_rows(inner_w as nat),
            l.starts@.map_values(|x: usize| x as int) == self.spec_starts(inner_w as nat),
            l.gutter_width == self.spec_gutter_width(),
    {
        let l = if self.diff_view {
            self.diff_layout(inner_w)
        } else {
            self.file_layout(inner_w)
        };
        assert(l.starts@.map_values(|x: usize| x as int) =~= self.spec_starts(inner_w as nat));
        l
    }
}


/// From row `end`, the last row of the run that keeps belonging to `line`.
pub open spec fn run_end(rows: Seq<PanelRow>, line: usize, end: int) -> int
    decreases rows.len() - end,
{
    if 0 <= end && end + 1 < rows.len() && rows[end + 1].line == line {
        run_end(rows, line, end + 1)
    } else {
        end
    }
}

/// The last row of source `line`: scan forward from its start while rows keep matching it.
pub open spec fn spec_line_end_row(layout: PanelLayout, line: int) -> Option<int> {
    if 0 <= line < layout.starts@.len() {
        Some(run_end(layout.rows@, line as usize, layout.starts@[line] as int))
    } else {
        None
    }
}

/// The last row belonging to source `line`, scanning forward from its start entry.
pub fn line_end_row(layout: &PanelLayout, line: usize) -> (r: Option<usize>)
    ensures
        r matches Some(e) ==> spec_line_end_row(*layout, line as int) == Some(e as int),
        r is None ==> spec_line_end_row(*layout, line as int) is None,
{
    if line >= layout.starts.len() {
        return None;
    }
    let mut end = layout.starts[line];
    while end < layout.rows.len() && layout.rows.len() - end > 1 && layout.rows[end + 1].line == line
        invariant
            line < layout.starts@.len(),
            run_end(layout.rows@, line, layout.starts@[line as int] as int) == run_end(layout.rows@, line, end as int),
        decreases layout.rows@.len() - end,
    {
        end = end + 1;
    }
    Some(end)
}

/// `a - b`, floored at 0.
pub open spec fn sat(a: int, b: int) -> int {
    if a > b { a - b } else { 0 }
}

impl Panel {
    /// The highlight's first row in `layout` (0 when its line has no start).
    pub open spec fn hl_start(layout: PanelLayout, lo: usize) -> int {
        if (lo as int) < layout.starts@.len() { layout.starts@[lo as int] as int } else { 0 }
    }

    /// The highlight's last row in `layout` (the last row when its line has none).
    pub open spec fn hl_end(layout: PanelLayout, hi: usize) -> int {
        match spec_line_end_row(layout, hi as int) {
            Some(e) => e,
            None => sat(layout.rows@.len() as int, 1),
        }
    }

    /// Rows to scroll off the top: a fresh highlight (cursor still on its last line) is centred,
    /// or top-anchored when taller than the view; otherwise the cursor line's last row stays on
    /// screen.
    pub open spec fn spec_scroll_offset(&self, layout: PanelLayout, view_h: int) -> int {
        let last_row = sat(layout.rows@.len() as int, 1);
        match self.highlight {
            Some((lo, hi)) if self.cursor == hi => {
                let start = Self::hl_start(layout, lo);
                let span = Self::hl_end(layout, hi) - start + 1;
                let margin = sat(view_h, span) / 2;
                let a = sat(start, margin);
                let b = sat(last_row, sat(view_h, 1));
                if a < b { a } else { b }
            },
            _ => {
                let cursor_end = match spec_line_end_row(layout, self.cursor as int) {
                    Some(e) => e,
                    None => last_row,
                };
                sat(cursor_end, sat(view_h, 1))
            },
        }
    }

    /// A fresh highlight's row span in `layout` is well ordered and countable.
    pub open spec fn highlight_span_fits(&self, layout: PanelLayout) -> bool {
        match self.highlight {
            Some((lo, hi)) => self.cursor == hi ==> Self::hl_start(layout, lo) <= Self::hl_end(layout, hi)
                < usize::MAX,
            None => true,
        }
    }

    /// Rows to scroll off the top of `layout` in a `view_h`-row view (see `spec_scroll_offset`).
    pub fn scroll_offset(&self, layout: &PanelLayout, view_h: usize) -> (off: usize)
        requires
            self.highlight_span_fits(*layout),
        ensures
            off as int == self.spec_scroll_offset(*layout, view_h as int),
    {
        let last_row: usize = if layout.rows.len() > 1 { layout.rows.len() - 1 } else { 0 };
        let vh1: usize = if view_h > 1 { view_h - 1 } else { 0 };
        match self.highlight {
            Some((lo, hi)) => {
                if self.cursor == hi {
                    let start: usize = if lo < layout.starts.len() { layout.starts[lo] } else { 0 };
                    let end: usize = match line_end_row(layout, hi) {
                        Some(e) => e,
                        None => last_row,
                    };
                    let span = end - start + 1;
                    let margin: usize = (if view_h > span { view_h - span } else { 0 }) / 2;
                    let a: usize = if start > margin { start - margin } else { 0 };
                    let b: usize = if last_row > vh1 { last_row - vh1 } else { 0 };
                    return if a < b { a } else { b };
                }
            },
            None => {},
        }
        let cursor_end: usize = match line_end_row(layout, self.cursor) {
            Some(e) => e,
            None => last_row,
        };
        if cursor_end > vh1 { cursor_end - vh1 } else { 0 }
    }
}


/// Two rows agree on everything but their spans.
pub open spec fn same_place(a: RowView, b: RowView) -> bool {
    &&& a.line == b.line
    &&& a.gutter == b.gutter
    &&& a.comment == b.comment
    &&& a.change == b.change
    &&& a.review == b.review
    &&& a.nowrap == b.nowrap
}

/// Boxing fenced code touches only spans: every row keeps its line, gutter, caret and flags.
pub proof fn lemma_boxed_keeps_places(rows: Seq<RowView>, i: int)
    ensures
        boxed_from(rows, i).len() == rows.len(),
        forall|j: int| 0 <= j < rows.len() ==> same_place(#[trigger] boxed_from(rows, i)[j], rows[j]),
    decreases rows.len() - i,
{
    if i >= rows.len() || i < 0 {
    } else if rows[i].comment || !fenced(rows[i].spans) {
        lemma_boxed_keeps_places(rows, i + 1);
    } else {
        lemma_fenced_run_bound(rows, i);
        let end = i + fenced_run(rows, i);
        let w = widest(rows, i, end);
        let updated = Seq::new(rows.len(), |j: int| if i <= j < end { box_row(rows[j], w) } else { rows[j] });
        lemma_boxed_keeps_places(updated, end);
        assert forall|j: int| 0 <= j < rows.len() implies same_place(#[trigger] boxed_from(rows, i)[j], rows[j]) by {
            assert(same_place(boxed_from(updated, end)[j], updated[j]));
        }
    }
}

impl Panel {
    /// Every line lays out into at least one row of its own.
    pub proof fn lemma_body_rows_nonempty(&self, i: int, tw: nat)
        requires
            self.wf(),
            0 <= i < self.styled@.len(),
            tw >= 1,
        ensures
            self.body_rows(i, tw).len() >= 1,
    {
        let spans = line_view(self.styled@[i]);
        if !rule_sentinel(spans) && !self.nowrap@[i] {
            let cells = flat(spans);
            let lead = leading_blank_cells(cells);
            crate::wrap::lemma_wrap_rows_fit(
                cells.subrange(0, lead as int),
                span_words(cells.subrange(lead as int, cells.len() as int)),
                tw,
                false,
            );
        }
    }

    proof fn lemma_raw_rows_at(&self, n: int, i: int, inner_w: nat)
        requires
            self.wf(),
            0 <= i < n <= self.styled@.len(),
        ensures
            self.line_start(i, inner_w) < self.raw_rows(n, inner_w).len(),
            self.raw_rows(n, inner_w)[self.line_start(i, inner_w) as int] == self.body_rows(
                i,
                self.spec_text_width(inner_w),
            )[0],
        decreases n,
    {
        let tw = self.spec_text_width(inner_w);
        self.lemma_body_rows_nonempty(i, tw);
        if i < n - 1 {
            self.lemma_raw_rows_at(n - 1, i, inner_w);
        } else {
            let pre = self.raw_rows(i, inner_w);
            let block = self.line_block(i, inner_w);
            assert(block[self.gap_rows(i, tw).len() as int] == self.body_rows(i, tw)[0]);
            assert(self.raw_rows(n, inner_w) == pre + block);
        }
    }

    /// In the file view each line's start entry points at its first own row: that row belongs to
    /// the line, carries its first source line number in the gutter and its review caret, and is
    /// no card or gap row.
    pub proof fn lemma_start_row_is_first_row(&self, i: int, inner_w: nat)
        requires
            self.wf(),
            0 <= i < self.styled@.len(),
        ensures
            self.line_start(i, inner_w) < self.file_rows(inner_w).len(),
            self.file_rows(inner_w)[self.line_start(i, inner_w) as int].line == i,
            self.file_rows(inner_w)[self.line_start(i, inner_w) as int].gutter == Some(
                (self.source@[i].0 + 1) as usize,
            ),
            self.file_rows(inner_w)[self.line_start(i, inner_w) as int].review == self.caret(i),
            !self.file_rows(inner_w)[self.line_start(i, inner_w) as int].comment,
    {
        let n = self.styled@.len() as int;
        assert(self.styled@.len() == self.styled.len());
        let raw = self.raw_rows(n, inner_w);
        self.lemma_raw_rows_at(n, i, inner_w);
        lemma_boxed_keeps_places(raw, 0);
        let x = self.line_start(i, inner_w) as int;
        assert(same_place(boxed_from(raw, 0)[x], raw[x]));
        assert(same_place(cap_row(boxed_from(raw, 0)[x]), boxed_from(raw, 0)[x]));
    }
}

} // verus!
