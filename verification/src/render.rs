//! file→styled: a file's text as styled lines plus the plain-text projection, keyed back to the
//! file's own line numbers.

use vstd::prelude::*;

use crate::style::{line_view, span_view, spans_text, Color, Span, Style, StyledLine};
use crate::text::{chars_equal, chars_of, lines_of, split_lines, starts_with, string_of};

verus! {

/// A rendered file: plain-text `content` plus styled lines, all 1:1 by line.
pub struct Rendered {
    pub content: String,
    pub styled: Vec<StyledLine>,
    /// Per-line: pre-formatted (clip + h-scroll) vs prose (word-wrap), 1:1 with `styled`.
    pub nowrap: Vec<bool>,
    /// 0-based inclusive source-line range each `styled` row came from.
    pub source: Vec<(usize, usize)>,
    /// Raw file split into lines — diff-view's `+`/`-` source.
    pub source_lines: Vec<String>,
    /// Terse read error, set only when the file couldn't be read.
    pub error: Option<String>,
}

/// The styled lines as plain values.
pub open spec fn styled_view(v: Seq<StyledLine>) -> Seq<Seq<(Seq<char>, Style)>> {
    v.map_values(|l: StyledLine| line_view(l))
}

/// The strings as character sequences.
pub open spec fn strings_view(v: Seq<String>) -> Seq<Seq<char>> {
    v.map_values(|s: String| s@)
}

/// The identity source map `(i, i)` for `i < n`.
pub open spec fn identity_map(n: nat) -> Seq<(usize, usize)> {
    Seq::new(n, |i: int| (i as usize, i as usize))
}

/// Identity map for a verbatim file: row `i` is source line `i`, and the source lines are
/// `content`'s lines.
pub fn identity_source(content: &str, n: usize) -> (r: (Vec<(usize, usize)>, Vec<String>))
    ensures
        r.0@ == identity_map(n as nat),
        strings_view(r.1@) == lines_of(content@),
{
    let mut map: Vec<(usize, usize)> = Vec::new();
    let mut i: usize = 0;
    while i < n
        invariant
            i <= n,
            map@ == identity_map(i as nat),
        decreases n - i,
    {
        map.push((i, i));
        i = i + 1;
        assert(map@ =~= identity_map(i as nat));
    }
    (map, line_strings(content))
}

/// The lines of `text` as strings.
pub fn line_strings(text: &str) -> (v: Vec<String>)
    ensures
        strings_view(v@) == lines_of(text@),
{
    let chars = chars_of(text);
    let lines = split_lines(chars.as_slice());
    let mut v: Vec<String> = Vec::new();
    let mut i: usize = 0;
    while i < lines.len()
        invariant
            i <= lines@.len(),
            v@.len() == i,
            forall|j: int| 0 <= j < i ==> #[trigger] v@[j]@ == lines@[j]@,
        decreases lines@.len() - i,
    {
        v.push(string_of(lines[i].as_slice()));
        i = i + 1;
    }
    assert(strings_view(v@) =~= lines@.map_values(|l: Vec<char>| l@));
    v
}

/// A line holding the one span `text` in `style`.
pub open spec fn single_span(text: Seq<char>, style: Style) -> Seq<(Seq<char>, Style)> {
    seq![(text, style)]
}

pub(crate) fn single_line(text: &[char], style: Style) -> (l: StyledLine)
    ensures
        line_view(l) == single_span(text@, style),
{
    let mut spans: Vec<Span> = Vec::new();
    spans.push(Span::styled(string_of(text), style));
    let l = StyledLine { spans };
    assert(line_view(l) =~= single_span(text@, style));
    l
}

/// Already-plain text: each line one unstyled span, all prose, identity source map.
pub open spec fn plain_rendering(content: Seq<char>) -> (
    Seq<Seq<(Seq<char>, Style)>>,
    Seq<bool>,
    Seq<(usize, usize)>,
    Seq<Seq<char>>,
) {
    let ls = lines_of(content);
    (
        Seq::new(ls.len(), |i: int| single_span(ls[i], Style::spec_plain())),
        Seq::new(ls.len(), |i: int| false),
        identity_map(ls.len()),
        ls,
    )
}

/// `r` is the given rendering of `content` with no read error.
pub open spec fn renders_as(
    r: Rendered,
    content: Seq<char>,
    parts: (Seq<Seq<(Seq<char>, Style)>>, Seq<bool>, Seq<(usize, usize)>, Seq<Seq<char>>),
) -> bool {
    &&& r.content@ == content
    &&& styled_view(r.styled@) == parts.0
    &&& r.nowrap@ == parts.1
    &&& r.source@ == parts.2
    &&& strings_view(r.source_lines@) == parts.3
    &&& r.error is None
}

/// Already-plain text as unstyled, unindented lines (1:1 with `content`'s lines).
pub fn plain(content: String) -> (r: Rendered)
    ensures
        renders_as(r, content@, plain_rendering(content@)),
{
    let chars = chars_of(content.as_str());
    let lines = split_lines(chars.as_slice());
    let ghost ls = lines_of(content@);
    let mut styled: Vec<StyledLine> = Vec::new();
    let mut nowrap: Vec<bool> = Vec::new();
    let mut i: usize = 0;
    while i < lines.len()
        invariant
            i <= lines@.len(),
            ls == lines@.map_values(|l: Vec<char>| l@),
            styled@.len() == i,
            nowrap@.len() == i,
            forall|j: int| 0 <= j < i ==> line_view(#[trigger] styled@[j]) == single_span(ls[j], Style::spec_plain()),
            forall|j: int| 0 <= j < i ==> #[trigger] nowrap@[j] == false,
        decreases lines@.len() - i,
    {
        styled.push(single_line(lines[i].as_slice(), Style::plain()));
        nowrap.push(false);
        i = i + 1;
    }
    let (source, source_lines) = identity_source(content.as_str(), styled.len());
    let r = Rendered { content, styled, nowrap, source, source_lines, error: None };
    assert(styled_view(r.styled@) =~= plain_rendering(content@).0);
    assert(r.nowrap@ =~= plain_rendering(content@).1);
    r
}

/// The colour a unified-diff line gets by its prefix: file headers (`+++`, `---`, `diff `,
/// `index `) dim gray, hunk headers (`@@`) blue, additions green, removals red, else none.
pub open spec fn diff_line_color(l: Seq<char>) -> Option<Color> {
    if starts_with(l, seq!['+', '+', '+']) || starts_with(l, seq!['-', '-', '-']) || starts_with(
        l,
        seq!['d', 'i', 'f', 'f', ' '],
    ) || starts_with(l, seq!['i', 'n', 'd', 'e', 'x', ' ']) {
        Some(Color::Rgb(120, 120, 120))
    } else if starts_with(l, seq!['@', '@']) {
        Some(Color::Rgb(129, 161, 193))
    } else if starts_with(l, seq!['+']) {
        Some(Color::Rgb(163, 190, 140))
    } else if starts_with(l, seq!['-']) {
        Some(Color::Rgb(191, 97, 106))
    } else {
        None
    }
}

/// One diff line as a single span coloured by `diff_line_color`.
pub open spec fn diff_line_spans(l: Seq<char>) -> Seq<(Seq<char>, Style)> {
    single_span(
        l,
        match diff_line_color(l) {
            Some(c) => Style::spec_fg(c),
            None => Style::spec_plain(),
        },
    )
}

/// A unified diff: each line one span coloured by `diff_line_color`, all pre-formatted,
/// identity source map.
pub open spec fn diff_rendering(raw: Seq<char>) -> (
    Seq<Seq<(Seq<char>, Style)>>,
    Seq<bool>,
    Seq<(usize, usize)>,
    Seq<Seq<char>>,
) {
    let ls = lines_of(raw);
    (
        Seq::new(ls.len(), |i: int| diff_line_spans(ls[i])),
        Seq::new(ls.len(), |i: int| true),
        identity_map(ls.len()),
        ls,
    )
}

fn has_prefix(l: &[char], p: &[char]) -> (b: bool)
    ensures
        b == starts_with(l@, p@),
{
    if p.len() > l.len() {
        return false;
    }
    let mut i: usize = 0;
    while i < p.len()
        invariant
            i <= p@.len() <= l@.len(),
            forall|j: int| 0 <= j < i ==> l@[j] == p@[j],
        decreases p@.len() - i,
    {
        if l[i] != p[i] {
            assert(l@.subrange(0, p@.len() as int)[i as int] != p@[i as int]);
            return false;
        }
        i = i + 1;
    }
    assert(l@.subrange(0, p@.len() as int) =~= p@);
    true
}

fn diff_color(l: &[char]) -> (c: Option<Color>)
    ensures
        c == diff_line_color(l@),
{
    let p3 = ['+', '+', '+'];
    let m3 = ['-', '-', '-'];
    let dg = ['d', 'i', 'f', 'f', ' '];
    let ix = ['i', 'n', 'd', 'e', 'x', ' '];
    let at = ['@', '@'];
    let pl = ['+'];
    let mi = ['-'];
    assert(p3@ =~= seq!['+', '+', '+']);
    assert(m3@ =~= seq!['-', '-', '-']);
    assert(dg@ =~= seq!['d', 'i', 'f', 'f', ' ']);
    assert(ix@ =~= seq!['i', 'n', 'd', 'e', 'x', ' ']);
    assert(at@ =~= seq!['@', '@']);
    assert(pl@ =~= seq!['+']);
    assert(mi@ =~= seq!['-']);
    if has_prefix(l, &p3) || has_prefix(l, &m3) || has_prefix(l, &dg) || has_prefix(l, &ix) {
        Some(Color::Rgb(120, 120, 120))
    } else if has_prefix(l, &at) {
        Some(Color::Rgb(129, 161, 193))
    } else if has_prefix(l, &pl) {
        Some(Color::Rgb(163, 190, 140))
    } else if has_prefix(l, &mi) {
        Some(Color::Rgb(191, 97, 106))
    } else {
        None
    }
}

/// Colour a unified diff by line prefix (see `diff_rendering`); `content` stays verbatim.
pub fn render_diff(raw: &str) -> (r: Rendered)
    ensures
        renders_as(r, raw@, diff_rendering(raw@)),
{
    let chars = chars_of(raw);
    let lines = split_lines(chars.as_slice());
    let ghost ls = lines_of(raw@);
    let mut styled: Vec<StyledLine> = Vec::new();
    let mut nowrap: Vec<bool> = Vec::new();
    let mut i: usize = 0;
    while i < lines.len()
        invariant
            i <= lines@.len(),
            ls == lines@.map_values(|l: Vec<char>| l@),
            styled@.len() == i,
            nowrap@.len() == i,
            forall|j: int| 0 <= j < i ==> line_view(#[trigger] styled@[j]) == diff_line_spans(ls[j]),
            forall|j: int| 0 <= j < i ==> #[trigger] nowrap@[j] == true,
        decreases lines@.len() - i,
    {
        let c = diff_color(lines[i].as_slice());
        let style = match c {
            Some(c) => Style::fg(c),
            None => Style::plain(),
        };
        proof {
            assert(lines@[i as int]@ == ls[i as int]);
            assert(ls.len() == lines@.len());
        }
        let l = single_line(lines[i].as_slice(), style);
        assert(line_view(l) == diff_line_spans(ls[i as int]));
        styled.push(l);
        nowrap.push(true);
        i = i + 1;
    }
    let (source, source_lines) = identity_source(raw, styled.len());
    let r = Rendered {
        content: String::from_str(raw),
        styled,
        nowrap,
        source,
        source_lines,
        error: None,
    };
    assert(styled_view(r.styled@) =~= diff_rendering(raw@).0);
    assert(r.nowrap@ =~= diff_rendering(raw@).1);
    r
}

/// A line's plain text (spans concatenated, styling dropped).
pub fn line_text(line: &StyledLine) -> (s: Vec<char>)
    ensures
        s@ == spans_text(line_view(*line)),
{
    let mut out: Vec<char> = Vec::new();
    let mut i: usize = 0;
    while i < line.spans.len()
        invariant
            i <= line.spans@.len(),
            out@ == spans_text(line_view(*line).subrange(0, i as int)),
        decreases line.spans@.len() - i,
    {
        let c = chars_of(line.spans[i].content.as_str());
        crate::text::push_chars(&mut out, c.as_slice());
        proof {
            assert(line_view(*line).subrange(0, i + 1).drop_last() =~= line_view(*line).subrange(0, i as int));
        }
        i = i + 1;
    }
    assert(line_view(*line).subrange(0, line.spans@.len() as int) =~= line_view(*line));
    out
}

/// The source range for rendered table row `k` of `n` from a table spanning source lines
/// `l0..=l1` (header, separator, data): the top border and header fold to the header line, the
/// separator keeps its own, the bottom border folds to the last data line, data rows map 1:1;
/// when the row count doesn't match that shape, every row gets the whole block.
pub open spec fn table_row_range(k: nat, n: nat, l0: nat, l1: nat) -> (nat, nat) {
    let data_rows: int = if l1 >= l0 + 1 { l1 - (l0 + 1) } else { 0 };
    if n != data_rows + 4 {
        (l0, l1)
    } else if k <= 1 {
        (l0, l0)
    } else if k == 2 {
        ((l0 + 1) as nat, (l0 + 1) as nat)
    } else if k == n - 1 {
        (l1, l1)
    } else {
        ((l0 + k - 1) as nat, (l0 + k - 1) as nat)
    }
}

/// See `table_row_range`.
pub fn table_range(k: usize, n: usize, l0: usize, l1: usize) -> (r: (usize, usize))
    requires
        l0 < usize::MAX,
        k < n,
    ensures
        r.0 == table_row_range(k as nat, n as nat, l0 as nat, l1 as nat).0,
        r.1 == table_row_range(k as nat, n as nat, l0 as nat, l1 as nat).1,
{
    let data_rows: usize = if l1 >= l0 + 1 { l1 - (l0 + 1) } else { 0 };
    if data_rows > usize::MAX - 4 || n != data_rows + 4 {
        return (l0, l1);
    }
    if k <= 1 {
        (l0, l0)
    } else if k == 2 {
        (l0 + 1, l0 + 1)
    } else if k == n - 1 {
        (l1, l1)
    } else {
        (l0 + (k - 1), l0 + (k - 1))
    }
}

/// How a file is rendered, by its extension.
#[derive(Debug, Clone, PartialEq, Eq)]
pub enum FileKind {
    /// `.md` and `.markdown`: rendered markdown.
    Markdown,
    /// `.diff` and `.patch`: a unified diff coloured by line prefix.
    Diff,
    /// Anything else: highlighted as the language of this (lower-cased) extension, if one is known.
    Code(String),
}

/// The ASCII lower case of `c`.
pub open spec fn ascii_lower(c: char) -> char {
    if 'A' <= c && c <= 'Z' { ((c as int) + 32) as char } else { c }
}

/// What follows the last `.` of `p`; all of `p` when it has none.
pub open spec fn after_last_dot(p: Seq<char>) -> Seq<char>
    decreases p.len(),
{
    if p.len() == 0 {
        p
    } else if p.last() == '.' {
        seq![]
    } else {
        after_last_dot(p.drop_last()).push(p.last())
    }
}

/// The lower-cased extension of `path` (see `after_last_dot`).
pub open spec fn extension(path: Seq<char>) -> Seq<char> {
    after_last_dot(path).map_values(|c: char| ascii_lower(c))
}

/// `md`/`markdown` are markdown, `diff`/`patch` a diff, any other extension code.
pub open spec fn kind_of(path: Seq<char>) -> FileKind {
    let e = extension(path);
    if e == seq!['m', 'd'] || e == seq!['m', 'a', 'r', 'k', 'd', 'o', 'w', 'n'] {
        FileKind::Markdown
    } else if e == seq!['d', 'i', 'f', 'f'] || e == seq!['p', 'a', 't', 'c', 'h'] {
        FileKind::Diff
    } else {
        FileKind::Code(arbitrary())
    }
}

/// How `path` is rendered (see `kind_of`); code carries the lower-cased extension.
pub fn file_kind(path: &str) -> (k: FileKind)
    ensures
        match k {
            FileKind::Code(e) => kind_of(path@) is Code && e@ == extension(path@),
            _ => k == kind_of(path@),
        },
{
    let p = chars_of(path);
    let mut start: usize = p.len();
    assert(p@.subrange(0, start as int) =~= p@);
    assert(after_last_dot(p@) =~= after_last_dot(p@.subrange(0, start as int)) + p@.subrange(
        start as int,
        p@.len() as int,
    ));
    while start > 0 && p[start - 1] != '.'
        invariant
            start <= p@.len(),
            after_last_dot(p@) == after_last_dot(p@.subrange(0, start as int)) + p@.subrange(
                start as int,
                p@.len() as int,
            ),
        decreases start,
    {
        proof {
            let q = p@.subrange(0, start as int);
            assert(q.drop_last() =~= p@.subrange(0, start - 1));
            assert(p@.subrange(start - 1, p@.len() as int) =~= seq![q.last()] + p@.subrange(
                start as int,
                p@.len() as int,
            ));
        }
        start = start - 1;
    }
    proof {
        let q = p@.subrange(0, start as int);
        if start > 0 {
            assert(q.last() == '.');
        } else {
            assert(q =~= Seq::<char>::empty());
        }
    }
    let mut e: Vec<char> = Vec::new();
    let mut i = start;
    while i < p.len()
        invariant
            start <= i <= p@.len(),
            e@ == p@.subrange(start as int, i as int).map_values(|c: char| ascii_lower(c)),
        decreases p@.len() - i,
    {
        let c = p[i];
        let l = if 'A' <= c && c <= 'Z' { ((c as u32) + 32) as u8 as char } else { c };
        e.push(l);
        i = i + 1;
        assert(e@ =~= p@.subrange(start as int, i as int).map_values(|c: char| ascii_lower(c)));
    }
    let ghost ext = extension(path@);
    assert(e@ =~= ext);
    let md = chars_of("md");
    let markdown = chars_of("markdown");
    let diff = chars_of("diff");
    let patch = chars_of("patch");
    proof {
        reveal_strlit("md");
        reveal_strlit("markdown");
        reveal_strlit("diff");
        reveal_strlit("patch");
        assert(md@ == seq!['m', 'd']);
        assert(markdown@ == seq!['m', 'a', 'r', 'k', 'd', 'o', 'w', 'n']);
        assert(diff@ == seq!['d', 'i', 'f', 'f']);
        assert(patch@ == seq!['p', 'a', 't', 'c', 'h']);
    }
    if chars_equal(e.as_slice(), md.as_slice()) || chars_equal(e.as_slice(), markdown.as_slice()) {
        FileKind::Markdown
    } else if chars_equal(e.as_slice(), diff.as_slice()) || chars_equal(e.as_slice(), patch.as_slice()) {
        FileKind::Diff
    } else {
        FileKind::Code(string_of(e.as_slice()))
    }
}

} // verus!
