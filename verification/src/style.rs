//! Styled text as plain values: a colour, a style, a span of text in one style, a line of spans.

use vstd::prelude::*;

verus! {

/// A terminal colour.
#[derive(Debug, Clone, Copy, PartialEq, Eq, Structural)]
pub enum Color {
    Reset,
    Black,
    Red,
    Green,
    Yellow,
    Blue,
    Magenta,
    Cyan,
    Gray,
    DarkGray,
    LightRed,
    LightGreen,
    LightYellow,
    LightBlue,
    LightMagenta,
    LightCyan,
    White,
    Rgb(u8, u8, u8),
    Indexed(u8),
}

/// Text modifiers (bold, dim, italic, reversed …) as a bit set.
pub const MOD_BOLD: u16 = 0x0001;
pub const MOD_DIM: u16 = 0x0002;
pub const MOD_ITALIC: u16 = 0x0004;
pub const MOD_REVERSED: u16 = 0x0040;

/// How a run of text is drawn.
#[derive(Debug, Clone, Copy, PartialEq, Eq, Structural)]
pub struct Style {
    pub fg: Option<Color>,
    pub bg: Option<Color>,
    pub underline_color: Option<Color>,
    /// Modifiers to add.
    pub add_modifier: u16,
    /// Modifiers to remove.
    pub sub_modifier: u16,
}

impl Style {
    /// The style that changes nothing.
    pub open spec fn spec_plain() -> Style {
        Style { fg: None, bg: None, underline_color: None, add_modifier: 0, sub_modifier: 0 }
    }

    /// The style that adds the modifiers `m` and changes nothing else.
    pub open spec fn spec_modified(m: u16) -> Style {
        Style { fg: None, bg: None, underline_color: None, add_modifier: m, sub_modifier: 0 }
    }

    /// The style that adds the modifiers `m` and changes nothing else.
    pub fn modified(m: u16) -> (s: Style)
        ensures
            s == Style::spec_modified(m),
    {
        Style { fg: None, bg: None, underline_color: None, add_modifier: m, sub_modifier: 0 }
    }

    /// The style that changes nothing.
    pub fn plain() -> (s: Style)
        ensures
            s == Style::spec_plain(),
    {
        Style { fg: None, bg: None, underline_color: None, add_modifier: 0, sub_modifier: 0 }
    }

    /// Plain text in foreground colour `c`.
    pub open spec fn spec_fg(c: Color) -> Style {
        Style { fg: Some(c), ..Style::spec_plain() }
    }

    /// Plain text in foreground colour `c`.
    pub fn fg(c: Color) -> (s: Style)
        ensures
            s == Style::spec_fg(c),
    {
        Style { fg: Some(c), bg: None, underline_color: None, add_modifier: 0, sub_modifier: 0 }
    }
}

/// A run of text in one style.
#[derive(Debug, Clone, PartialEq, Eq)]
pub struct Span {
    pub content: String,
    pub style: Style,
}

/// A span as plain values: its characters and its style.
pub open spec fn span_view(s: Span) -> (Seq<char>, Style) {
    (s.content@, s.style)
}

impl Span {
    /// `content` in `style`.
    pub fn styled(content: String, style: Style) -> (s: Span)
        ensures
            s.content@ == content@,
            s.style == style,
    {
        Span { content, style }
    }

    /// `content` in the plain style.
    pub fn raw(content: String) -> (s: Span)
        ensures
            s.content@ == content@,
            s.style == Style::spec_plain(),
    {
        Span { content, style: Style::plain() }
    }
}

/// A line of styled spans.
#[derive(Debug, Clone, PartialEq, Eq)]
pub struct StyledLine {
    pub spans: Vec<Span>,
}

/// A line's spans as plain values.
pub open spec fn line_view(l: StyledLine) -> Seq<(Seq<char>, Style)> {
    l.spans@.map_values(|s: Span| span_view(s))
}

/// The characters of a run of spans, concatenated.
pub open spec fn spans_text(spans: Seq<(Seq<char>, Style)>) -> Seq<char>
    decreases spans.len(),
{
    if spans.len() == 0 {
        seq![]
    } else {
        spans_text(spans.drop_last()) + spans.last().0
    }
}

/// A copy of a span with the same text and style.
pub fn copy_span(s: &Span) -> (r: Span)
    ensures
        r.content@ == s.content@,
        r.style == s.style,
{
    Span { content: s.content.clone(), style: s.style }
}

/// A copy of a list of spans, span for span.
pub fn copy_spans(v: &Vec<Span>) -> (r: Vec<Span>)
    ensures
        r@.map_values(|s: Span| span_view(s)) == v@.map_values(|s: Span| span_view(s)),
{
    let mut r: Vec<Span> = Vec::new();
    let mut i: usize = 0;
    while i < v.len()
        invariant
            i <= v@.len(),
            r@.len() == i,
            forall|j: int| 0 <= j < i ==> span_view(#[trigger] r@[j]) == span_view(v@[j]),
        decreases v@.len() - i,
    {
        r.push(copy_span(&v[i]));
        i = i + 1;
    }
    assert(r@.map_values(|s: Span| span_view(s)) =~= v@.map_values(|s: Span| span_view(s)));
    r
}

} // verus!
