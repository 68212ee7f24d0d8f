//! Source files in a language syntect knows: each line is highlighted, each token keeps only its
//! foreground colour, and the lines are pre-formatted rows keyed 1:1 to the file's lines.

use syntect::easy::HighlightLines;
use syntect::highlighting::{Theme, ThemeSet};
use syntect::parsing::{SyntaxReference, SyntaxSet};
use vstd::prelude::*;

use crate::render::{identity_map, identity_source, plain, plain_rendering, renders_as, Rendered, styled_view};
use crate::style::{line_view, span_view, Color, Span, Style, StyledLine};
use crate::text::{chars_equal, chars_of, line_pieces, lines_of, split_keep_endings, string_of};

verus! {

#[verifier::external_type_specification]
#[verifier::external_body]
pub struct ExSyntaxSet(SyntaxSet);

#[verifier::external_type_specification]
#[verifier::external_body]
pub struct ExSyntaxReference(SyntaxReference);

#[verifier::external_type_specification]
#[verifier::external_body]
pub struct ExTheme(Theme);

#[verifier::external_type_specification]
#[verifier::external_body]
pub struct ExHighlightLines<'a>(HighlightLines<'a>);

#[verifier::external_type_specification]
#[verifier::external_body]
pub struct ExThemeSet(ThemeSet);

/// syntect's bundled syntax definitions (the newline-terminated variant, matching lines that keep
/// their endings) and its bundled themes. They are only ever the bundled ones: the fields are
/// private and `bundled` is the one constructor.
pub struct Highlighting {
    syntaxes: SyntaxSet,
    themes: ThemeSet,
}

impl Highlighting {
    /// Load syntect's bundled syntaxes and themes.
    pub fn bundled() -> Highlighting {
        Highlighting { syntaxes: load_syntaxes(), themes: load_themes() }
    }
}

/// A highlighter partway through a file: syntect's highlighter for the bundled syntax of `ext` in
/// the bundled theme named `theme`, the set that syntax was found in, and the lines it has been
/// given so far (`fed`). Only `render_code` builds and advances one, and it keeps `fed` equal to
/// the lines it handed over.
pub struct Highlighter<'a> {
    lines: HighlightLines<'a>,
    set: &'a SyntaxSet,
    ext: String,
    theme: String,
    fed: Vec<String>,
}

/// One highlighted token: its foreground colour and its text.
pub struct Token {
    pub fg: Color,
    pub text: String,
}

/// A token as plain values.
pub open spec fn token_view(t: Token) -> (Color, Seq<char>) {
    (t.fg, t.text@)
}

/// The tokens of each line as plain values.
pub open spec fn lines_view(v: Seq<Vec<Token>>) -> Seq<Seq<(Color, Seq<char>)>> {
    v.map_values(|l: Vec<Token>| l@.map_values(|t: Token| token_view(t)))
}

/// The tokens' texts, in order, run together.
pub open spec fn token_text(ts: Seq<(Color, Seq<char>)>) -> Seq<char>
    decreases ts.len(),
{
    if ts.len() == 0 {
        seq![]
    } else {
        token_text(ts.drop_last()) + ts.last().1
    }
}

/// `t` without the `'\n'` and `'\r'` characters at its end.
pub open spec fn trim_newlines(t: Seq<char>) -> Seq<char>
    decreases t.len(),
{
    if t.len() > 0 && (t.last() == '\n' || t.last() == '\r') {
        trim_newlines(t.drop_last())
    } else {
        t
    }
}

/// A highlighted line's spans: each token's text without its line ending, in its foreground
/// colour; tokens left empty are dropped.
pub open spec fn code_spans(ts: Seq<(Color, Seq<char>)>) -> Seq<(Seq<char>, Style)>
    decreases ts.len(),
{
    if ts.len() == 0 {
        seq![]
    } else {
        let rest = code_spans(ts.drop_last());
        let t = trim_newlines(ts.last().1);
        if t.len() > 0 {
            rest.push((t, Style::spec_fg(ts.last().0)))
        } else {
            rest
        }
    }
}

/// Highlighted code: one row of `code_spans` per line, all pre-formatted, identity source map.
pub open spec fn code_rendering(raw: Seq<char>, toks: Seq<Seq<(Color, Seq<char>)>>) -> (
    Seq<Seq<(Seq<char>, Style)>>,
    Seq<bool>,
    Seq<(usize, usize)>,
    Seq<Seq<char>>,
) {
    (
        Seq::new(toks.len(), |i: int| code_spans(toks[i])),
        Seq::new(toks.len(), |i: int| true),
        identity_map(toks.len()),
        lines_of(raw),
    )
}

/// Each line's tokens run together give that line back.
pub open spec fn covers(toks: Seq<Seq<(Color, Seq<char>)>>, pieces: Seq<Seq<char>>) -> bool {
    &&& toks.len() == pieces.len()
    &&& forall|i: int| 0 <= i < toks.len() ==> token_text(#[trigger] toks[i]) == pieces[i]
}

/// The name syntect gives plain text.
pub open spec fn plain_text_name() -> Seq<char> {
    seq!['P', 'l', 'a', 'i', 'n', ' ', 'T', 'e', 'x', 't']
}

/// The name of the syntax syntect's bundled set picks for extension `ext`
/// (`find_syntax_by_extension`), or `None` when it has none.
pub uninterp spec fn syntax_for(ext: Seq<char>) -> Option<Seq<char>>;

/// Whether syntect's bundled theme set holds a theme named `name`.
pub uninterp spec fn theme_known(name: Seq<char>) -> bool;

/// The tokens syntect gives `line` (each with its foreground colour) when the bundled syntax for
/// `ext`, in the bundled theme `theme`, has already highlighted the lines `before` in order; or
/// `None` when syntect reports an error on it.
pub uninterp spec fn line_tokens(ext: Seq<char>, theme: Seq<char>, before: Seq<Seq<char>>, line: Seq<char>) -> Option<
    Seq<(Color, Seq<char>)>,
>;

/// The tokens of the first `n` of `lines`, highlighted in order from the start of the file, or
/// `None` when syntect fails on one of them.
pub open spec fn tokens_upto(ext: Seq<char>, theme: Seq<char>, lines: Seq<Seq<char>>, n: nat) -> Option<
    Seq<Seq<(Color, Seq<char>)>>,
>
    decreases n,
{
    if n == 0 {
        Some(seq![])
    } else {
        match tokens_upto(ext, theme, lines, (n - 1) as nat) {
            None => None,
            Some(t) => match line_tokens(ext, theme, lines.take(n - 1), lines[n - 1]) {
                None => None,
                Some(x) => Some(t.push(x)),
            },
        }
    }
}

/// The tokens of every line of `lines`, or `None` when syntect fails on one.
pub open spec fn file_tokens(ext: Seq<char>, theme: Seq<char>, lines: Seq<Seq<char>>) -> Option<
    Seq<Seq<(Color, Seq<char>)>>,
> {
    tokens_upto(ext, theme, lines, lines.len())
}

/// Whether a file with extension `ext` stays plain text in theme `theme`: syntect has no syntax
/// for it, or only plain text, or the theme is unknown, or highlighting fails on a line.
pub open spec fn stays_plain(raw: Seq<char>, ext: Seq<char>, theme: Seq<char>) -> bool {
    ||| syntax_for(ext) is None
    ||| syntax_for(ext) == Some(plain_text_name())
    ||| !theme_known(theme)
    ||| file_tokens(ext, theme, line_pieces(raw)) is None
}

/// `SyntaxSet::load_defaults_newlines`: the bundled syntaxes, decoded from the dump syntect
/// embeds at build time. Nothing is claimed of the set.
#[verifier::external_body]
fn load_syntaxes() -> SyntaxSet {
    SyntaxSet::load_defaults_newlines()
}

/// `ThemeSet::load_defaults`: the bundled themes, decoded from the dump syntect embeds at build
/// time. Nothing is claimed of the set.
#[verifier::external_body]
fn load_themes() -> ThemeSet {
    ThemeSet::load_defaults()
}

/// `SyntaxSet::find_syntax_by_extension` on the bundled set, with the found syntax's `name`:
/// `syntax_for(ext)`.
#[verifier::external_body]
fn find_syntax<'a>(hl: &'a Highlighting, ext: &str) -> (r: Option<(&'a SyntaxReference, String)>)
    ensures
        r is None <==> syntax_for(ext@) is None,
        r matches Some(p) ==> syntax_for(ext@) == Some(p.1@),
{
    hl.syntaxes.find_syntax_by_extension(ext).map(|s| (s, s.name.clone()))
}

/// The bundled theme named `name` (`BTreeMap::get` on `ThemeSet::themes`): `Some` exactly when
/// `theme_known(name)`.
#[verifier::external_body]
fn find_theme<'a>(hl: &'a Highlighting, name: &str) -> (r: Option<&'a Theme>)
    ensures
        r is Some <==> theme_known(name@),
{
    hl.themes.themes.get(name)
}

/// `HighlightLines::new`: a highlighter for `syntax` in `theme`, at the start of a file.
#[verifier::external_body]
fn highlighter<'a>(syntax: &SyntaxReference, theme: &'a Theme) -> HighlightLines<'a> {
    HighlightLines::new(syntax, theme)
}

/// `HighlightLines::highlight_line` on the highlighter's own syntax set: the next line's tokens,
/// each with its style's foreground colour, or nothing when syntect reports an error; that is
/// `line_tokens` of the highlighter's extension and theme after the lines it was given. Its
/// documentation promises that the tokens' texts run together give the line back. The
/// highlighter's extension, theme and fed lines are left as they were (`render_code` records the
/// line). syntect panics on a set whose regexes do not compile or whose context references do not
/// resolve; a `Highlighter` only ever holds the bundled set (whose regexes syntect tested and
/// whose references it linked when it built the dump) and a syntax found in that same set, so no
/// such set reaches the call.
#[verifier::external_body]
fn highlight_line(h: &mut Highlighter, line: &str) -> (r: Option<Vec<Token>>)
    ensures
        final(h).ext == old(h).ext,
        final(h).theme == old(h).theme,
        final(h).fed == old(h).fed,
        (match r {
            None => line_tokens(old(h).ext@, old(h).theme@, old(h).fed@.map_values(|l: String| l@), line@) is None,
            Some(v) => line_tokens(old(h).ext@, old(h).theme@, old(h).fed@.map_values(|l: String| l@), line@)
                == Some(v@.map_values(|t: Token| token_view(t))),
        }),
        r matches Some(v) ==> token_text(v@.map_values(|t: Token| token_view(t))) == line@,
{
    match h.lines.highlight_line(line, h.set) {
        Ok(v) => Some(
            v.into_iter().map(|(st, text)| Token {
                fg: Color::Rgb(st.foreground.r, st.foreground.g, st.foreground.b),
                text: text.to_string(),
            }).collect(),
        ),
        Err(_) => None,
    }
}

/// `t` without its trailing `'\n'` and `'\r'` characters.
fn trim_newlines_chars(t: &str) -> (r: Vec<char>)
    ensures
        r@ == trim_newlines(t@),
{
    let mut v = chars_of(t);
    let ghost full = v@;
    while v.len() > 0 && (v[v.len() - 1] == '\n' || v[v.len() - 1] == '\r')
        invariant
            trim_newlines(full) == trim_newlines(v@),
        decreases v@.len(),
    {
        v.pop();
    }
    v
}

/// A highlighted line's spans (see `code_spans`).
pub fn code_line(tokens: &Vec<Token>) -> (l: StyledLine)
    ensures
        line_view(l) == code_spans(tokens@.map_values(|t: Token| token_view(t))),
{
    let ghost ts = tokens@.map_values(|t: Token| token_view(t));
    let mut spans: Vec<Span> = Vec::new();
    let mut i: usize = 0;
    while i < tokens.len()
        invariant
            i <= tokens@.len(),
            ts == tokens@.map_values(|t: Token| token_view(t)),
            spans@.map_values(|s: Span| span_view(s)) == code_spans(ts.take(i as int)),
        decreases tokens@.len() - i,
    {
        let t = trim_newlines_chars(tokens[i].text.as_str());
        proof {
            assert(ts.take(i + 1).drop_last() =~= ts.take(i as int));
        }
        if t.len() > 0 {
            let ghost before = spans@;
            spans.push(Span::styled(string_of(t.as_slice()), Style::fg(tokens[i].fg)));
            assert(spans@.map_values(|s: Span| span_view(s)) =~= before.map_values(
                |s: Span| span_view(s),
            ).push(span_view(spans@.last())));
        }
        i = i + 1;
    }
    assert(ts.take(tokens@.len() as int) =~= ts);
    let l = StyledLine { spans };
    l
}

/// The rendering of `raw` from each line's tokens (see `code_rendering`).
pub fn highlighted(raw: &str, lines: &Vec<Vec<Token>>) -> (r: Rendered)
    ensures
        renders_as(r, raw@, code_rendering(raw@, lines_view(lines@))),
{
    let ghost toks = lines_view(lines@);
    let mut styled: Vec<StyledLine> = Vec::new();
    let mut nowrap: Vec<bool> = Vec::new();
    let mut i: usize = 0;
    while i < lines.len()
        invariant
            i <= lines@.len(),
            toks == lines_view(lines@),
            styled@.len() == i,
            nowrap@.len() == i,
            forall|j: int| 0 <= j < i ==> line_view(#[trigger] styled@[j]) == code_spans(toks[j]),
            forall|j: int| 0 <= j < i ==> #[trigger] nowrap@[j] == true,
        decreases lines@.len() - i,
    {
        styled.push(code_line(&lines[i]));
        nowrap.push(true);
        i = i + 1;
    }
    let (source, source_lines) = identity_source(raw, styled.len());
    let content = string_of(chars_of(raw).as_slice());
    let r = Rendered { content, styled, nowrap, source, source_lines, error: None };
    assert(styled_view(r.styled@) =~= code_rendering(raw@, toks).0);
    assert(r.nowrap@ =~= code_rendering(raw@, toks).1);
    r
}

/// Highlight `raw` as the language of extension `ext` in the bundled theme `theme`: the file stays
/// plain text when syntect has no syntax for it, or only plain text, or the theme is unknown, or
/// highlighting fails on a line (`stays_plain`); otherwise each line is rendered from the tokens
/// syntect gives it (`file_tokens`), which run together to the line.
pub fn render_code(raw: &str, ext: &str, hl: &Highlighting, theme: &str) -> (r: Rendered)
    ensures
        stays_plain(raw@, ext@, theme@) ==> renders_as(r, raw@, plain_rendering(raw@)),
        !stays_plain(raw@, ext@, theme@) ==> renders_as(
            r,
            raw@,
            code_rendering(raw@, file_tokens(ext@, theme@, line_pieces(raw@))->0),
        ) && covers(file_tokens(ext@, theme@, line_pieces(raw@))->0, line_pieces(raw@)),
{
    let (syntax, name) = match find_syntax(hl, ext) {
        Some(p) => p,
        None => return plain(string_of(chars_of(raw).as_slice())),
    };
    let name_chars = chars_of(name.as_str());
    let plain_name = chars_of("Plain Text");
    proof {
        reveal_strlit("Plain Text");
        assert(plain_name@ =~= plain_text_name());
    }
    if chars_equal(name_chars.as_slice(), plain_name.as_slice()) {
        return plain(string_of(chars_of(raw).as_slice()));
    }
    let th = match find_theme(hl, theme) {
        Some(t) => t,
        None => return plain(string_of(chars_of(raw).as_slice())),
    };
    let mut h = Highlighter {
        lines: highlighter(syntax, th),
        set: &hl.syntaxes,
        ext: string_of(chars_of(ext).as_slice()),
        theme: string_of(chars_of(theme).as_slice()),
        fed: Vec::new(),
    };
    let pieces = split_keep_endings(chars_of(raw).as_slice());
    let ghost ps = line_pieces(raw@);
    let mut lines: Vec<Vec<Token>> = Vec::new();
    let mut i: usize = 0;
    while i < pieces.len()
        invariant
            i <= pieces@.len(),
            pieces@.map_values(|l: Vec<char>| l@) == ps,
            ps == line_pieces(raw@),
            h.ext@ == ext@,
            h.theme@ == theme@,
            h.fed@.map_values(|l: String| l@) == ps.take(i as int),
            tokens_upto(ext@, theme@, ps, i as nat) == Some(lines_view(lines@)),
            lines@.len() == i,
            forall|j: int| 0 <= j < i ==> token_text(#[trigger] lines_view(lines@)[j]) == ps[j],
        decreases pieces@.len() - i,
    {
        let line = string_of(pieces[i].as_slice());
        proof {
            assert(ps[i as int] == pieces@[i as int]@);
        }
        let res = highlight_line(&mut h, line.as_str());
        match res {
            Some(toks) => {
                let ghost before = lines@;
                lines.push(toks);
                h.fed.push(line);
                proof {
                    assert(lines_view(lines@) =~= lines_view(before).push(lines_view(lines@)[i as int]));
                    assert(ps.take(i + 1) =~= ps.take(i as int).push(ps[i as int]));
                    assert(h.fed@.map_values(|l: String| l@) =~= ps.take(i + 1));
                    assert forall|j: int| 0 <= j < i + 1 implies token_text(
                        #[trigger] lines_view(lines@)[j],
                    ) == ps[j] by {
                        if j < i {
                            assert(lines@[j] == before[j]);
                            assert(token_text(lines_view(before)[j]) == ps[j]);
                        }
                    }
                }
            },
            None => {
                proof {
                    assert(tokens_upto(ext@, theme@, ps, (i + 1) as nat) is None);
                    lemma_tokens_none_stays(ext@, theme@, ps, (i + 1) as nat, ps.len());
                }
                return plain(string_of(chars_of(raw).as_slice()));
            },
        }
        i = i + 1;
    }
    let r = highlighted(raw, &lines);
    assert(ps.len() == i);
    assert(file_tokens(ext@, theme@, ps) == Some(lines_view(lines@)));
    assert(covers(lines_view(lines@), ps));
    r
}

/// Once highlighting fails on a line, it fails for every longer prefix too.
proof fn lemma_tokens_none_stays(ext: Seq<char>, theme: Seq<char>, lines: Seq<Seq<char>>, n: nat, m: nat)
    requires
        tokens_upto(ext, theme, lines, n) is None,
        n <= m,
    ensures
        tokens_upto(ext, theme, lines, m) is None,
    decreases m - n,
{
    if n < m {
        assert(tokens_upto(ext, theme, lines, (n + 1) as nat) is None);
        lemma_tokens_none_stays(ext, theme, lines, n + 1, m);
    }
}

} // verus!
