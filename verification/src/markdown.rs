//! Markdown laid out block by block: the top-level blocks of a document, each tagged with the
//! source lines it came from so gutter numbers, highlights and review headers match the file,
//! not the reflowed text. Styling a block is the front-end's job; the slices it styles and the
//! way their rows map back to source lines are decided here.

use vstd::prelude::*;

use pulldown_cmark::{CodeBlockKind, Event, Options, Parser, Tag, TagEnd};

use crate::style::{line_view, span_view, spans_text, Color, Span, Style, StyledLine, MOD_DIM};
use crate::text::{chars_of, is_ws, lines_of, split_lines, string_of};
use crate::panel::is_blank;

verus! {

/// A parser event as far as block slicing needs it.
#[derive(Clone, Copy, PartialEq, Eq, Debug, Structural)]
pub enum MdEvent {
    /// A fenced code block opens.
    FencedCode,
    /// An HTML block opens.
    Html,
    /// A list opens.
    List,
    /// A table opens.
    Table,
    /// A list item opens.
    Item,
    /// Any other element opens.
    Open,
    /// A list closes.
    ListEnd,
    /// Any other element closes.
    Close,
    /// A thematic break.
    Rule,
    /// Text and everything else.
    Other,
}

/// How a top-level block maps source lines to rendered rows.
#[derive(Clone, Copy, PartialEq, Eq, Debug, Structural)]
pub enum BlockKind {
    /// Paragraphs, headings, quotes, callouts: one row per line when the shape matches.
    Prose,
    /// A fenced code block: one row per code line.
    Code,
    /// An HTML block: one row per line.
    Html,
    /// A list: each top-level item on its own.
    List,
    /// A table: borders fold onto neighbouring lines.
    Table,
}

/// The events `pulldown_cmark` parses from `md` with every extension on, each with the byte
/// range of the element it belongs to.
pub uninterp spec fn md_events(md: Seq<char>) -> Seq<(MdEvent, usize, usize)>;

/// Parse `md` with `pulldown_cmark` (all extensions) into its events and their byte ranges.
#[verifier::external_body]
fn parse_events(md: &str) -> (v: Vec<(MdEvent, usize, usize)>)
    ensures
        v@ == md_events(md@),
{
    Parser::new_ext(md, Options::all()).into_offset_iter().map(|(ev, r)| (match ev {
        Event::Start(Tag::CodeBlock(CodeBlockKind::Fenced(_))) => MdEvent::FencedCode,
        Event::Start(Tag::HtmlBlock) => MdEvent::Html,
        Event::Start(Tag::List(_)) => MdEvent::List,
        Event::Start(Tag::Table(_)) => MdEvent::Table,
        Event::Start(Tag::Item) => MdEvent::Item,
        Event::Start(_) => MdEvent::Open,
        Event::End(TagEnd::List(_)) => MdEvent::ListEnd,
        Event::End(_) => MdEvent::Close,
        Event::Rule => MdEvent::Rule,
        _ => MdEvent::Other,
    }, r.start, r.end)).collect()
}

/// The set of reference definitions `pulldown_cmark` finds in `md` (all extensions on), each as
/// `(label, destination)`.
pub uninterp spec fn md_ref_defs(md: Seq<char>) -> Set<(Seq<char>, Seq<char>)>;

/// The reference definitions `pulldown_cmark` finds in `md`, as `(label, destination)`: each once
/// (the parser keys them by label), all of `md_ref_defs(md)`. Their order is the order of the
/// parser's own hash map, which the source leaves unspecified and which is not claimed.
#[verifier::external_body]
fn reference_definitions(md: &str) -> (v: Vec<(String, String)>)
    ensures
        defs_view(v@).no_duplicates(),
        defs_view(v@).to_set() == md_ref_defs(md@),
{
    let parser = Parser::new_ext(md, Options::all());
    parser.reference_definitions().iter().map(|(label, def)| (label.to_string(), def.dest.to_string())).collect()
}

/// An event that opens an element.
pub open spec fn opens(e: MdEvent) -> bool {
    match e {
        MdEvent::FencedCode | MdEvent::Html | MdEvent::List | MdEvent::Table | MdEvent::Item
        | MdEvent::Open => true,
        _ => false,
    }
}

/// An event that closes an element.
pub open spec fn closes(e: MdEvent) -> bool {
    e == MdEvent::ListEnd || e == MdEvent::Close
}

/// The kind of a top-level block opened by `e`.
pub open spec fn kind_of(e: MdEvent) -> BlockKind {
    match e {
        MdEvent::FencedCode => BlockKind::Code,
        MdEvent::Html => BlockKind::Html,
        MdEvent::List => BlockKind::List,
        MdEvent::Table => BlockKind::Table,
        _ => BlockKind::Prose,
    }
}

/// The top-level blocks from event `i` on, at nesting `depth`, the current block opening at
/// `start` with `kind`: an element closing back to depth 0 ends a block, and a rule at depth 0
/// is a block of its own.
pub open spec fn blocks_from(evs: Seq<(MdEvent, usize, usize)>, i: int, depth: int, start: usize, kind: BlockKind) -> Seq<
    (usize, usize, BlockKind),
>
    decreases evs.len() - i,
{
    if i < 0 || i >= evs.len() {
        seq![]
    } else {
        let (e, s, t) = evs[i];
        if opens(e) {
            if depth == 0 {
                blocks_from(evs, i + 1, depth + 1, s, kind_of(e))
            } else {
                blocks_from(evs, i + 1, depth + 1, start, kind)
            }
        } else if closes(e) {
            if depth - 1 == 0 {
                seq![(start, t, kind)] + blocks_from(evs, i + 1, depth - 1, start, kind)
            } else {
                blocks_from(evs, i + 1, depth - 1, start, kind)
            }
        } else if e == MdEvent::Rule && depth == 0 {
            seq![(s, t, BlockKind::Prose)] + blocks_from(evs, i + 1, depth, start, kind)
        } else {
            blocks_from(evs, i + 1, depth, start, kind)
        }
    }
}

/// The top-level blocks of a document's events, as byte ranges and kinds.
pub open spec fn spec_blocks(evs: Seq<(MdEvent, usize, usize)>) -> Seq<(usize, usize, BlockKind)> {
    blocks_from(evs, 0, 0, 0, BlockKind::Prose)
}

fn kind_of_event(e: MdEvent) -> (k: BlockKind)
    ensures
        k == kind_of(e),
{
    match e {
        MdEvent::FencedCode => BlockKind::Code,
        MdEvent::Html => BlockKind::Html,
        MdEvent::List => BlockKind::List,
        MdEvent::Table => BlockKind::Table,
        _ => BlockKind::Prose,
    }
}

/// The top-level blocks of `evs` (see `spec_blocks`).
pub fn blocks(evs: &Vec<(MdEvent, usize, usize)>) -> (out: Vec<(usize, usize, BlockKind)>)
    ensures
        out@ == spec_blocks(evs@),
{
    let mut out: Vec<(usize, usize, BlockKind)> = Vec::new();
    let mut depth: i128 = 0;
    let mut start: usize = 0;
    let mut kind = BlockKind::Prose;
    let mut i: usize = 0;
    while i < evs.len()
        invariant
            i <= evs@.len(),
            -(i as int) <= depth <= i,
            out@ + blocks_from(evs@, i as int, depth as int, start, kind) == spec_blocks(evs@),
        decreases evs@.len() - i,
    {
        let (e, s, t) = evs[i];
        let ghost before = out@;
        let ghost d0 = depth as int;
        let ghost st0 = start;
        let ghost k0 = kind;
        let is_open = match e {
            MdEvent::FencedCode | MdEvent::Html | MdEvent::List | MdEvent::Table | MdEvent::Item
            | MdEvent::Open => true,
            _ => false,
        };
        if is_open {
            if depth == 0 {
                start = s;
                kind = kind_of_event(e);
            }
            depth = depth + 1;
        } else if e == MdEvent::ListEnd || e == MdEvent::Close {
            depth = depth - 1;
            if depth == 0 {
                out.push((start, t, kind));
                proof {
                    assert(before + blocks_from(evs@, i as int, d0, st0, k0) =~= out@ + blocks_from(
                        evs@,
                        i + 1,
                        depth as int,
                        start,
                        kind,
                    ));
                }
            }
        } else if e == MdEvent::Rule && depth == 0 {
            out.push((s, t, BlockKind::Prose));
            proof {
                assert(before + blocks_from(evs@, i as int, d0, st0, k0) =~= out@ + blocks_from(
                    evs@,
                    i + 1,
                    depth as int,
                    start,
                    kind,
                ));
            }
        }
        i = i + 1;
    }
    assert(out@ =~= spec_blocks(evs@));
    out
}

/// The number of bytes `c` takes in UTF-8.
pub open spec fn utf8_width(c: char) -> nat {
    if (c as u32) < 0x80 {
        1
    } else if (c as u32) < 0x800 {
        2
    } else if (c as u32) < 0x10000 {
        3
    } else {
        4
    }
}

/// The byte offset in UTF-8 at which character `i` of `s` starts.
pub open spec fn byte_at(s: Seq<char>, i: int) -> nat
    decreases i,
{
    if i <= 0 {
        0
    } else {
        byte_at(s, i - 1) + utf8_width(s[i - 1])
    }
}

/// The first character at or after `i` that starts at or past byte `b` (`s.len()` when none).
pub open spec fn char_index_from(s: Seq<char>, i: int, b: int) -> int
    decreases s.len() - i,
{
    if i < 0 || i >= s.len() || byte_at(s, i) >= b {
        i
    } else {
        char_index_from(s, i + 1, b)
    }
}

/// The number of characters of `s` that start before byte `b`.
pub open spec fn char_index(s: Seq<char>, b: int) -> int {
    char_index_from(s, 0, b)
}

/// Byte `b` is where a character starts, or the end of `s`.
pub open spec fn at_boundary(s: Seq<char>, b: int) -> bool {
    byte_at(s, char_index(s, b)) == b
}

/// The number of `'\n'` in `s`.
pub open spec fn newlines(s: Seq<char>) -> nat
    decreases s.len(),
{
    if s.len() == 0 {
        0
    } else {
        newlines(s.drop_last()) + if s.last() == '\n' { 1nat } else { 0nat }
    }
}

/// The 0-based line holding byte `b` of `s`: the newlines before it.
pub open spec fn line_of(s: Seq<char>, b: int) -> nat {
    newlines(s.subrange(0, char_index(s, b)))
}

/// The characters of `s` in bytes `[b0, b1)`.
pub open spec fn byte_slice(s: Seq<char>, b0: int, b1: int) -> Seq<char> {
    s.subrange(char_index(s, b0), char_index(s, b1))
}

proof fn lemma_char_index_bounds(s: Seq<char>, i: int, b: int)
    requires
        0 <= i <= s.len(),
    ensures
        i <= char_index_from(s, i, b) <= s.len(),
    decreases s.len() - i,
{
    if i < s.len() && byte_at(s, i) < b {
        lemma_char_index_bounds(s, i + 1, b);
    }
}

proof fn lemma_byte_at_mono(s: Seq<char>, i: int, j: int)
    requires
        0 <= i <= j,
    ensures
        byte_at(s, i) <= byte_at(s, j),
    decreases j - i,
{
    if i < j {
        lemma_byte_at_mono(s, i, j - 1);
    }
}

/// A document's characters with their byte offsets and line numbers, for byte-range lookups.
pub struct Indexed {
    pub chars: Vec<char>,
    /// `offs[i]` is the byte offset of character `i`; `offs[len]` the byte length.
    pub offs: Vec<u128>,
    /// `nl[i]` is the number of newlines among the first `i` characters.
    pub nl: Vec<usize>,
}

impl Indexed {
    /// The tables agree with the characters.
    pub open spec fn wf(&self) -> bool {
        &&& self.offs@.len() == self.chars@.len() + 1
        &&& self.nl@.len() == self.chars@.len() + 1
        &&& forall|i: int| 0 <= i <= self.chars@.len() ==> #[trigger] self.offs@[i] == byte_at(self.chars@, i)
        &&& forall|i: int| 0 <= i <= self.chars@.len() ==> #[trigger] self.nl@[i] == newlines(self.chars@.subrange(0, i))
    }

    /// Index `s`.
    pub fn new(s: &str) -> (ix: Indexed)
        ensures
            ix.wf(),
            ix.chars@ == s@,
    {
        let chars = chars_of(s);
        let mut offs: Vec<u128> = Vec::new();
        let mut nl: Vec<usize> = Vec::new();
        offs.push(0);
        nl.push(0);
        assert(chars@.subrange(0, 0) =~= Seq::<char>::empty());
        let mut i: usize = 0;
        while i < chars.len()
            invariant
                i <= chars@.len(),
                offs@.len() == i + 1,
                nl@.len() == i + 1,
                forall|j: int| 0 <= j <= i ==> #[trigger] offs@[j] == byte_at(chars@, j),
                forall|j: int| 0 <= j <= i ==> #[trigger] nl@[j] == newlines(chars@.subrange(0, j)),
                offs@[i as int] <= 4 * i,
                nl@[i as int] <= i,
            decreases chars@.len() - i,
        {
            let c = chars[i];
            let w: u128 = if (c as u32) < 0x80 {
                1
            } else if (c as u32) < 0x800 {
                2
            } else if (c as u32) < 0x10000 {
                3
            } else {
                4
            };
            let o = offs[i] + w;
            offs.push(o);
            let n = nl[i] + if c == '\n' { 1usize } else { 0usize };
            nl.push(n);
            proof {
                assert(chars@.subrange(0, i + 1).drop_last() =~= chars@.subrange(0, i as int));
            }
            i = i + 1;
        }
        Indexed { chars, offs, nl }
    }

    /// The number of characters that start before byte `b` (see `char_index`).
    pub fn char_index(&self, b: usize) -> (k: usize)
        requires
            self.wf(),
        ensures
            k as int == char_index(self.chars@, b as int),
            k <= self.chars@.len(),
    {
        let mut k: usize = 0;
        while k < self.chars.len() && self.offs[k] < b as u128
            invariant
                self.wf(),
                k <= self.chars@.len(),
                char_index(self.chars@, b as int) == char_index_from(self.chars@, k as int, b as int),
            decreases self.chars@.len() - k,
        {
            k = k + 1;
        }
        k
    }

    /// The 0-based line holding byte `b` (see `line_of`).
    pub fn line_of(&self, b: usize) -> (l: usize)
        requires
            self.wf(),
        ensures
            l as int == line_of(self.chars@, b as int),
    {
        let k = self.char_index(b);
        self.nl[k]
    }

    /// Whether byte `b` starts a character or ends the text.
    pub fn at_boundary(&self, b: usize) -> (r: bool)
        requires
            self.wf(),
        ensures
            r == at_boundary(self.chars@, b as int),
    {
        let k = self.char_index(b);
        self.offs[k] == b as u128
    }

    /// The characters in bytes `[b0, b1)` (see `byte_slice`).
    pub fn slice(&self, b0: usize, b1: usize) -> (v: Vec<char>)
        requires
            self.wf(),
            b0 <= b1,
        ensures
            v@ == byte_slice(self.chars@, b0 as int, b1 as int),
    {
        let k0 = self.char_index(b0);
        let k1 = self.char_index(b1);
        proof {
            lemma_char_index_mono(self.chars@, b0 as int, b1 as int);
        }
        crate::text::slice_chars(self.chars.as_slice(), k0, k1)
    }
}

proof fn lemma_char_index_from_mono(s: Seq<char>, i: int, b0: int, b1: int)
    requires
        0 <= i <= s.len(),
        b0 <= b1,
        i <= char_index_from(s, i, b1),
    ensures
        char_index_from(s, i, b0) <= char_index_from(s, i, b1),
    decreases s.len() - i,
{
    lemma_char_index_bounds(s, i, b0);
    lemma_char_index_bounds(s, i, b1);
    if i < s.len() && byte_at(s, i) < b0 {
        lemma_char_index_bounds(s, i + 1, b1);
        lemma_char_index_from_mono(s, i + 1, b0, b1);
    }
}

/// Later bytes start no earlier characters.
pub proof fn lemma_char_index_mono(s: Seq<char>, b0: int, b1: int)
    requires
        b0 <= b1,
    ensures
        0 <= char_index(s, b0) <= char_index(s, b1) <= s.len(),
{
    lemma_char_index_bounds(s, 0, b0);
    lemma_char_index_bounds(s, 0, b1);
    lemma_char_index_from_mono(s, 0, b0, b1);
}


/// The source lines (offset by `l0`) on which the top-level items of a list slice start, from
/// event `i` at list nesting `depth`.
pub open spec fn items_from(evs: Seq<(MdEvent, usize, usize)>, i: int, depth: int, slice: Seq<char>, l0: int) -> Seq<int>
    decreases evs.len() - i,
{
    if i < 0 || i >= evs.len() {
        seq![]
    } else {
        let (e, s, _t) = evs[i];
        if e == MdEvent::List {
            items_from(evs, i + 1, depth + 1, slice, l0)
        } else if e == MdEvent::ListEnd {
            items_from(evs, i + 1, depth - 1, slice, l0)
        } else if e == MdEvent::Item && depth == 1 {
            seq![l0 + line_of(slice, s as int)] + items_from(evs, i + 1, depth, slice, l0)
        } else {
            items_from(evs, i + 1, depth, slice, l0)
        }
    }
}

/// The source lines on which the top-level items of the list `slice` (starting on line `l0`)
/// start.
pub open spec fn top_items(slice: Seq<char>, l0: int) -> Seq<int> {
    items_from(md_events(slice), 0, 0, slice, l0)
}

/// `x` moved up past blank lines, but not above `lo`.
pub open spec fn trim_down(lines: Seq<Seq<char>>, lo: int, x: int) -> int
    decreases x - lo,
{
    if x > lo && 0 <= x < lines.len() && crate::panel::is_blank(lines[x]) {
        trim_down(lines, lo, x - 1)
    } else {
        x
    }
}

/// One slice to style and how its rows map back: blank rows for lines `[gap_from, gap_to)`
/// first, then the slice's rows for lines `first..=last` (and, for a list item, blank rows up to
/// `end`).
#[derive(Clone, Copy, PartialEq, Eq, Debug, Structural)]
pub struct Job {
    pub kind: BlockKind,
    pub gap_from: usize,
    pub gap_to: usize,
    /// A single top-level list item, styled on its own.
    pub item: bool,
    pub first: usize,
    pub last: usize,
    pub end: usize,
    /// The byte range of the block it belongs to.
    pub b0: usize,
    pub b1: usize,
}

/// A block's first line and its last line with trailing blank lines dropped.
pub open spec fn block_lines(md: Seq<char>, lines: Seq<Seq<char>>, b0: int, b1: int) -> (int, int) {
    let l0 = line_of(md, b0) as int;
    let r = line_of(md, if b1 > 0 { b1 - 1 } else { 0 }) as int;
    let l1 = if r > l0 { r } else { l0 };
    (l0, trim_down(lines, l0, l1))
}

/// The jobs of a list block's items `starts[idx..]`: each item runs to the line before the next
/// one (the last to `l1`), its rows mapped over the item with its trailing blanks dropped. `None`
/// when the item lines cannot be sliced out of the document.
pub open spec fn item_jobs(
    lines: Seq<Seq<char>>,
    starts: Seq<int>,
    idx: int,
    l1: int,
    gap_from: int,
    gap_to: int,
    b0: int,
    b1: int,
) -> Option<Seq<Job>>
    decreases starts.len() - idx,
{
    if idx < 0 || idx >= starts.len() {
        Some(seq![])
    } else {
        let s = starts[idx];
        let end = if idx + 1 < starts.len() { starts[idx + 1] - 1 } else { l1 };
        if !(0 <= s <= end + 1 && end + 1 <= lines.len()) || (idx + 1 < starts.len() && starts[idx + 1] < 1) {
            None
        } else {
            let e = trim_down(lines, s, end);
            let job = Job {
                kind: BlockKind::List,
                gap_from: (if idx == 0 { gap_from } else { gap_to }) as usize,
                gap_to: gap_to as usize,
                item: true,
                first: s as usize,
                last: e as usize,
                end: end as usize,
                b0: b0 as usize,
                b1: b1 as usize,
            };
            match item_jobs(lines, starts, idx + 1, l1, gap_from, gap_to, b0, b1) {
                Some(rest) => Some(seq![job] + rest),
                None => None,
            }
        }
    }
}

/// The jobs of one block given the next line still needing a row, and that line after it; `None`
/// where slicing the block out of the document would fail.
pub open spec fn block_jobs(md: Seq<char>, lines: Seq<Seq<char>>, blk: (usize, usize, BlockKind), cursor: int) -> Option<
    (Seq<Job>, int),
> {
    let (b0, b1, kind) = blk;
    if !(b0 <= b1 && at_boundary(md, b0 as int) && at_boundary(md, b1 as int)) {
        None
    } else {
        let (l0, l1) = block_lines(md, lines, b0 as int, b1 as int);
        let gap_to = if cursor < l0 { l0 } else { cursor };
        if l1 + 1 > usize::MAX {
            None
        } else {
        let next = if gap_to > l1 + 1 { gap_to } else { l1 + 1 };
        let starts = top_items(byte_slice(md, b0 as int, b1 as int), l0);
        if kind == BlockKind::List && starts.len() > 0 {
            match item_jobs(lines, starts, 0, l1, cursor, gap_to, b0 as int, b1 as int) {
                Some(js) => Some((js, next)),
                None => None,
            }
        } else if (kind == BlockKind::Prose || kind == BlockKind::List) && l1 >= lines.len() {
            None
        } else {
            Some(
                (
                    seq![
                        Job {
                            kind,
                            gap_from: cursor as usize,
                            gap_to: gap_to as usize,
                            item: false,
                            first: l0 as usize,
                            last: l1 as usize,
                            end: l1 as usize,
                            b0,
                            b1,
                        },
                    ],
                    next,
                ),
            )
        }
        }
    }
}

/// The jobs of blocks `bi..`, and the next line still needing a row after them.
pub open spec fn plan_from(md: Seq<char>, lines: Seq<Seq<char>>, blks: Seq<(usize, usize, BlockKind)>, bi: int, cursor: int) -> Option<
    (Seq<Job>, int),
>
    decreases blks.len() - bi,
{
    if bi < 0 || bi >= blks.len() {
        Some((seq![], cursor))
    } else {
        match block_jobs(md, lines, blks[bi], cursor) {
            None => None,
            Some((js, c)) => match plan_from(md, lines, blks, bi + 1, c) {
                Some((rest, c2)) => Some((js + rest, c2)),
                None => None,
            },
        }
    }
}

/// A document's jobs, block by block, and the line the trailing gap starts on; `None` where
/// slicing the source by those blocks would fail and the document degrades to raw text.
pub open spec fn md_plan(md: Seq<char>) -> Option<(Seq<Job>, int)> {
    plan_from(md, lines_of(md), spec_blocks(md_events(md)), 0, 0)
}


fn is_blank_chars(s: &[char]) -> (b: bool)
    ensures
        b == crate::panel::is_blank(s@),
{
    let mut i: usize = 0;
    while i < s.len()
        invariant
            i <= s@.len(),
            forall|j: int| 0 <= j < i ==> crate::text::is_ws(s@[j]),
        decreases s@.len() - i,
    {
        if !crate::text::is_whitespace(s[i]) {
            return false;
        }
        i = i + 1;
    }
    true
}

/// The lines as character sequences.
pub open spec fn lines_view(v: Seq<Vec<char>>) -> Seq<Seq<char>> {
    v.map_values(|l: Vec<char>| l@)
}

fn trim_down_exec(lines: &Vec<Vec<char>>, lo: usize, x: usize) -> (r: usize)
    ensures
        r as int == trim_down(lines_view(lines@), lo as int, x as int),
{
    let ghost lv = lines_view(lines@);
    let mut y = x;
    while y > lo && y < lines.len() && is_blank_chars(lines[y].as_slice())
        invariant
            lv == lines_view(lines@),
            trim_down(lv, lo as int, x as int) == trim_down(lv, lo as int, y as int),
        decreases y,
    {
        proof {
            assert(lv[y as int] == lines@[y as int]@);
        }
        y = y - 1;
    }
    proof {
        if y > lo && y < lines.len() {
            assert(lv[y as int] == lines@[y as int]@);
        }
    }
    y
}

/// The top-level item lines of a list slice (see `top_items`), as wide integers.
fn top_item_lines(slice: &str, l0: usize) -> (v: Vec<u128>)
    ensures
        v@.len() == top_items(slice@, l0 as int).len(),
        forall|i: int| 0 <= i < v@.len() ==> v@[i] as int == #[trigger] top_items(slice@, l0 as int)[i],
{
    let evs = parse_events(slice);
    let ix = Indexed::new(slice);
    let mut out: Vec<u128> = Vec::new();
    let mut depth: i128 = 0;
    let mut i: usize = 0;
    let ghost full = top_items(slice@, l0 as int);
    while i < evs.len()
        invariant
            i <= evs@.len(),
            evs@ == md_events(slice@),
            ix.wf(),
            ix.chars@ == slice@,
            -(i as int) <= depth <= i,
            full == top_items(slice@, l0 as int),
            out@.len() + items_from(evs@, i as int, depth as int, slice@, l0 as int).len() == full.len(),
            forall|j: int| 0 <= j < out@.len() ==> out@[j] as int == #[trigger] full[j],
            forall|j: int|
                0 <= j < items_from(evs@, i as int, depth as int, slice@, l0 as int).len() ==> #[trigger] items_from(
                    evs@,
                    i as int,
                    depth as int,
                    slice@,
                    l0 as int,
                )[j] == full[out@.len() + j],
        decreases evs@.len() - i,
    {
        let (e, s, _t) = evs[i];
        let ghost rest = items_from(evs@, i as int, depth as int, slice@, l0 as int);
        if e == MdEvent::List {
            depth = depth + 1;
        } else if e == MdEvent::ListEnd {
            depth = depth - 1;
        } else if e == MdEvent::Item && depth == 1 {
            let l = ix.line_of(s);
            proof {
                assert(rest[0] == full[out@.len() as int]);
            }
            out.push(l0 as u128 + l as u128);
            proof {
                let next = items_from(evs@, i + 1, depth as int, slice@, l0 as int);
                assert forall|j: int| 0 <= j < next.len() implies #[trigger] next[j] == full[out@.len() + j] by {
                    assert(rest[j + 1] == next[j]);
                }
            }
        }
        i = i + 1;
    }
    out
}


/// Prefix `prefix` onto a plan result.
pub open spec fn prepend(prefix: Seq<Job>, r: Option<(Seq<Job>, int)>) -> Option<(Seq<Job>, int)> {
    match r {
        Some((js, c)) => Some((prefix + js, c)),
        None => None,
    }
}

/// The jobs of one block (see `block_jobs`).
fn jobs_of_block(ix: &Indexed, lines: &Vec<Vec<char>>, blk: (usize, usize, BlockKind), cursor: usize) -> (r: Option<
    (Vec<Job>, usize),
>)
    requires
        ix.wf(),
    ensures
        match r {
            Some((js, c)) => block_jobs(ix.chars@, lines_view(lines@), blk, cursor as int) == Some((js@, c as int)),
            None => block_jobs(ix.chars@, lines_view(lines@), blk, cursor as int) is None,
        },
{
    let ghost lv = lines_view(lines@);
    let ghost md = ix.chars@;
    let (b0, b1, kind) = blk;
    if !(b0 <= b1 && ix.at_boundary(b0) && ix.at_boundary(b1)) {
        return None;
    }
    let l0 = ix.line_of(b0);
    let r = ix.line_of(if b1 > 0 { b1 - 1 } else { 0 });
    let l1r = if r > l0 { r } else { l0 };
    let l1 = trim_down_exec(lines, l0, l1r);
    assert((l0 as int, l1 as int) == block_lines(md, lv, b0 as int, b1 as int));
    let gap_to = if cursor < l0 { l0 } else { cursor };
    if l1 == usize::MAX {
        return None;
    }
    let next = if gap_to > l1 + 1 { gap_to } else { l1 + 1 };
    let is_list = kind == BlockKind::List;
    let starts: Vec<u128> = if is_list {
        let sl = ix.slice(b0, b1);
        let text = string_of(sl.as_slice());
        top_item_lines(text.as_str(), l0)
    } else {
        Vec::new()
    };
    let ghost st = top_items(byte_slice(md, b0 as int, b1 as int), l0 as int);
    if is_list && starts.len() > 0 {
        let mut jobs: Vec<Job> = Vec::new();
        let mut idx: usize = 0;
        while idx < starts.len()
            invariant
                idx <= starts@.len() == st.len(),
                forall|i: int| 0 <= i < starts@.len() ==> starts@[i] as int == #[trigger] st[i],
                lv == lines_view(lines@),
                md == ix.chars@,
                blk == (b0, b1, kind),
                kind == BlockKind::List,
                st.len() > 0,
                st == top_items(byte_slice(md, b0 as int, b1 as int), l0 as int),
                b0 <= b1 && at_boundary(md, b0 as int) && at_boundary(md, b1 as int),
                (l0 as int, l1 as int) == block_lines(md, lv, b0 as int, b1 as int),
                gap_to as int == (if cursor < l0 { l0 as int } else { cursor as int }),
                l1 + 1 <= usize::MAX,
                next as int == (if gap_to > l1 + 1 { gap_to as int } else { l1 + 1 }),
                item_jobs(lv, st, 0, l1 as int, cursor as int, gap_to as int, b0 as int, b1 as int) == match item_jobs(
                    lv,
                    st,
                    idx as int,
                    l1 as int,
                    cursor as int,
                    gap_to as int,
                    b0 as int,
                    b1 as int,
                ) {
                    Some(rest) => Some(jobs@ + rest),
                    None => None::<Seq<Job>>,
                },
            decreases starts@.len() - idx,
        {
            let s = starts[idx];
            let has_next = idx + 1 < starts.len();
            proof {
                assert(starts@[idx as int] as int == st[idx as int]);
                if has_next {
                    assert(starts@[idx + 1] as int == st[idx + 1]);
                }
            }
            if has_next && starts[idx + 1] < 1 {
                proof {
                    assert(item_jobs(lv, st, idx as int, l1 as int, cursor as int, gap_to as int, b0 as int, b1 as int) is None);
                    assert(block_jobs(md, lv, blk, cursor as int) is None);
                }
                return None;
            }
            let end: u128 = if has_next { starts[idx + 1] - 1 } else { l1 as u128 };
            if !(s <= end + 1 && end + 1 <= lines.len() as u128) {
                proof {
                    assert(lv.len() == lines@.len());
                    assert(item_jobs(lv, st, idx as int, l1 as int, cursor as int, gap_to as int, b0 as int, b1 as int) is None);
                    assert(block_jobs(md, lv, blk, cursor as int) is None);
                }
                return None;
            }
            let su = s as usize;
            let endu = end as usize;
            let e = trim_down_exec(lines, su, endu);
            let job = Job {
                kind: BlockKind::List,
                gap_from: if idx == 0 { cursor } else { gap_to },
                gap_to,
                item: true,
                first: su,
                last: e,
                end: endu,
                b0,
                b1,
            };
            let ghost before = jobs@;
            jobs.push(job);
            proof {
                assert(jobs@ =~= before + seq![job]);
                match item_jobs(lv, st, idx + 1, l1 as int, cursor as int, gap_to as int, b0 as int, b1 as int) {
                    Some(rest) => {
                        assert(before + (seq![job] + rest) =~= jobs@ + rest);
                    },
                    None => {},
                }
            }
            idx = idx + 1;
        }
        proof {
            assert(jobs@ + Seq::<Job>::empty() =~= jobs@);
        }
        Some((jobs, next))
    } else if (kind == BlockKind::Prose || kind == BlockKind::List) && l1 >= lines.len() {
        None
    } else {
        let mut jobs: Vec<Job> = Vec::new();
        jobs.push(Job { kind, gap_from: cursor, gap_to, item: false, first: l0, last: l1, end: l1, b0, b1 });
        proof {
            assert(jobs@ =~= seq![Job { kind, gap_from: cursor, gap_to, item: false, first: l0, last: l1, end: l1, b0, b1 }]);
        }
        Some((jobs, next))
    }
}

/// A document's jobs (see `md_plan`).
pub fn plan(md: &str) -> (r: Option<(Vec<Job>, usize)>)
    ensures
        match r {
            Some((js, c)) => md_plan(md@) == Some((js@, c as int)),
            None => md_plan(md@) is None,
        },
{
    let ix = Indexed::new(md);
    let lines = split_lines(ix.chars.as_slice());
    assert(lines_view(lines@) == lines_of(md@));
    let evs = parse_events(md);
    let blks = blocks(&evs);
    let ghost lv = lines_view(lines@);
    let mut jobs: Vec<Job> = Vec::new();
    let mut cursor: usize = 0;
    let mut bi: usize = 0;
    while bi < blks.len()
        invariant
            ix.wf(),
            ix.chars@ == md@,
            lv == lines_view(lines@),
            lv == lines_of(md@),
            blks@ == spec_blocks(md_events(md@)),
            bi <= blks@.len(),
            md_plan(md@) == prepend(jobs@, plan_from(md@, lv, blks@, bi as int, cursor as int)),
        decreases blks@.len() - bi,
    {
        match jobs_of_block(&ix, &lines, blks[bi], cursor) {
            None => {
                return None;
            },
            Some((mut js, c)) => {
                let ghost before = jobs@;
                let ghost jv = js@;
                jobs.append(&mut js);
                proof {
                    match plan_from(md@, lv, blks@, bi + 1, c as int) {
                        Some((rest, c2)) => {
                            assert(before + (jv + rest) =~= jobs@ + rest);
                        },
                        None => {},
                    }
                }
                cursor = c;
            },
        }
        bi = bi + 1;
    }
    proof {
        assert(jobs@ + Seq::<Job>::empty() =~= jobs@);
    }
    Some((jobs, cursor))
}


/// A row's spans as plain values.
pub type RowSpans = Seq<(Seq<char>, Style)>;

/// The number of leading `>` spans from `i` on.
pub open spec fn quote_prefix_len(spans: RowSpans, i: int) -> int
    decreases spans.len() - i,
{
    if 0 <= i < spans.len() && spans[i].0 == seq!['>'] {
        quote_prefix_len(spans, i + 1)
    } else {
        i
    }
}

/// The spans without a leading blockquote gutter: the `>` spans and the space after them.
pub open spec fn unquoted(spans: RowSpans) -> RowSpans {
    if spans.len() > 0 && spans[0].0 == seq!['>'] {
        let t = spans.subrange(quote_prefix_len(spans, 0), spans.len() as int);
        if t.len() > 0 && t[0].0 == seq![' '] {
            t.drop_first()
        } else {
            t
        }
    } else {
        spans
    }
}

/// A light-blue span (a list number) back in the body colour.
pub open spec fn unblue(sp: (Seq<char>, Style)) -> (Seq<char>, Style) {
    if sp.1.fg == Some(Color::LightBlue) {
        (sp.0, Style { fg: None, ..sp.1 })
    } else {
        sp
    }
}

/// A thematic break's row: the rule marker in dim gray.
pub open spec fn rule_row() -> RowSpans {
    seq![(seq!['\u{2500}'], Style::spec_fg(Color::Rgb(90, 90, 90)))]
}

/// A styled row cleaned up: a lone `---` becomes the rule marker; otherwise the blockquote
/// gutter goes and list numbers return to the body colour.
pub open spec fn refined(spans: RowSpans) -> RowSpans {
    if spans.len() == 1 && spans[0].0 == seq!['-', '-', '-'] {
        rule_row()
    } else {
        unquoted(spans).map_values(|sp: (Seq<char>, Style)| unblue(sp))
    }
}

fn is_word(s: &str, w: &[char]) -> (b: bool)
    ensures
        b == (s@ == w@),
{
    let c = chars_of(s);
    crate::text::chars_equal(c.as_slice(), w)
}

/// Clean up one styled row (see `refined`).
pub fn refine_line(line: &StyledLine) -> (out: StyledLine)
    ensures
        line_view(out) == refined(line_view(*line)),
{
    let spans = &line.spans;
    let ghost sv = line_view(*line);
    let dashes: [char; 3] = ['-', '-', '-'];
    let gt: [char; 1] = ['>'];
    let sp: [char; 1] = [' '];
    assert(dashes@ =~= seq!['-', '-', '-']);
    assert(gt@ =~= seq!['>']);
    assert(sp@ =~= seq![' ']);
    if spans.len() == 1 && is_word(spans[0].content.as_str(), &dashes) {
        let mut v: Vec<char> = Vec::new();
        v.push('\u{2500}');
        let text = string_of(v.as_slice());
        assert(text@ =~= seq!['\u{2500}']);
        let mut out: Vec<Span> = Vec::new();
        out.push(Span::styled(text, Style::fg(Color::Rgb(90, 90, 90))));
        proof {
            assert(sv[0] == span_view(spans@[0]));
            assert(out@.map_values(|s: Span| span_view(s)) =~= rule_row());
        }
        return StyledLine { spans: out };
    }
    let mut from: usize = 0;
    if spans.len() > 0 && is_word(spans[0].content.as_str(), &gt) {
        proof {
            assert(sv[0] == span_view(spans@[0]));
        }
        while from < spans.len() && is_word(spans[from].content.as_str(), &gt)
            invariant
                from <= spans@.len(),
                sv == line_view(*line),
                sv.len() == spans@.len(),
                gt@ == seq!['>'],
                forall|j: int| 0 <= j < sv.len() ==> #[trigger] sv[j] == span_view(spans@[j]),
                quote_prefix_len(sv, 0) == quote_prefix_len(sv, from as int),
            decreases spans@.len() - from,
        {
            proof {
                assert(sv[from as int] == span_view(spans@[from as int]));
            }
            from = from + 1;
        }
        proof {
            if from < spans.len() {
                assert(sv[from as int] == span_view(spans@[from as int]));
            }
        }
        if from < spans.len() && is_word(spans[from].content.as_str(), &sp) {
            proof {
                assert(sv[from as int] == span_view(spans@[from as int]));
            }
            from = from + 1;
        }
    } else {
        proof {
            if spans.len() > 0 {
                assert(sv[0] == span_view(spans@[0]));
            }
        }
    }
    let ghost kept = sv.subrange(from as int, sv.len() as int);
    proof {
        assert(kept =~= unquoted(sv));
    }
    let mut out: Vec<Span> = Vec::new();
    let mut i: usize = from;
    while i < spans.len()
        invariant
            from <= i <= spans@.len(),
            sv == line_view(*line),
            sv.len() == spans@.len(),
            forall|j: int| 0 <= j < sv.len() ==> #[trigger] sv[j] == span_view(spans@[j]),
            kept == sv.subrange(from as int, sv.len() as int),
            out@.len() == i - from,
            forall|j: int| 0 <= j < i - from ==> span_view(#[trigger] out@[j]) == unblue(kept[j]),
        decreases spans@.len() - i,
    {
        let s = crate::style::copy_span(&spans[i]);
        proof {
            assert(kept[i - from] == span_view(spans@[i as int]));
        }
        if s.style.fg == Some(Color::LightBlue) {
            let st = Style { fg: None, ..s.style };
            out.push(Span { content: s.content, style: st });
        } else {
            out.push(s);
        }
        i = i + 1;
    }
    proof {
        assert(out@.map_values(|s: Span| span_view(s)) =~= unquoted(sv).map_values(|sp: (Seq<char>, Style)| unblue(sp)));
    }
    StyledLine { spans: out }
}

/// A span that shows something.
pub open spec fn visible(sp: (Seq<char>, Style)) -> bool {
    !is_blank(sp.0)
}

/// The first non-whitespace character of `s`.
pub open spec fn first_visible(s: Seq<char>) -> Option<char>
    decreases s.len(),
{
    if s.len() == 0 {
        None
    } else if !is_ws(s[0]) {
        Some(s[0])
    } else {
        first_visible(s.drop_first())
    }
}

/// A box-drawing character a table border starts with.
pub open spec fn border_char(c: char) -> bool {
    c == '\u{250C}' || c == '\u{252C}' || c == '\u{2510}' || c == '\u{251C}' || c == '\u{253C}' || c
        == '\u{2524}' || c == '\u{2514}' || c == '\u{2534}' || c == '\u{2518}' || c == '\u{2502}' || c == '\u{2500}'
}

/// Whether a styled markdown row is pre-formatted (clipped and scrolled) rather than prose: a
/// table row starts with a border; a code row has a background on every visible span; an HTML
/// row is dim in every visible span; a row with nothing visible counts when a span carries a
/// background (an empty line inside a fenced block).
pub open spec fn is_nowrap(spans: RowSpans) -> bool {
    if !(exists|i: int| 0 <= i < spans.len() && visible(#[trigger] spans[i])) {
        exists|i: int| 0 <= i < spans.len() && (#[trigger] spans[i]).1.bg is Some
    } else {
        (first_visible(spans_text(spans)) matches Some(c) && border_char(c)) || (forall|i: int|
            0 <= i < spans.len() && visible(#[trigger] spans[i]) ==> spans[i].1.bg is Some) || (forall|i: int|
            0 <= i < spans.len() && visible(#[trigger] spans[i]) ==> spans[i].1.add_modifier & MOD_DIM != 0)
    }
}

fn first_visible_of(s: &Vec<char>) -> (r: Option<char>)
    ensures
        r == first_visible(s@),
{
    let mut i: usize = 0;
    assert(s@.subrange(0, s@.len() as int) =~= s@);
    while i < s.len()
        invariant
            i <= s@.len(),
            first_visible(s@) == first_visible(s@.subrange(i as int, s@.len() as int)),
        decreases s@.len() - i,
    {
        proof {
            assert(s@.subrange(i as int, s@.len() as int).drop_first() =~= s@.subrange(i + 1, s@.len() as int));
        }
        if !crate::text::is_whitespace(s[i]) {
            return Some(s[i]);
        }
        i = i + 1;
    }
    None
}

/// Whether a styled markdown row is pre-formatted (see `is_nowrap`).
pub fn classify_line(line: &StyledLine) -> (b: bool)
    ensures
        b == is_nowrap(line_view(*line)),
{
    let spans = &line.spans;
    let ghost sv = line_view(*line);
    let mut any_visible = false;
    let mut any_bg = false;
    let mut all_bg = true;
    let mut all_dim = true;
    let mut i: usize = 0;
    while i < spans.len()
        invariant
            i <= spans@.len(),
            sv == line_view(*line),
            sv.len() == spans@.len(),
            forall|j: int| 0 <= j < sv.len() ==> #[trigger] sv[j] == span_view(spans@[j]),
            any_visible == (exists|j: int| 0 <= j < i && visible(#[trigger] sv[j])),
            any_bg == (exists|j: int| 0 <= j < i && (#[trigger] sv[j]).1.bg is Some),
            all_bg == (forall|j: int| 0 <= j < i && visible(#[trigger] sv[j]) ==> sv[j].1.bg is Some),
            all_dim == (forall|j: int| 0 <= j < i && visible(#[trigger] sv[j]) ==> sv[j].1.add_modifier & MOD_DIM != 0),
        decreases spans@.len() - i,
    {
        let vis = !crate::panel::blank(spans[i].content.as_str());
        let bg = spans[i].style.bg.is_some();
        let dim = spans[i].style.add_modifier & MOD_DIM != 0;
        proof {
            assert(sv[i as int] == span_view(spans@[i as int]));
        }
        if vis {
            any_visible = true;
            if !bg {
                all_bg = false;
            }
            if !dim {
                all_dim = false;
            }
        }
        if bg {
            any_bg = true;
        }
        i = i + 1;
    }
    if !any_visible {
        return any_bg;
    }
    let text = crate::render::line_text(line);
    let table = match first_visible_of(&text) {
        Some(c) => c == '\u{250C}' || c == '\u{252C}' || c == '\u{2510}' || c == '\u{251C}' || c == '\u{253C}'
            || c == '\u{2524}' || c == '\u{2514}' || c == '\u{2534}' || c == '\u{2518}' || c == '\u{2502}' || c
            == '\u{2500}',
        None => false,
    };
    table || all_bg || all_dim
}


/// A line that shows nothing but blockquote markers and whitespace.
pub open spec fn quote_blank(s: Seq<char>) -> bool {
    forall|i: int| 0 <= i < s.len() ==> s[i] == '>' || is_ws(#[trigger] s[i])
}

/// Pair source lines `j..` with rows `k..`: a row pairs with a line of the same blank shape, a
/// blank line the styling dropped pairs with no row, and any other line stops the walk (the
/// flag says whether every line was paired).
pub open spec fn pair_scan(rows: Seq<RowSpans>, lines: Seq<Seq<char>>, j: int, k: int) -> (Seq<Option<int>>, int, bool)
    decreases lines.len() - j,
{
    if j < 0 || j >= lines.len() {
        (seq![], k, true)
    } else if 0 <= k < rows.len() && quote_blank(spans_text(rows[k])) == quote_blank(lines[j]) {
        let (p, k2, ok) = pair_scan(rows, lines, j + 1, k + 1);
        (seq![Some(k)] + p, k2, ok)
    } else if quote_blank(lines[j]) {
        let (p, k2, ok) = pair_scan(rows, lines, j + 1, k);
        (seq![None] + p, k2, ok)
    } else {
        (seq![], k, false)
    }
}

/// A block's `rows` (styled from `lines`, which start at source line `l0`) tagged with source
/// ranges: one row per line when the shapes pair up (a dropped blank line gets an empty row),
/// else every row tagged with the whole block.
pub open spec fn aligned(rows: Seq<RowSpans>, lines: Seq<Seq<char>>, l0: int) -> Seq<(RowSpans, (int, int))> {
    let (p, k, ok) = pair_scan(rows, lines, 0, 0);
    if !ok || k < rows.len() {
        let last = if lines.len() > 0 { l0 + lines.len() - 1 } else { l0 };
        rows.map_values(|r: RowSpans| (r, (l0, last)))
    } else {
        Seq::new(
            lines.len(),
            |j: int|
                (
                    match p[j] {
                        Some(k) => rows[k],
                        None => seq![],
                    },
                    (l0 + j, l0 + j),
                ),
        )
    }
}

/// Empty rows for source lines `[from, to)`.
pub open spec fn blank_rows(from: int, to: int) -> Seq<(RowSpans, (int, int))> {
    Seq::new(if to > from { (to - from) as nat } else { 0 }, |i: int| (seq![], (from + i, from + i)))
}

/// The source range of row `k` of `n` from a verbatim block on lines `l0..=l1`: a code row skips
/// the hidden opening fence, an HTML row maps straight, a table row folds its borders.
pub open spec fn verbatim_range(kind: BlockKind, k: int, n: int, l0: int, l1: int) -> (int, int) {
    match kind {
        BlockKind::Code => {
            let s = if l0 + 1 + k < l1 { l0 + 1 + k } else { l1 };
            (s, s)
        },
        BlockKind::Html => {
            let s = if l0 + k < l1 { l0 + k } else { l1 };
            (s, s)
        },
        BlockKind::Table => {
            let r = crate::render::table_row_range(k as nat, n as nat, l0 as nat, l1 as nat);
            (r.0 as int, r.1 as int)
        },
        _ => (l0, l1),
    }
}

/// One job's rows: its gap, then its styled rows mapped back to source lines.
pub open spec fn job_rows(lines: Seq<Seq<char>>, job: Job, rows: Seq<RowSpans>) -> Seq<(RowSpans, (int, int))> {
    let gap = blank_rows(job.gap_from as int, job.gap_to as int);
    let own = lines.subrange(job.first as int, job.last + 1);
    if job.item {
        gap + aligned(rows, own, job.first as int) + blank_rows(job.last + 1, job.end + 1)
    } else if job.kind == BlockKind::Prose || job.kind == BlockKind::List {
        gap + aligned(rows, own, job.first as int)
    } else {
        gap + Seq::new(
            rows.len(),
            |k: int| (rows[k], verbatim_range(job.kind, k, rows.len() as int, job.first as int, job.last as int)),
        )
    }
}

/// The rows of jobs `j..`, each from its styled slice cleaned up.
pub open spec fn jobs_rows(lines: Seq<Seq<char>>, jobs: Seq<Job>, styled: Seq<Seq<RowSpans>>, j: int) -> Seq<
    (RowSpans, (int, int)),
>
    decreases jobs.len() - j,
{
    if j < 0 || j >= jobs.len() {
        seq![]
    } else {
        job_rows(lines, jobs[j], styled[j].map_values(|r: RowSpans| refined(r))) + jobs_rows(lines, jobs, styled, j + 1)
    }
}

/// The document as raw text: one unstyled row per line, each its own line.
pub open spec fn raw_rows(md: Seq<char>) -> Seq<(RowSpans, (int, int))> {
    let lines = lines_of(md);
    Seq::new(lines.len(), |i: int| (seq![(lines[i], Style::spec_plain())], (i, i)))
}

/// A document's rows given the styled slices of its jobs (in job order): every job's rows, then
/// blank rows to the end; the raw text when the document cannot be sliced or the slices do not
/// match its jobs.
pub open spec fn md_rows(md: Seq<char>, styled: Seq<Seq<RowSpans>>) -> Seq<(RowSpans, (int, int))> {
    match md_plan(md) {
        Some((jobs, tail)) => if styled.len() == jobs.len() {
            jobs_rows(lines_of(md), jobs, styled, 0) + blank_rows(tail, lines_of(md).len() as int)
        } else {
            raw_rows(md)
        },
        None => raw_rows(md),
    }
}

/// Styled lines as plain values.
pub open spec fn rows_view(v: Seq<StyledLine>) -> Seq<RowSpans> {
    v.map_values(|l: StyledLine| line_view(l))
}

fn copy_line(l: &StyledLine) -> (r: StyledLine)
    ensures
        line_view(r) == line_view(*l),
{
    StyledLine { spans: crate::style::copy_spans(&l.spans) }
}

fn empty_line() -> (r: StyledLine)
    ensures
        line_view(r) == Seq::<(Seq<char>, Style)>::empty(),
{
    let r = StyledLine { spans: Vec::new() };
    assert(line_view(r) =~= Seq::<(Seq<char>, Style)>::empty());
    r
}

/// The output rows so far as plain values.
pub open spec fn out_view(styled: Seq<StyledLine>, source: Seq<(usize, usize)>) -> Seq<(RowSpans, (int, int))> {
    Seq::new(styled.len(), |i: int| (line_view(styled[i]), (source[i].0 as int, source[i].1 as int)))
}

fn push_row(styled: &mut Vec<StyledLine>, source: &mut Vec<(usize, usize)>, row: StyledLine, range: (usize, usize))
    requires
        old(styled)@.len() == old(source)@.len(),
    ensures
        final(styled)@.len() == final(source)@.len(),
        out_view(final(styled)@, final(source)@) == out_view(old(styled)@, old(source)@).push(
            (line_view(row), (range.0 as int, range.1 as int)),
        ),
{
    styled.push(row);
    source.push(range);
    assert(out_view(styled@, source@) =~= out_view(old(styled)@, old(source)@).push(
        (line_view(row), (range.0 as int, range.1 as int)),
    ));
}

fn push_blank_rows(styled: &mut Vec<StyledLine>, source: &mut Vec<(usize, usize)>, from: usize, to: usize)
    requires
        old(styled)@.len() == old(source)@.len(),
    ensures
        final(styled)@.len() == final(source)@.len(),
        out_view(final(styled)@, final(source)@) == out_view(old(styled)@, old(source)@) + blank_rows(from as int, to as int),
{
    let ghost start = out_view(styled@, source@);
    let mut l = from;
    while l < to
        invariant
            from <= l <= to || (to < from && l == from),
            styled@.len() == source@.len(),
            out_view(styled@, source@) == start + blank_rows(from as int, l as int),
        decreases to - l,
    {
        push_row(styled, source, empty_line(), (l, l));
        proof {
            assert(blank_rows(from as int, l + 1) =~= blank_rows(from as int, l as int).push((seq![], (l as int, l as int))));
        }
        l = l + 1;
    }
    proof {
        if to < from {
            assert(blank_rows(from as int, to as int) =~= Seq::<(RowSpans, (int, int))>::empty());
            assert(blank_rows(from as int, from as int) =~= Seq::<(RowSpans, (int, int))>::empty());
        }
    }
}

fn quote_blank_chars(s: &Vec<char>) -> (b: bool)
    ensures
        b == quote_blank(s@),
{
    let mut i: usize = 0;
    while i < s.len()
        invariant
            i <= s@.len(),
            forall|j: int| 0 <= j < i ==> s@[j] == '>' || is_ws(#[trigger] s@[j]),
        decreases s@.len() - i,
    {
        if !(s[i] == '>' || crate::text::is_whitespace(s[i])) {
            return false;
        }
        i = i + 1;
    }
    true
}

/// Push `rows` (styled from `lines[lo..hi]`, line `lo` being source line `lo`) tagged as
/// `aligned` says.
fn push_aligned(
    styled: &mut Vec<StyledLine>,
    source: &mut Vec<(usize, usize)>,
    rows: &Vec<StyledLine>,
    lines: &Vec<Vec<char>>,
    lo: usize,
    hi: usize,
)
    requires
        old(styled)@.len() == old(source)@.len(),
        lo <= hi <= lines@.len(),
    ensures
        final(styled)@.len() == final(source)@.len(),
        out_view(final(styled)@, final(source)@) == out_view(old(styled)@, old(source)@) + aligned(
            rows_view(rows@),
            lines_view(lines@).subrange(lo as int, hi as int),
            lo as int,
        ),
{
    let ghost rv = rows_view(rows@);
    let ghost lv = lines_view(lines@).subrange(lo as int, hi as int);
    let ghost start = out_view(styled@, source@);
    let mut pairs: Vec<Option<usize>> = Vec::new();
    let mut j: usize = lo;
    let mut k: usize = 0;
    let mut ok = true;
    let ghost full = pair_scan(rv, lv, 0, 0);
    while j < hi && ok
        invariant
            lo <= j <= hi <= lines@.len(),
            k <= rows@.len(),
            !ok ==> !full.2,
            forall|i: int| 0 <= i < pairs@.len() ==> (#[trigger] pairs@[i] matches Some(x) ==> x < k),
            rv == rows_view(rows@),
            lv == lines_view(lines@).subrange(lo as int, hi as int),
            full == pair_scan(rv, lv, 0, 0),
            pairs@.len() == j - lo,
            ({
                let (p, k2, okr) = pair_scan(rv, lv, j - lo, k as int);
                &&& full.0 == pairs@.map_values(|o: Option<usize>| match o {
                    Some(x) => Some(x as int),
                    None => None,
                }) + p
                &&& full.1 == k2
                &&& full.2 == okr
            }),
        decreases hi - j + (if ok { 1int } else { 0int }),
    {
        let ghost pv = pairs@.map_values(|o: Option<usize>| match o {
            Some(x) => Some(x as int),
            None => None,
        });
        let lb = quote_blank_chars(&lines[j]);
        proof {
            assert(lv[j - lo] == lines@[j as int]@);
        }
        let matches = if k < rows.len() {
            let t = crate::render::line_text(&rows[k]);
            proof {
                assert(rv[k as int] == line_view(rows@[k as int]));
            }
            quote_blank_chars(&t) == lb
        } else {
            false
        };
        if matches {
            pairs.push(Some(k));
            proof {
                assert(pairs@.map_values(|o: Option<usize>| match o {
                    Some(x) => Some(x as int),
                    None => None,
                }) =~= pv + seq![Some(k as int)]);
                let (p, k2, okr) = pair_scan(rv, lv, j - lo + 1, k + 1);
                assert(pv + (seq![Some(k as int)] + p) =~= (pv + seq![Some(k as int)]) + p);
            }
            k = k + 1;
            j = j + 1;
        } else if lb {
            pairs.push(None);
            proof {
                assert(pairs@.map_values(|o: Option<usize>| match o {
                    Some(x) => Some(x as int),
                    None => None,
                }) =~= pv + seq![None]);
                let (p, k2, okr) = pair_scan(rv, lv, j - lo + 1, k as int);
                assert(pv + (seq![None] + p) =~= (pv + seq![None]) + p);
            }
            j = j + 1;
        } else {
            ok = false;
        }
    }
    proof {
        if ok {
            assert(j == hi);
            assert(pair_scan(rv, lv, (hi - lo) as int, k as int) == (Seq::<Option<int>>::empty(), k as int, true));
            assert(full.0 =~= pairs@.map_values(|o: Option<usize>| match o {
                Some(x) => Some(x as int),
                None => None,
            }));
        }
    }
    if !ok || k < rows.len() {
        let last: usize = if hi > lo { hi - 1 } else { lo };
        let mut i: usize = 0;
        while i < rows.len()
            invariant
                i <= rows@.len(),
                rv == rows_view(rows@),
                styled@.len() == source@.len(),
                out_view(styled@, source@) == start + rv.subrange(0, i as int).map_values(|r: RowSpans| (r, (lo as int, last as int))),
            decreases rows@.len() - i,
        {
            push_row(styled, source, copy_line(&rows[i]), (lo, last));
            proof {
                assert(rv.subrange(0, i + 1).map_values(|r: RowSpans| (r, (lo as int, last as int))) =~= rv.subrange(0, i as int).map_values(
                    |r: RowSpans| (r, (lo as int, last as int)),
                ).push((rv[i as int], (lo as int, last as int))));
            }
            i = i + 1;
        }
        proof {
            assert(rv.subrange(0, rv.len() as int) =~= rv);
            assert(lv.len() == hi - lo);
        }
    } else {
        let ghost p = full.0;
        proof {
            assert forall|i: int| 0 <= i < p.len() implies (#[trigger] p[i] matches Some(x) ==> 0 <= x < rv.len()) by {
                assert(pairs@[i] matches Some(x) ==> x < k);
            }
        }
        let mut j: usize = lo;
        while j < hi
            invariant
                lo <= j <= hi,
                rv == rows_view(rows@),
                lv == lines_view(lines@).subrange(lo as int, hi as int),
                pairs@.len() == hi - lo,
                p == pairs@.map_values(|o: Option<usize>| match o {
                    Some(x) => Some(x as int),
                    None => None,
                }),
                forall|i: int| 0 <= i < p.len() ==> (#[trigger] p[i] matches Some(x) ==> 0 <= x < rv.len()),
                styled@.len() == source@.len(),
                out_view(styled@, source@) == start + Seq::new(
                    (j - lo) as nat,
                    |i: int|
                        (
                            match p[i] {
                                Some(x) => rv[x],
                                None => seq![],
                            },
                            (lo + i, lo + i),
                        ),
                ),
            decreases hi - j,
        {
            let row = match pairs[j - lo] {
                Some(x) => {
                    assert(p[j - lo] == Some(x as int));
                    copy_line(&rows[x])
                },
                None => empty_line(),
            };
            push_row(styled, source, row, (j, j));
            j = j + 1;
        }
    }
}


/// A job's lines lie inside the document's `n` lines.
pub open spec fn job_ok(job: Job, n: int) -> bool {
    &&& (job.item || job.kind == BlockKind::Prose || job.kind == BlockKind::List) ==> job.first <= job.last + 1
        <= n
    &&& job.item ==> job.last <= job.end && job.end + 1 <= n
    &&& !job.item ==> job.first <= job.last < usize::MAX
    &&& job.b0 <= job.b1
}

proof fn lemma_trim_down_bounds(lines: Seq<Seq<char>>, lo: int, x: int)
    ensures
        lo <= x ==> lo <= trim_down(lines, lo, x) <= x,
        x < lo ==> trim_down(lines, lo, x) == x,
    decreases x - lo,
{
    if x > lo && 0 <= x < lines.len() && is_blank(lines[x]) {
        lemma_trim_down_bounds(lines, lo, x - 1);
    }
}

proof fn lemma_item_jobs_ok(lines: Seq<Seq<char>>, starts: Seq<int>, idx: int, l1: int, gf: int, gt: int, b0: int, b1: int)
    requires
        item_jobs(lines, starts, idx, l1, gf, gt, b0, b1) is Some,
        lines.len() <= usize::MAX,
        l1 >= 0,
        0 <= b0 <= b1 <= usize::MAX,
        forall|i: int| 0 <= i < starts.len() ==> #[trigger] starts[i] >= 0,
    ensures
        forall|i: int|
            0 <= i < item_jobs(lines, starts, idx, l1, gf, gt, b0, b1)->0.len() ==> job_ok(
                #[trigger] item_jobs(lines, starts, idx, l1, gf, gt, b0, b1)->0[i],
                lines.len() as int,
            ),
    decreases starts.len() - idx,
{
    if 0 <= idx < starts.len() {
        let s = starts[idx];
        let end = if idx + 1 < starts.len() { starts[idx + 1] - 1 } else { l1 };
        lemma_trim_down_bounds(lines, s, end);
        lemma_item_jobs_ok(lines, starts, idx + 1, l1, gf, gt, b0, b1);
        let js = item_jobs(lines, starts, idx, l1, gf, gt, b0, b1)->0;
        let rest = item_jobs(lines, starts, idx + 1, l1, gf, gt, b0, b1)->0;
        assert forall|i: int| 0 <= i < js.len() implies job_ok(#[trigger] js[i], lines.len() as int) by {
            if i > 0 {
                assert(js[i] == rest[i - 1]);
            }
        }
    }
}

/// The jobs of a plan, none when it failed.
pub open spec fn plan_jobs(r: Option<(Seq<Job>, int)>) -> Seq<Job> {
    match r {
        Some((js, _c)) => js,
        None => seq![],
    }
}

proof fn lemma_items_from_bound(evs: Seq<(MdEvent, usize, usize)>, i: int, depth: int, slice: Seq<char>, l0: int)
    ensures
        forall|j: int| 0 <= j < items_from(evs, i, depth, slice, l0).len() ==> #[trigger] items_from(evs, i, depth, slice, l0)[j] >= l0,
    decreases evs.len() - i,
{
    if 0 <= i < evs.len() {
        let (e, s, _t) = evs[i];
        let all = items_from(evs, i, depth, slice, l0);
        let d2 = if e == MdEvent::List { depth + 1 } else if e == MdEvent::ListEnd { depth - 1 } else { depth };
        lemma_items_from_bound(evs, i + 1, d2, slice, l0);
        let rest = items_from(evs, i + 1, d2, slice, l0);
        if e == MdEvent::Item && depth == 1 {
            assert(all == seq![l0 + line_of(slice, s as int)] + rest);
            assert forall|j: int| 0 <= j < all.len() implies #[trigger] all[j] >= l0 by {
                if j > 0 {
                    assert(all[j] == rest[j - 1]);
                } else {
                    assert(all[0] == l0 + line_of(slice, s as int));
                }
            }
        } else {
            assert(all == rest);
        }
    }
}

proof fn lemma_plan_ok(md: Seq<char>, lines: Seq<Seq<char>>, blks: Seq<(usize, usize, BlockKind)>, bi: int, cursor: int)
    requires
        plan_from(md, lines, blks, bi, cursor) is Some,
        lines.len() <= usize::MAX,
    ensures
        forall|i: int|
            0 <= i < plan_jobs(plan_from(md, lines, blks, bi, cursor)).len() ==> job_ok(
                #[trigger] plan_jobs(plan_from(md, lines, blks, bi, cursor))[i],
                lines.len() as int,
            ),
    decreases blks.len() - bi,
{
    if 0 <= bi < blks.len() {
        let (js, c) = block_jobs(md, lines, blks[bi], cursor)->0;
        lemma_plan_ok(md, lines, blks, bi + 1, c);
        let (b0, b1, kind) = blks[bi];
        let (l0, l1) = block_lines(md, lines, b0 as int, b1 as int);
        let starts = top_items(byte_slice(md, b0 as int, b1 as int), l0);
        let gap_to = if cursor < l0 { l0 } else { cursor };
        {
            let r = if b1 > 0 { b1 - 1 } else { 0 };
            let rl = line_of(md, r as int) as int;
            lemma_trim_down_bounds(lines, l0, if rl > l0 { rl } else { l0 });
        }
        if kind == BlockKind::List && starts.len() > 0 {
            let sl = byte_slice(md, b0 as int, b1 as int);
            lemma_items_from_bound(md_events(sl), 0, 0, sl, l0);
            lemma_item_jobs_ok(lines, starts, 0, l1, cursor, gap_to, b0 as int, b1 as int);
        } else {
            let r = if b1 > 0 { b1 - 1 } else { 0 };
            let rl = line_of(md, r as int) as int;
            lemma_trim_down_bounds(lines, l0, if rl > l0 { rl } else { l0 });
        }
        let all = plan_jobs(plan_from(md, lines, blks, bi, cursor));
        let rest = plan_jobs(plan_from(md, lines, blks, bi + 1, c));
        assert(all == js + rest);
        assert forall|i: int| 0 <= i < all.len() implies job_ok(#[trigger] all[i], lines.len() as int) by {
            if i >= js.len() {
                assert(all[i] == rest[i - js.len()]);
            } else {
                assert(all[i] == js[i]);
            }
        }
    }
}

/// Push a job's rows (see `job_rows`); `rows` are its styled slice, already cleaned up.
fn push_job_rows(
    styled: &mut Vec<StyledLine>,
    source: &mut Vec<(usize, usize)>,
    lines: &Vec<Vec<char>>,
    job: Job,
    rows: &Vec<StyledLine>,
)
    requires
        old(styled)@.len() == old(source)@.len(),
        job_ok(job, lines@.len() as int),
    ensures
        final(styled)@.len() == final(source)@.len(),
        out_view(final(styled)@, final(source)@) == out_view(old(styled)@, old(source)@) + job_rows(
            lines_view(lines@),
            job,
            rows_view(rows@),
        ),
{
    let ghost start = out_view(styled@, source@);
    let ghost lv = lines_view(lines@);
    let ghost rv = rows_view(rows@);
    let nlines = lines.len();
    push_blank_rows(styled, source, job.gap_from, job.gap_to);
    let ghost after_gap = out_view(styled@, source@);
    if job.item || job.kind == BlockKind::Prose || job.kind == BlockKind::List {
        push_aligned(styled, source, rows, lines, job.first, job.last + 1);
        if job.item {
            push_blank_rows(styled, source, job.last + 1, job.end + 1);
        }
        proof {
            let gap = blank_rows(job.gap_from as int, job.gap_to as int);
            let own = lv.subrange(job.first as int, job.last + 1);
            if job.item {
                assert(out_view(styled@, source@) =~= start + (gap + aligned(rv, own, job.first as int) + blank_rows(job.last + 1, job.end + 1)));
            } else {
                assert(out_view(styled@, source@) =~= start + (gap + aligned(rv, own, job.first as int)));
            }
        }
    } else {
        let n = rows.len();
        let mut k: usize = 0;
        while k < n
            invariant
                k <= n == rows@.len(),
                rv == rows_view(rows@),
                styled@.len() == source@.len(),
                !(job.item || job.kind == BlockKind::Prose || job.kind == BlockKind::List),
                job_ok(job, lines@.len() as int),
                out_view(styled@, source@) == after_gap + Seq::new(
                    k as nat,
                    |i: int| (rv[i], verbatim_range(job.kind, i, n as int, job.first as int, job.last as int)),
                ),
            decreases n - k,
        {
            let l0 = job.first;
            let l1 = job.last;
            let range: (usize, usize) = match job.kind {
                BlockKind::Code => {
                    let s: usize = if (l0 as u128) + 1 + (k as u128) < l1 as u128 { l0 + 1 + k } else { l1 };
                    (s, s)
                },
                BlockKind::Html => {
                    let s: usize = if (l0 as u128) + (k as u128) < l1 as u128 { l0 + k } else { l1 };
                    (s, s)
                },
                _ => crate::render::table_range(k, n, l0, l1),
            };
            proof {
                assert(rv[k as int] == line_view(rows@[k as int]));
            }
            push_row(styled, source, copy_line(&rows[k]), range);
            proof {
                assert(Seq::new(
                    (k + 1) as nat,
                    |i: int| (rv[i], verbatim_range(job.kind, i, n as int, job.first as int, job.last as int)),
                ) =~= Seq::new(
                    k as nat,
                    |i: int| (rv[i], verbatim_range(job.kind, i, n as int, job.first as int, job.last as int)),
                ).push((rv[k as int], verbatim_range(job.kind, k as int, n as int, job.first as int, job.last as int))));
            }
            k = k + 1;
        }
        proof {
            assert(out_view(styled@, source@) =~= start + job_rows(lv, job, rv));
        }
    }
}


fn push_raw_rows(styled: &mut Vec<StyledLine>, source: &mut Vec<(usize, usize)>, lines: &Vec<Vec<char>>)
    requires
        old(styled)@.len() == old(source)@.len(),
    ensures
        final(styled)@.len() == final(source)@.len(),
        out_view(final(styled)@, final(source)@) == out_view(old(styled)@, old(source)@) + Seq::new(
            lines@.len(),
            |i: int| (seq![(lines@[i]@, Style::spec_plain())], (i, i)),
        ),
{
    let ghost start = out_view(styled@, source@);
    let mut i: usize = 0;
    while i < lines.len()
        invariant
            i <= lines@.len(),
            styled@.len() == source@.len(),
            out_view(styled@, source@) == start + Seq::new(
                i as nat,
                |j: int| (seq![(lines@[j]@, Style::spec_plain())], (j, j)),
            ),
        decreases lines@.len() - i,
    {
        let row = crate::render::single_line(lines[i].as_slice(), Style::plain());
        push_row(styled, source, row, (i, i));
        proof {
            assert(Seq::new((i + 1) as nat, |j: int| (seq![(lines@[j]@, Style::spec_plain())], (j, j))) =~= Seq::new(
                i as nat,
                |j: int| (seq![(lines@[j]@, Style::spec_plain())], (j, j)),
            ).push((seq![(lines@[i as int]@, Style::spec_plain())], (i as int, i as int))));
        }
        i = i + 1;
    }
}

fn refine_rows(rows: &Vec<StyledLine>) -> (out: Vec<StyledLine>)
    ensures
        rows_view(out@) == rows_view(rows@).map_values(|r: RowSpans| refined(r)),
{
    let mut out: Vec<StyledLine> = Vec::new();
    let mut i: usize = 0;
    while i < rows.len()
        invariant
            i <= rows@.len(),
            out@.len() == i,
            forall|j: int| 0 <= j < i ==> line_view(#[trigger] out@[j]) == refined(line_view(rows@[j])),
        decreases rows@.len() - i,
    {
        out.push(refine_line(&rows[i]));
        i = i + 1;
    }
    assert(rows_view(out@) =~= rows_view(rows@).map_values(|r: RowSpans| refined(r)));
    out
}

/// The styled slices as plain values.
pub open spec fn slices_view(v: Seq<Vec<StyledLine>>) -> Seq<Seq<RowSpans>> {
    v.map_values(|s: Vec<StyledLine>| rows_view(s@))
}

/// The rows of `md` given the styled slices of its jobs, in job order (see `md_rows`), as
/// styled lines and their source ranges.
pub fn assemble_markdown(md: &str, slices: &Vec<Vec<StyledLine>>) -> (r: (Vec<StyledLine>, Vec<(usize, usize)>))
    ensures
        r.0@.len() == r.1@.len(),
        out_view(r.0@, r.1@) == md_rows(md@, slices_view(slices@)),
{
    let chars = chars_of(md);
    let lines = split_lines(chars.as_slice());
    let ghost lv = lines_view(lines@);
    assert(lv == lines_of(md@));
    let mut styled: Vec<StyledLine> = Vec::new();
    let mut source: Vec<(usize, usize)> = Vec::new();
    assert(out_view(styled@, source@) =~= Seq::<(RowSpans, (int, int))>::empty());
    let planned = plan(md);
    let (jobs, tail) = match planned {
        Some(p) => p,
        None => {
            push_raw_rows(&mut styled, &mut source, &lines);
            proof {
                assert(out_view(styled@, source@) =~= raw_rows(md@));
            }
            return (styled, source);
        },
    };
    if jobs.len() != slices.len() {
        push_raw_rows(&mut styled, &mut source, &lines);
        proof {
            assert(out_view(styled@, source@) =~= raw_rows(md@));
        }
        return (styled, source);
    }
    let nlines = lines.len();
    proof {
        lemma_plan_ok(md@, lv, spec_blocks(md_events(md@)), 0, 0);
        assert(plan_jobs(md_plan(md@)) == jobs@);
    }
    let ghost sv = slices_view(slices@);
    let mut j: usize = 0;
    while j < jobs.len()
        invariant
            j <= jobs@.len() == slices@.len(),
            lv == lines_view(lines@),
            sv == slices_view(slices@),
            forall|i: int| 0 <= i < jobs@.len() ==> job_ok(#[trigger] jobs@[i], lines@.len() as int),
            styled@.len() == source@.len(),
            out_view(styled@, source@) + jobs_rows(lv, jobs@, sv, j as int) == jobs_rows(lv, jobs@, sv, 0),
        decreases jobs@.len() - j,
    {
        let ghost before = out_view(styled@, source@);
        let rows = refine_rows(&slices[j]);
        proof {
            assert(sv[j as int] == rows_view(slices@[j as int]@));
            assert(job_ok(jobs@[j as int], lines@.len() as int));
        }
        push_job_rows(&mut styled, &mut source, &lines, jobs[j], &rows);
        proof {
            assert(out_view(styled@, source@) + jobs_rows(lv, jobs@, sv, j + 1) =~= before + jobs_rows(lv, jobs@, sv, j as int));
        }
        j = j + 1;
    }
    let ghost body = out_view(styled@, source@);
    push_blank_rows(&mut styled, &mut source, tail, lines.len());
    proof {
        assert(body + Seq::<(RowSpans, (int, int))>::empty() =~= body);
    }
    (styled, source)
}

/// Lines joined with `'\n'` between them.
pub open spec fn joined_lines(ls: Seq<Seq<char>>) -> Seq<char>
    decreases ls.len(),
{
    if ls.len() == 0 {
        seq![]
    } else if ls.len() == 1 {
        ls[0]
    } else {
        joined_lines(ls.drop_last()) + seq!['\n'] + ls.last()
    }
}

/// The text a job styles, before the reference definitions: a list item's lines, else the
/// block's own bytes.
pub open spec fn slice_text(md: Seq<char>, job: Job) -> Seq<char> {
    if job.item {
        joined_lines(lines_of(md).subrange(job.first as int, job.end + 1))
    } else {
        byte_slice(md, job.b0 as int, job.b1 as int)
    }
}

fn push_joined(out: &mut Vec<char>, lines: &Vec<Vec<char>>, lo: usize, hi: usize)
    requires
        lo < hi <= lines@.len(),
    ensures
        final(out)@ == old(out)@ + joined_lines(lines_view(lines@).subrange(lo as int, hi as int)),
{
    let ghost start = old(out)@;
    let ghost lv = lines_view(lines@);
    crate::text::push_chars(out, lines[lo].as_slice());
    proof {
        assert(lv.subrange(lo as int, lo + 1) =~= seq![lines@[lo as int]@]);
    }
    let mut i = lo + 1;
    while i < hi
        invariant
            lo < i <= hi <= lines@.len(),
            lv == lines_view(lines@),
            out@ == start + joined_lines(lv.subrange(lo as int, i as int)),
        decreases hi - i,
    {
        out.push('\n');
        crate::text::push_chars(out, lines[i].as_slice());
        proof {
            assert(lv.subrange(lo as int, i + 1).drop_last() =~= lv.subrange(lo as int, i as int));
            assert(out@ =~= start + joined_lines(lv.subrange(lo as int, i + 1)));
        }
        i = i + 1;
    }
}

/// Reference definitions `(label, destination)` as plain values.
pub open spec fn defs_view(d: Seq<(String, String)>) -> Seq<(Seq<char>, Seq<char>)> {
    d.map_values(|p: (String, String)| (p.0@, p.1@))
}

/// The definitions `d` written out as `\n\n[label]: destination` lines, in order.
pub open spec fn ref_defs_chars(d: Seq<(Seq<char>, Seq<char>)>) -> Seq<char>
    decreases d.len(),
{
    if d.len() == 0 {
        seq![]
    } else {
        ref_defs_chars(d.drop_last()) + seq!['\n', '\n', '['] + d.last().0 + seq![']', ':', ' '] + d.last().1
    }
}

/// Write the reference definitions `defs` out as `\n\n[label]: destination` lines, in order.
pub fn defs_text(defs: &Vec<(String, String)>) -> (s: Vec<char>)
    ensures
        s@ == ref_defs_chars(defs_view(defs@)),
{
    let ghost dv = defs_view(defs@);
    let mut out: Vec<char> = Vec::new();
    let mut i: usize = 0;
    while i < defs.len()
        invariant
            i <= defs@.len(),
            dv == defs_view(defs@),
            out@ == ref_defs_chars(dv.subrange(0, i as int)),
        decreases defs@.len() - i,
    {
        let ghost before = out@;
        out.push('\n');
        out.push('\n');
        out.push('[');
        crate::text::push_str_chars(&mut out, defs[i].0.as_str());
        out.push(']');
        out.push(':');
        out.push(' ');
        crate::text::push_str_chars(&mut out, defs[i].1.as_str());
        proof {
            assert(dv.subrange(0, i + 1).drop_last() =~= dv.subrange(0, i as int));
            assert(dv.subrange(0, i + 1).last() == (defs@[i as int].0@, defs@[i as int].1@));
            assert(out@ =~= ref_defs_chars(dv.subrange(0, i + 1)));
        }
        i = i + 1;
    }
    assert(dv.subrange(0, defs@.len() as int) =~= dv);
    out
}

/// `d` lists the reference definitions of `md`, each once, in some order.
pub open spec fn lists_ref_defs(d: Seq<(Seq<char>, Seq<char>)>, md: Seq<char>) -> bool {
    d.no_duplicates() && d.to_set() == md_ref_defs(md)
}

/// The reference definitions of `md` as `\n\n[label]: destination` lines, each definition once, in
/// the parser's order (which is not claimed).
fn ref_defs_text(md: &str) -> (s: Vec<char>)
    ensures
        exists|d: Seq<(Seq<char>, Seq<char>)>| #[trigger] lists_ref_defs(d, md@) && s@ == ref_defs_chars(d),
{
    let defs = reference_definitions(md);
    let s = defs_text(&defs);
    proof {
        assert(lists_ref_defs(defs_view(defs@), md@));
        assert(s@ == ref_defs_chars(defs_view(defs@)));
    }
    s
}

/// Each text is its job's slice followed by one suffix common to all of them.
pub open spec fn slices_share_suffix(md: Seq<char>, jobs: Seq<Job>, texts: Seq<String>) -> bool {
    &&& forall|j: int|
        0 <= j < texts.len() ==> crate::ui::is_prefix(slice_text(md, jobs[j]), (#[trigger] texts[j])@)
    &&& forall|j: int, k: int|
        0 <= j < texts.len() && 0 <= k < texts.len() ==> (#[trigger] texts[j])@.subrange(
            slice_text(md, jobs[j]).len() as int,
            texts[j]@.len() as int,
        ) == (#[trigger] texts[k])@.subrange(slice_text(md, jobs[k]).len() as int, texts[k]@.len() as int)
}

/// The texts the front-end styles for `md`, one per job in order: each job's slice followed by
/// the document's reference definitions, every one of them once, written the same way after
/// every slice, so reference links still resolve. `None` when the document cannot be sliced and
/// is shown raw.
pub fn markdown_slices(md: &str) -> (r: Option<Vec<String>>)
    ensures
        md_plan(md@) is None <==> r is None,
        r matches Some(texts) ==> texts@.len() == plan_jobs(md_plan(md@)).len() && slices_share_suffix(
            md@,
            plan_jobs(md_plan(md@)),
            texts@,
        ) && exists|d: Seq<(Seq<char>, Seq<char>)>|
            #[trigger] lists_ref_defs(d, md@) && forall|i: int|
                0 <= i < texts@.len() ==> (#[trigger] texts@[i])@ == slice_text(md@, plan_jobs(md_plan(md@))[i])
                    + ref_defs_chars(d),
{
    let (jobs, _tail) = match plan(md) {
        Some(p) => p,
        None => return None,
    };
    let ix = Indexed::new(md);
    let lines = split_lines(ix.chars.as_slice());
    let ghost lv = lines_view(lines@);
    assert(lv == lines_of(md@));
    let nlines = lines.len();
    proof {
        lemma_plan_ok(md@, lv, spec_blocks(md_events(md@)), 0, 0);
        assert(plan_jobs(md_plan(md@)) == jobs@);
    }
    let defs = ref_defs_text(md);
    let mut texts: Vec<String> = Vec::new();
    let mut j: usize = 0;
    while j < jobs.len()
        invariant
            j <= jobs@.len(),
            ix.wf(),
            ix.chars@ == md@,
            lv == lines_view(lines@),
            lv == lines_of(md@),
            jobs@ == plan_jobs(md_plan(md@)),
            nlines == lines@.len(),
            forall|i: int| 0 <= i < jobs@.len() ==> job_ok(#[trigger] jobs@[i], lines@.len() as int),
            texts@.len() == j,
            forall|i: int| 0 <= i < j ==> (#[trigger] texts@[i])@ == slice_text(md@, jobs@[i]) + defs@,
        decreases jobs@.len() - j,
    {
        let job = jobs[j];
        proof {
            assert(job_ok(jobs@[j as int], lines@.len() as int));
        }
        let mut t: Vec<char> = Vec::new();
        if job.item {
            if job.first <= job.end {
                push_joined(&mut t, &lines, job.first, job.end + 1);
            } else {
                proof {
                    assert(lv.subrange(job.first as int, job.end + 1) =~= Seq::<Seq<char>>::empty());
                    assert(t@ =~= joined_lines(lv.subrange(job.first as int, job.end + 1)));
                }
            }
        } else {
            t = ix.slice(job.b0, job.b1);
        }
        let ghost tv = t@;
        assert(tv == slice_text(md@, job));
        crate::text::push_chars(&mut t, defs.as_slice());
        texts.push(string_of(t.as_slice()));
        j = j + 1;
    }
    proof {
        assert forall|j: int| 0 <= j < texts@.len() implies crate::ui::is_prefix(slice_text(md@, jobs@[j]), (#[trigger] texts@[j])@) by {
            let st = slice_text(md@, jobs@[j]);
            assert(texts@[j]@.subrange(0, st.len() as int) =~= st);
        }
        let d = choose|d: Seq<(Seq<char>, Seq<char>)>| #[trigger] lists_ref_defs(d, md@) && defs@ == ref_defs_chars(d);
        assert(lists_ref_defs(d, md@));
        assert forall|i: int| 0 <= i < texts@.len() implies (#[trigger] texts@[i])@ == slice_text(
            md@,
            plan_jobs(md_plan(md@))[i],
        ) + ref_defs_chars(d) by {}
        assert forall|j: int, k: int| 0 <= j < texts@.len() && 0 <= k < texts@.len() implies (#[trigger] texts@[j])@.subrange(
            slice_text(md@, jobs@[j]).len() as int,
            texts@[j]@.len() as int,
        ) == (#[trigger] texts@[k])@.subrange(slice_text(md@, jobs@[k]).len() as int, texts@[k]@.len() as int) by {
            let sj = slice_text(md@, jobs@[j]);
            let sk = slice_text(md@, jobs@[k]);
            assert(texts@[j]@.subrange(sj.len() as int, texts@[j]@.len() as int) =~= defs@);
            assert(texts@[k]@.subrange(sk.len() as int, texts@[k]@.len() as int) =~= defs@);
        }
    }
    Some(texts)
}


/// A markdown rendering with the given rows: their styled lines and source ranges, the lines'
/// text joined as the content, each row's pre-formatted flag, and the file's own lines.
pub open spec fn renders_rows(r: crate::render::Rendered, md: Seq<char>, rows: Seq<(RowSpans, (int, int))>) -> bool {
    &&& crate::render::styled_view(r.styled@) == rows.map_values(|x: (RowSpans, (int, int))| x.0)
    &&& r.source@.len() == rows.len()
    &&& forall|i: int|
        0 <= i < rows.len() ==> (#[trigger] r.source@[i]).0 as int == rows[i].1.0 && r.source@[i].1 as int
            == rows[i].1.1
    &&& r.content@ == joined_lines(rows.map_values(|x: (RowSpans, (int, int))| spans_text(x.0)))
    &&& r.nowrap@ == rows.map_values(|x: (RowSpans, (int, int))| is_nowrap(x.0))
    &&& crate::render::strings_view(r.source_lines@) == lines_of(md)
    &&& r.error is None
}

fn finish(md: &str, styled: Vec<StyledLine>, source: Vec<(usize, usize)>) -> (r: crate::render::Rendered)
    requires
        styled@.len() == source@.len(),
    ensures
        renders_rows(r, md@, out_view(styled@, source@)),
{
    let ghost rows = out_view(styled@, source@);
    let mut content: Vec<char> = Vec::new();
    let mut nowrap: Vec<bool> = Vec::new();
    let mut i: usize = 0;
    while i < styled.len()
        invariant
            i <= styled@.len() == source@.len(),
            rows == out_view(styled@, source@),
            content@ == joined_lines(rows.subrange(0, i as int).map_values(|x: (RowSpans, (int, int))| spans_text(x.0))),
            nowrap@ == rows.subrange(0, i as int).map_values(|x: (RowSpans, (int, int))| is_nowrap(x.0)),
        decreases styled@.len() - i,
    {
        let ghost texts = rows.subrange(0, i + 1).map_values(|x: (RowSpans, (int, int))| spans_text(x.0));
        if i > 0 {
            content.push('\n');
        }
        let t = crate::render::line_text(&styled[i]);
        crate::text::push_chars(&mut content, t.as_slice());
        nowrap.push(classify_line(&styled[i]));
        proof {
            assert(rows[i as int].0 == line_view(styled@[i as int]));
            assert(texts.drop_last() =~= rows.subrange(0, i as int).map_values(|x: (RowSpans, (int, int))| spans_text(x.0)));
            if i == 0 {
                assert(texts =~= seq![spans_text(line_view(styled@[0]))]);
            }
            assert(content@ =~= joined_lines(texts));
            assert(nowrap@ =~= rows.subrange(0, i + 1).map_values(|x: (RowSpans, (int, int))| is_nowrap(x.0)));
        }
        i = i + 1;
    }
    let source_lines = crate::render::line_strings(md);
    let r = crate::render::Rendered {
        content: string_of(content.as_slice()),
        styled,
        nowrap,
        source,
        source_lines,
        error: None,
    };
    proof {
        assert(rows.subrange(0, rows.len() as int) =~= rows);
        assert(crate::render::styled_view(r.styled@) =~= rows.map_values(|x: (RowSpans, (int, int))| x.0));
    }
    r
}

/// Render markdown from the styled slices of its jobs (see `md_rows` and `renders_rows`).
pub fn render_markdown(md: &str, slices: &Vec<Vec<StyledLine>>) -> (r: crate::render::Rendered)
    ensures
        renders_rows(r, md@, md_rows(md@, slices_view(slices@))),
{
    let (styled, source) = assemble_markdown(md, slices);
    finish(md, styled, source)
}

/// Markdown shown as raw text, one unstyled row per line, when styling it failed.
pub fn render_markdown_raw(md: &str) -> (r: crate::render::Rendered)
    ensures
        renders_rows(r, md@, raw_rows(md@)),
{
    let chars = chars_of(md);
    let lines = split_lines(chars.as_slice());
    let mut styled: Vec<StyledLine> = Vec::new();
    let mut source: Vec<(usize, usize)> = Vec::new();
    assert(out_view(styled@, source@) =~= Seq::<(RowSpans, (int, int))>::empty());
    push_raw_rows(&mut styled, &mut source, &lines);
    proof {
        assert(out_view(styled@, source@) =~= raw_rows(md@));
    }
    finish(md, styled, source)
}

} // verus!
