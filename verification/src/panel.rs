//! A file's review state: its lines, cursor, highlight, review threads and their assembly,
//! and the visual rows the panel lays out into.

use vstd::prelude::*;

use crate::text::{chars_of, lines_of, next_space, push_chars, slice_chars, split_lines, split_on_spaces, split_spaces, string_of, utf8_of};
use crate::wrap::{lemma_wrap_rows_fit, rows_view, words_view, wrap_items, wrap_rows};

verus! {

/// The number of leading `' '` characters.
pub open spec fn leading_spaces(s: Seq<char>) -> nat
    decreases s.len(),
{
    if s.len() > 0 && s[0] == ' ' {
        1 + leading_spaces(s.subrange(1, s.len() as int))
    } else {
        0
    }
}

/// The single-space pieces of `s`, each joined to the one before by a space.
pub open spec fn space_words(s: Seq<char>) -> Seq<(char, Seq<char>)> {
    split_spaces(s).map_values(|w: Seq<char>| (' ', w))
}

/// Greedy word-wrap of `text` to `width` columns: the leading indentation is split off, the rest
/// is wrapped word by word (its single-space pieces, the indentation narrowing row 0), and the
/// indentation is put back on row 0 (see `wrap_rows`).
pub open spec fn wrapped(text: Seq<char>, width: nat) -> Seq<Seq<char>> {
    let lead = leading_spaces(text);
    wrap_rows(
        text.subrange(0, lead as int),
        space_words(text.subrange(lead as int, text.len() as int)),
        width,
        true,
    )
}

proof fn lemma_leading_spaces(s: Seq<char>, k: int)
    requires
        0 <= k <= s.len(),
        forall|j: int| 0 <= j < k ==> s[j] == ' ',
        k == s.len() || s[k] != ' ',
    ensures
        leading_spaces(s) == k,
    decreases k,
{
    if k > 0 {
        let t = s.subrange(1, s.len() as int);
        lemma_leading_spaces(t, k - 1);
    }
}

/// Greedy word-wrap `text` to `width` columns, hard-splitting over-long words (see `wrapped`).
/// Always returns at least one row.
pub fn wrap_line(text: &str, width: usize) -> (rows: Vec<String>)
    requires
        width >= 1,
    ensures
        rows@.map_values(|r: String| r@) == wrapped(text@, width as nat),
{
    let chars = chars_of(text);
    let mut lead: usize = 0;
    while lead < chars.len() && chars[lead] == ' '
        invariant
            lead <= chars@.len(),
            forall|j: int| 0 <= j < lead ==> chars@[j] == ' ',
        decreases chars@.len() - lead,
    {
        lead = lead + 1;
    }
    proof {
        lemma_leading_spaces(chars@, lead as int);
    }
    let indent = slice_chars(chars.as_slice(), 0, lead);
    let body = slice_chars(chars.as_slice(), lead, chars.len());
    let pieces = split_on_spaces(body.as_slice());
    let mut words: Vec<(char, Vec<char>)> = Vec::new();
    let mut k: usize = 0;
    while k < pieces.len()
        invariant
            k <= pieces@.len(),
            words@.len() == k,
            forall|j: int| 0 <= j < k ==> #[trigger] words@[j].0 == ' ' && words@[j].1@ == pieces@[j]@,
        decreases pieces@.len() - k,
    {
        words.push((' ', slice_chars(pieces[k].as_slice(), 0, pieces[k].len())));
        proof {
            assert(pieces@[k as int]@.subrange(0, pieces@[k as int]@.len() as int) =~= pieces@[k as int]@);
        }
        k = k + 1;
    }
    proof {
        assert(words_view(words@) =~= space_words(body@));
        assert(body@ =~= text@.subrange(lead as int, text@.len() as int));
        assert(indent@ =~= text@.subrange(0, lead as int));
    }
    let rows = wrap_items(&indent, &words, width, true);
    let mut out: Vec<String> = Vec::new();
    let mut i: usize = 0;
    while i < rows.len()
        invariant
            i <= rows@.len(),
            out@.len() == i,
            forall|j: int| 0 <= j < i ==> #[trigger] out@[j]@ == rows@[j]@,
        decreases rows@.len() - i,
    {
        out.push(string_of(rows[i].as_slice()));
        i = i + 1;
    }
    assert(out@.map_values(|r: String| r@) =~= rows_view(rows@));
    out
}

/// Wrapping always yields at least one row; every row fits in `width` characters, except that
/// row 0 carries the line's leading indentation on top of that.
pub proof fn lemma_wrapped_rows_fit(text: Seq<char>, width: nat)
    requires
        width >= 1,
    ensures
        wrapped(text, width).len() >= 1,
        forall|i: int| 1 <= i < wrapped(text, width).len() ==> #[trigger] wrapped(text, width)[i].len() <= width,
        wrapped(text, width)[0].len() <= leading_spaces(text) + width,
{
    let lead = leading_spaces(text);
    lemma_leading_bound(text);
    lemma_wrap_rows_fit(
        text.subrange(0, lead as int),
        space_words(text.subrange(lead as int, text.len() as int)),
        width,
        true,
    );
}

proof fn lemma_leading_bound(s: Seq<char>)
    ensures
        leading_spaces(s) <= s.len(),
    decreases s.len(),
{
    if s.len() > 0 && s[0] == ' ' {
        lemma_leading_bound(s.subrange(1, s.len() as int));
    }
}

/// `ESC [ 200 ~`, `text`, `ESC [ 201 ~`, then a carriage return when `submit`.
pub open spec fn bracketed_text(text: Seq<char>, submit: bool) -> Seq<char> {
    seq!['\u{1b}', '[', '2', '0', '0', '~'] + text + seq!['\u{1b}', '[', '2', '0', '1', '~'] + (if submit {
        seq!['\r']
    } else {
        seq![]
    })
}

/// The paste end marker `ESC [ 201 ~` starts at index `j` of `s`.
pub open spec fn end_marker_at(s: Seq<char>, j: int) -> bool {
    &&& 0 <= j
    &&& j + 6 <= s.len()
    &&& s[j] == '\u{1b}'
    &&& s[j + 1] == '['
    &&& s[j + 2] == '2'
    &&& s[j + 3] == '0'
    &&& s[j + 4] == '1'
    &&& s[j + 5] == '~'
}

/// `text` with the escape of every embedded end marker shown as `␛` (U+241B), so the text cannot
/// close the paste early; every other character is kept.
pub open spec fn neutralised(text: Seq<char>) -> Seq<char> {
    Seq::new(text.len(), |j: int| if end_marker_at(text, j) { '\u{241b}' } else { text[j] })
}

/// Neutralised text holds no end marker.
pub proof fn lemma_neutralised_has_no_end_marker(text: Seq<char>, j: int)
    ensures
        !end_marker_at(neutralised(text), j),
{
    let n = neutralised(text);
    if end_marker_at(n, j) {
        assert(n[j] == text[j]);
        assert(n[j + 1] == text[j + 1]);
        assert(n[j + 2] == text[j + 2]);
        assert(n[j + 3] == text[j + 3]);
        assert(n[j + 4] == text[j + 4]);
        assert(n[j + 5] == text[j + 5]);
        assert(end_marker_at(text, j));
    }
}

/// Wrap `text` in bracketed paste (`ESC[200~ … ESC[201~`) for PTY injection: newlines stay inside
/// the markers so a line-reading REPL doesn't submit early; an end marker inside `text` is
/// neutralised so the paste cannot close before its end; `submit` appends one trailing `\r`
/// (outside the markers) to submit once.
pub fn bracketed_paste(text: &str, submit: bool) -> (b: Vec<u8>)
    ensures
        b@ == vstd::utf8::encode_utf8(bracketed_text(neutralised(text@), submit)),
        forall|j: int| !end_marker_at(#[trigger] neutralised(text@), j),
{
    let mut out: Vec<char> = Vec::new();
    out.push('\u{1b}');
    out.push('[');
    out.push('2');
    out.push('0');
    out.push('0');
    out.push('~');
    let t = chars_of(text);
    let ghost head = out@;
    let ghost n = neutralised(t@);
    let mut i: usize = 0;
    while i < t.len()
        invariant
            i <= t@.len(),
            t@ == text@,
            n == neutralised(t@),
            out@ == head + n.subrange(0, i as int),
        decreases t@.len() - i,
    {
        let at_marker = t.len() >= 6 && i <= t.len() - 6 && t[i] == '\u{1b}' && t[i + 1] == '[' && t[i + 2] == '2' && t[i + 3]
            == '0' && t[i + 4] == '1' && t[i + 5] == '~';
        assert(at_marker == end_marker_at(t@, i as int));
        if at_marker {
            out.push('\u{241b}');
        } else {
            out.push(t[i]);
        }
        i = i + 1;
        assert(out@ =~= head + n.subrange(0, i as int));
    }
    assert(n.subrange(0, t@.len() as int) =~= n);
    out.push('\u{1b}');
    out.push('[');
    out.push('2');
    out.push('0');
    out.push('1');
    out.push('~');
    if submit {
        out.push('\r');
    }
    assert(out@ =~= bracketed_text(neutralised(text@), submit));
    assert forall|j: int| !end_marker_at(#[trigger] neutralised(text@), j) by {
        lemma_neutralised_has_no_end_marker(text@, j);
    }
    utf8_of(out.as_slice())
}

} // verus!

verus! {

/// Who wrote a note. `Agent` carries its label; the human is always `User`.
#[derive(Debug, Clone, PartialEq, Eq)]
pub enum Author {
    User,
    Agent(String),
}

/// One note in a thread — an author and its body.
#[derive(Debug, Clone, PartialEq, Eq)]
pub struct Note {
    pub author: Author,
    pub body: String,
}

/// A thread pinned to a rendered-line index; root first, replies newest last.
#[derive(Debug, Clone, PartialEq, Eq)]
pub struct Thread {
    pub line: usize,
    /// Card show/hide and gutter-caret shape. Starts expanded.
    pub collapsed: bool,
    pub root: Note,
    pub replies: Vec<Note>,
}

/// An author as plain values.
pub enum AuthorView {
    User,
    Agent(Seq<char>),
}

/// A note as plain values.
pub struct NoteView {
    pub author: AuthorView,
    pub body: Seq<char>,
}

/// A thread as plain values: its row, whether it is collapsed, and its notes (root first).
pub struct ThreadView {
    pub line: usize,
    pub collapsed: bool,
    pub notes: Seq<NoteView>,
}

pub open spec fn author_view(a: Author) -> AuthorView {
    match a {
        Author::User => AuthorView::User,
        Author::Agent(n) => AuthorView::Agent(n@),
    }
}

pub open spec fn note_view(n: Note) -> NoteView {
    NoteView { author: author_view(n.author), body: n.body@ }
}

pub open spec fn thread_view(t: Thread) -> ThreadView {
    ThreadView {
        line: t.line,
        collapsed: t.collapsed,
        notes: seq![note_view(t.root)] + t.replies@.map_values(|n: Note| note_view(n)),
    }
}

pub open spec fn threads_view(ts: Seq<Thread>) -> Seq<ThreadView> {
    ts.map_values(|t: Thread| thread_view(t))
}

impl Note {
    fn user(body: String) -> (n: Note)
        ensures
            note_view(n) == (NoteView { author: AuthorView::User, body: body@ }),
    {
        Note { author: Author::User, body }
    }
}

impl Thread {
    fn new(line: usize, root: Note) -> (t: Thread)
        ensures
            thread_view(t) == (ThreadView { line, collapsed: false, notes: seq![note_view(root)] }),
    {
        let t = Thread { line, collapsed: false, root, replies: Vec::new() };
        assert(thread_view(t).notes =~= seq![note_view(root)]);
        t
    }

    /// Newest note: the last reply, else the root.
    fn last(&self) -> (n: &Note)
        ensures
            note_view(*n) == thread_view(*self).notes.last(),
    {
        if self.replies.len() > 0 {
            &self.replies[self.replies.len() - 1]
        } else {
            &self.root
        }
    }
}

/// A file's `(modification time, byte length)` change signature.
#[derive(Debug, Clone, Copy, PartialEq, Eq, Structural)]
pub struct FileSig {
    /// The modification time is at or after the Unix epoch (`secs`/`nanos` measure from it,
    /// backwards otherwise).
    pub after_epoch: bool,
    pub secs: u64,
    pub nanos: u32,
    pub len: u64,
}

/// Every character is whitespace (`str::trim` leaves nothing).
pub open spec fn is_blank(s: Seq<char>) -> bool {
    forall|i: int| 0 <= i < s.len() ==> crate::text::is_ws(#[trigger] s[i])
}

/// Whether `s` is all whitespace.
pub fn blank(s: &str) -> (b: bool)
    ensures
        b == is_blank(s@),
{
    let c = chars_of(s);
    let mut i: usize = 0;
    while i < c.len()
        invariant
            i <= c@.len(),
            c@ == s@,
            forall|j: int| 0 <= j < i ==> crate::text::is_ws(s@[j]),
        decreases c@.len() - i,
    {
        if !crate::text::is_whitespace(c[i]) {
            return false;
        }
        i = i + 1;
    }
    true
}

} // verus!

verus! {

/// The first index at or after `i` whose source range meets `s0..=s1`, else `src.len()`.
pub open spec fn first_hit(src: Seq<(usize, usize)>, s0: int, s1: int, i: int) -> int
    decreases src.len() - i,
{
    if i >= src.len() {
        src.len() as int
    } else if src[i].0 <= s1 && src[i].1 >= s0 {
        i
    } else {
        first_hit(src, s0, s1, i + 1)
    }
}

/// The last index below `i` whose source range meets `s0..=s1`, else `-1`.
pub open spec fn last_hit(src: Seq<(usize, usize)>, s0: int, s1: int, i: int) -> int
    decreases i,
{
    if i <= 0 {
        -1
    } else if src[i - 1].0 <= s1 && src[i - 1].1 >= s0 {
        i - 1
    } else {
        last_hit(src, s0, s1, i - 1)
    }
}

/// The first rendered row whose source range holds 0-based source line `s`, else the last row
/// (row 0 when there are none).
pub open spec fn row_of_line(src: Seq<(usize, usize)>, s: int) -> int {
    let f = first_hit(src, s, s, 0);
    if f < src.len() { f } else if src.len() > 0 { src.len() - 1 } else { 0 }
}

/// The index of the first thread on row `line` at or after `i`, else `ts.len()`.
pub open spec fn thread_pos(ts: Seq<ThreadView>, line: int, i: int) -> int
    decreases ts.len() - i,
{
    if i >= ts.len() {
        ts.len() as int
    } else if ts[i].line == line {
        i
    } else {
        thread_pos(ts, line, i + 1)
    }
}

proof fn lemma_first_hit_bounds(src: Seq<(usize, usize)>, s0: int, s1: int, i: int)
    requires
        0 <= i <= src.len(),
    ensures
        i <= first_hit(src, s0, s1, i) <= src.len(),
        first_hit(src, s0, s1, i) < src.len() ==> src[first_hit(src, s0, s1, i)].0 <= s1
            && src[first_hit(src, s0, s1, i)].1 >= s0,
    decreases src.len() - i,
{
    if i < src.len() && !(src[i].0 <= s1 && src[i].1 >= s0) {
        lemma_first_hit_bounds(src, s0, s1, i + 1);
    }
}

proof fn lemma_thread_pos_bounds(ts: Seq<ThreadView>, line: int, i: int)
    requires
        0 <= i <= ts.len(),
    ensures
        i <= thread_pos(ts, line, i) <= ts.len(),
        thread_pos(ts, line, i) < ts.len() ==> ts[thread_pos(ts, line, i)].line == line,
    decreases ts.len() - i,
{
    if i < ts.len() && ts[i].line != line {
        lemma_thread_pos_bounds(ts, line, i + 1);
    }
}

/// An opened file rendered beside the PTY: its text, cursor, highlight, review threads and the
/// git-diff markers against HEAD.
pub struct Panel {
    pub path: String,
    /// Plain-text projection reviews and line counting work off.
    pub content: String,
    /// Styled display lines, one per rendered row.
    pub styled: Vec<crate::style::StyledLine>,
    /// Per-row: pre-formatted lines clip + h-scroll instead of wrapping.
    pub nowrap: Vec<bool>,
    /// 0-based inclusive source-line range each rendered row came from.
    pub source: Vec<(usize, usize)>,
    /// The raw file split into lines.
    pub source_lines: Vec<String>,
    /// Horizontal scroll offset (chars) applied to nowrap lines.
    pub h_offset: usize,
    /// Selected rendered line, 0-based; where a new comment pins.
    pub cursor: usize,
    /// Agent-directed highlight: 0-based inclusive row range to spotlight.
    pub highlight: Option<(usize, usize)>,
    /// Review threads, keyed by rendered row.
    pub threads: Vec<Thread>,
    /// Autoscroll: pin the cursor to the last line on every reload.
    pub follow: bool,
    /// Last-seen source signature; drives reloading.
    pub sig: Option<FileSig>,
    /// Terse read error from the last render.
    pub read_error: Option<String>,
    /// Per-source-line git-diff marker vs HEAD.
    pub changes: Vec<Option<crate::gitdiff::ChangeKind>>,
    /// Latched once when a diff attempt found no `git` binary.
    pub git_missing: bool,
    /// Deleted-line text keyed by the 0-based source line its gap sits before.
    pub removed: Vec<(usize, Vec<String>)>,
    /// Render the panel as an inline `+`/`-` diff vs HEAD instead of the file.
    pub diff_view: bool,
    /// The source changed on disk while notes were open, so the pane holds its snapshot.
    pub source_changed: bool,
}

impl Panel {
    /// The row tables agree in length and every source line number fits in a `u32`.
    pub open spec fn wf(&self) -> bool {
        &&& self.source@.len() == self.styled@.len()
        &&& self.nowrap@.len() == self.styled@.len()
        &&& forall|i: int| 0 <= i < self.source@.len() ==> (#[trigger] self.source@[i]).0 < u32::MAX
    }

    /// The rendered rows' source ranges.
    pub open spec fn source_map(&self) -> Seq<(usize, usize)> {
        self.source@
    }

    /// The raw source lines.
    pub open spec fn source_text(&self) -> Seq<Seq<char>> {
        self.source_lines@.map_values(|s: String| s@)
    }

    /// The threads as plain values.
    pub open spec fn threads_v(&self) -> Seq<ThreadView> {
        threads_view(self.threads@)
    }

    /// Rendered rows, floored at 1: every row the cursor can select, a trailing blank one
    /// included.
    pub open spec fn spec_line_count(&self) -> nat {
        let n = self.styled@.len();
        if n >= 1 { n } else { 1 }
    }

    /// A rendered row mapped to its block's first row; rows past the map stay put.
    pub open spec fn canonical(&self, row: int) -> int {
        if 0 <= row < self.source@.len() {
            row_of_line(self.source@, self.source@[row].0 as int)
        } else {
            row
        }
    }

    /// The index of the thread on row `line`, if any.
    pub open spec fn thread_index(&self, line: int) -> int {
        thread_pos(self.threads_v(), line, 0)
    }

    /// Everything but the threads is as in `other`.
    pub open spec fn same_but_threads(&self, other: &Panel) -> bool {
        &&& self.path == other.path
        &&& self.content == other.content
        &&& self.styled == other.styled
        &&& self.nowrap == other.nowrap
        &&& self.source == other.source
        &&& self.source_lines == other.source_lines
        &&& self.h_offset == other.h_offset
        &&& self.cursor == other.cursor
        &&& self.highlight == other.highlight
        &&& self.follow == other.follow
        &&& self.sig == other.sig
        &&& self.read_error == other.read_error
        &&& self.changes == other.changes
        &&& self.git_missing == other.git_missing
        &&& self.removed == other.removed
        &&& self.diff_view == other.diff_view
        &&& self.source_changed == other.source_changed
    }

    /// Row count, floored at 1 so the cursor always has a valid slot.
    pub fn line_count(&self) -> (n: usize)
        ensures
            n == self.spec_line_count(),
    {
        if self.styled.len() >= 1 { self.styled.len() } else { 1 }
    }

    /// Move the line cursor by `delta`, clamped to `[0, line_count-1]`.
    pub fn move_cursor(&mut self, delta: isize)
        ensures
            final(self).cursor == crate::mouse::clamp(
                old(self).cursor + delta,
                0,
                old(self).spec_line_count() - 1,
            ),
            final(self).threads == old(self).threads,
            final(self).source == old(self).source,
            final(self).styled == old(self).styled,
            final(self).nowrap == old(self).nowrap,
            final(self).content == old(self).content,
            final(self).source_lines == old(self).source_lines,
    {
        let last: i128 = self.line_count() as i128 - 1;
        let want: i128 = self.cursor as i128 + delta as i128;
        let c: i128 = if want < 0 { 0 } else if want > last { last } else { want };
        self.cursor = c as usize;
    }

    /// The index of the first thread on row `line` (see `thread_index`).
    fn thread_at_index(&self, line: usize) -> (r: Option<usize>)
        ensures
            self.thread_index(line as int) < self.threads@.len() ==> (r matches Some(i) && i as int
                == self.thread_index(line as int)),
            self.thread_index(line as int) >= self.threads@.len() ==> r is None,
    {
        let mut i: usize = 0;
        while i < self.threads.len()
            invariant
                i <= self.threads@.len(),
                thread_pos(self.threads_v(), line as int, 0) == thread_pos(
                    self.threads_v(),
                    line as int,
                    i as int,
                ),
            decreases self.threads@.len() - i,
        {
            proof {
                assert(self.threads_v()[i as int].line == self.threads@[i as int].line);
            }
            if self.threads[i].line == line {
                return Some(i);
            }
            i = i + 1;
        }
        None
    }

    /// The thread index is in range, and the thread it names sits on `line`.
    pub proof fn lemma_thread_index(&self, line: int)
        ensures
            0 <= self.thread_index(line) <= self.threads@.len(),
            self.thread_index(line) < self.threads@.len() ==> self.threads@[self.thread_index(line)].line
                == line,
    {
        lemma_thread_pos_bounds(self.threads_v(), line, 0);
        if self.thread_index(line) < self.threads@.len() {
            assert(self.threads_v()[self.thread_index(line)].line == self.threads@[self.thread_index(line)].line);
        }
    }

    /// The thread on rendered line `line`, if any.
    pub fn thread_at(&self, line: usize) -> (t: Option<&Thread>)
        ensures
            self.thread_index(line as int) < self.threads@.len() ==> t == Some(
                &self.threads@[self.thread_index(line as int)],
            ),
            self.thread_index(line as int) >= self.threads@.len() ==> t is None,
    {
        proof {
            self.lemma_thread_index(line as int);
        }
        match self.thread_at_index(line) {
            Some(i) => {
                assert(i as int == self.thread_index(line as int));
                Some(&self.threads[i])
            },
            None => None,
        }
    }

    /// How many threads.
    pub fn thread_count(&self) -> (n: usize)
        ensures
            n == self.threads@.len(),
    {
        self.threads.len()
    }

    /// First rendered row whose source range holds 1-based file `line` (see `row_of_line`).
    fn source_line_to_row(&self, line: u32) -> (r: usize)
        ensures
            r == row_of_line(self.source@, if line >= 1 { line - 1 } else { 0 }),
    {
        let s: usize = if line >= 1 { (line - 1) as usize } else { 0 };
        let mut i: usize = 0;
        while i < self.source.len()
            invariant
                i <= self.source@.len(),
                s as int == (if line >= 1 { line - 1 } else { 0 }),
                first_hit(self.source@, s as int, s as int, 0) == first_hit(
                    self.source@,
                    s as int,
                    s as int,
                    i as int,
                ),
            decreases self.source@.len() - i,
        {
            let (a, b) = self.source[i];
            assert(self.source@[i as int] == (a, b));
            if a <= s && b >= s {
                assert(first_hit(self.source@, s as int, s as int, i as int) == i as int);
                assert(first_hit(self.source@, s as int, s as int, 0) == i as int);
                assert(s as int == (if line >= 1 { line - 1 } else { 0 }));
                return i;
            }
            i = i + 1;
        }
        if self.source.len() > 0 { self.source.len() - 1 } else { 0 }
    }

    /// A rendered `row` mapped to its block's first row — where both write paths key threads.
    fn canonical_row(&self, row: usize) -> (r: usize)
        requires
            self.wf(),
        ensures
            r == self.canonical(row as int),
    {
        if row < self.source.len() {
            let a = self.source[row].0;
            self.source_line_to_row(a as u32 + 1)
        } else {
            row
        }
    }

    /// The thread on the cursor's canonical row, if any.
    pub fn cursor_thread(&self) -> (t: Option<&Thread>)
        requires
            self.wf(),
        ensures
            ({
                let k = self.thread_index(self.canonical(self.cursor as int));
                &&& k < self.threads@.len() ==> t == Some(&self.threads@[k])
                &&& k >= self.threads@.len() ==> t is None
            }),
    {
        let row = self.canonical_row(self.cursor);
        self.thread_at(row)
    }

    /// Toggle collapse of the thread on `line`'s canonical row (no-op if none).
    pub fn toggle_collapsed(&mut self, line: usize)
        requires
            old(self).wf(),
        ensures
            final(self).wf(),
            final(self).same_but_threads(old(self)),
            ({
                let k = old(self).thread_index(old(self).canonical(line as int));
                &&& k < old(self).threads@.len() ==> final(self).threads@ == old(self).threads@.update(
                    k,
                    Thread { collapsed: !old(self).threads@[k].collapsed, ..old(self).threads@[k] },
                )
                &&& k >= old(self).threads@.len() ==> final(self).threads@ == old(self).threads@
            }),
    {
        let row = self.canonical_row(line);
        proof {
            self.lemma_thread_index(row as int);
        }
        let ghost k = old(self).thread_index(old(self).canonical(line as int));
        assert(row as int == old(self).canonical(line as int));
        if let Some(i) = self.thread_at_index(row) {
            assert(i as int == k);
            let mut t = self.threads.remove(i);
            t.collapsed = !t.collapsed;
            self.threads.insert(i, t);
            proof {
                assert(self.threads@ =~= old(self).threads@.update(
                    i as int,
                    Thread { collapsed: !old(self).threads@[i as int].collapsed, ..old(self).threads@[i as int] },
                ));
            }
        }
    }

    /// Set every thread's collapse to `v`.
    pub fn set_all_collapsed(&mut self, v: bool)
        requires
            old(self).wf(),
        ensures
            final(self).wf(),
            final(self).same_but_threads(old(self)),
            final(self).threads@.len() == old(self).threads@.len(),
            forall|i: int| 0 <= i < old(self).threads@.len() ==> #[trigger] final(self).threads@[i] == (Thread {
                collapsed: v,
                ..old(self).threads@[i]
            }),
    {
        let n = self.threads.len();
        let mut i: usize = 0;
        while i < n
            invariant
                n == old(self).threads@.len(),
                i <= n,
                self.threads@.len() == n,
                self.same_but_threads(old(self)),
                forall|j: int| 0 <= j < i ==> #[trigger] self.threads@[j] == (Thread {
                    collapsed: v,
                    ..old(self).threads@[j]
                }),
                forall|j: int| i <= j < n ==> #[trigger] self.threads@[j] == old(self).threads@[j],
            decreases n - i,
        {
            let mut t = self.threads.remove(i);
            t.collapsed = v;
            self.threads.insert(i, t);
            i = i + 1;
        }
    }
}

} // verus!

verus! {

/// What `c` does on the cursor line: start a thread, edit your own newest note, or reply.
#[derive(PartialEq, Eq, Structural)]
pub enum UserIntent {
    New,
    Edit,
    Reply,
}

/// Number of threads whose row is below `row`.
pub open spec fn count_below(ts: Seq<ThreadView>, row: int) -> nat
    decreases ts.len(),
{
    if ts.len() == 0 {
        0
    } else {
        count_below(ts.drop_last(), row) + if ts.last().line > row { 1nat } else { 0 }
    }
}

/// The smallest thread row satisfying `pred`, if any.
pub open spec fn min_line(ts: Seq<ThreadView>, pred: spec_fn(usize) -> bool) -> Option<usize>
    decreases ts.len(),
{
    if ts.len() == 0 {
        None
    } else {
        let rest = min_line(ts.drop_last(), pred);
        let l = ts.last().line;
        if !pred(l) {
            rest
        } else {
            match rest {
                Some(m) => Some(if l < m { l } else { m }),
                None => Some(l),
            }
        }
    }
}

/// The largest thread row satisfying `pred`, if any.
pub open spec fn max_line(ts: Seq<ThreadView>, pred: spec_fn(usize) -> bool) -> Option<usize>
    decreases ts.len(),
{
    if ts.len() == 0 {
        None
    } else {
        let rest = max_line(ts.drop_last(), pred);
        let l = ts.last().line;
        if !pred(l) {
            rest
        } else {
            match rest {
                Some(m) => Some(if l > m { l } else { m }),
                None => Some(l),
            }
        }
    }
}

/// The thread row `n`/`N` jumps to from `row`: the nearest one after (`fwd`) or before it,
/// wrapping to the first/last thread; `None` only with no threads.
pub open spec fn jump_target(ts: Seq<ThreadView>, row: int, fwd: bool) -> Option<usize> {
    if fwd {
        match min_line(ts, |l: usize| l > row) {
            Some(m) => Some(m),
            None => min_line(ts, |l: usize| true),
        }
    } else {
        match max_line(ts, |l: usize| l < row) {
            Some(m) => Some(m),
            None => max_line(ts, |l: usize| true),
        }
    }
}

proof fn lemma_min_line(ts: Seq<ThreadView>, pred: spec_fn(usize) -> bool)
    ensures
        min_line(ts, pred) is None <==> forall|i: int| 0 <= i < ts.len() ==> !pred(#[trigger] ts[i].line),
        min_line(ts, pred) matches Some(x) ==> pred(x) && (exists|i: int| 0 <= i < ts.len() && #[trigger] ts[i].line
            == x) && forall|i: int| 0 <= i < ts.len() && pred(#[trigger] ts[i].line) ==> x <= ts[i].line,
    decreases ts.len(),
{
    if ts.len() > 0 {
        let d = ts.drop_last();
        lemma_min_line(d, pred);
        let last = ts.len() - 1;
        let l = ts[last].line;
        assert(ts.last().line == l);
        assert forall|i: int| 0 <= i < d.len() implies #[trigger] d[i].line == ts[i].line by {}
        let rest = min_line(d, pred);
        if !pred(l) {
            assert(min_line(ts, pred) == rest);
            assert((min_line(ts, pred) is None) ==> forall|i: int| 0 <= i < ts.len() ==> !pred(#[trigger] ts[i].line)) by {
                if rest is None {
                    assert forall|i: int| 0 <= i < ts.len() implies !pred(#[trigger] ts[i].line) by {
                        if i < last {
                            assert(d[i].line == ts[i].line);
                        }
                    }
                }
            }
            match rest {
                Some(x) => {
                    let i = choose|i: int| 0 <= i < d.len() && #[trigger] d[i].line == x;
                    assert(ts[i].line == x);
                    assert forall|j: int| 0 <= j < ts.len() && pred(#[trigger] ts[j].line) implies x <= ts[j].line by {
                        if j < last {
                            assert(d[j].line == ts[j].line);
                        }
                    }
                },
                None => {},
            }
        } else {
            assert(min_line(ts, pred) is Some);
            let x = min_line(ts, pred)->0;
            match rest {
                Some(m) => {
                    if x == m {
                        let i = choose|i: int| 0 <= i < d.len() && #[trigger] d[i].line == m;
                        assert(ts[i].line == x);
                    } else {
                        assert(ts[last].line == x);
                    }
                },
                None => {
                    assert(ts[last].line == x);
                },
            }
            assert forall|j: int| 0 <= j < ts.len() && pred(#[trigger] ts[j].line) implies x <= ts[j].line by {
                if j < last {
                    assert(d[j].line == ts[j].line);
                }
            }
        }
    }
}

proof fn lemma_max_line(ts: Seq<ThreadView>, pred: spec_fn(usize) -> bool)
    ensures
        max_line(ts, pred) is None <==> forall|i: int| 0 <= i < ts.len() ==> !pred(#[trigger] ts[i].line),
        max_line(ts, pred) matches Some(x) ==> pred(x) && (exists|i: int| 0 <= i < ts.len() && #[trigger] ts[i].line
            == x) && forall|i: int| 0 <= i < ts.len() && pred(#[trigger] ts[i].line) ==> ts[i].line <= x,
    decreases ts.len(),
{
    if ts.len() > 0 {
        let d = ts.drop_last();
        lemma_max_line(d, pred);
        let last = ts.len() - 1;
        let l = ts[last].line;
        assert(ts.last().line == l);
        assert forall|i: int| 0 <= i < d.len() implies #[trigger] d[i].line == ts[i].line by {}
        let rest = max_line(d, pred);
        if !pred(l) {
            assert(max_line(ts, pred) == rest);
            assert((max_line(ts, pred) is None) ==> forall|i: int| 0 <= i < ts.len() ==> !pred(#[trigger] ts[i].line)) by {
                if rest is None {
                    assert forall|i: int| 0 <= i < ts.len() implies !pred(#[trigger] ts[i].line) by {
                        if i < last {
                            assert(d[i].line == ts[i].line);
                        }
                    }
                }
            }
            match rest {
                Some(x) => {
                    let i = choose|i: int| 0 <= i < d.len() && #[trigger] d[i].line == x;
                    assert(ts[i].line == x);
                    assert forall|j: int| 0 <= j < ts.len() && pred(#[trigger] ts[j].line) implies ts[j].line <= x by {
                        if j < last {
                            assert(d[j].line == ts[j].line);
                        }
                    }
                },
                None => {},
            }
        } else {
            assert(max_line(ts, pred) is Some);
            let x = max_line(ts, pred)->0;
            match rest {
                Some(m) => {
                    if x == m {
                        let i = choose|i: int| 0 <= i < d.len() && #[trigger] d[i].line == m;
                        assert(ts[i].line == x);
                    } else {
                        assert(ts[last].line == x);
                    }
                },
                None => {
                    assert(ts[last].line == x);
                },
            }
            assert forall|j: int| 0 <= j < ts.len() && pred(#[trigger] ts[j].line) implies ts[j].line <= x by {
                if j < last {
                    assert(d[j].line == ts[j].line);
                }
            }
        }
    }
}

/// `n`/`p` go to the nearest thread: with no threads there is nowhere to go; a forward jump lands
/// on a thread row after `row` with no thread row strictly between (or, past the last one, wraps
/// to the first thread row); a backward jump lands on a thread row before `row` with none strictly
/// between (or wraps to the last thread row).
pub proof fn lemma_jump_is_nearest(ts: Seq<ThreadView>, row: int, fwd: bool)
    ensures
        jump_target(ts, row, fwd) is None <==> ts.len() == 0,
        jump_target(ts, row, fwd) matches Some(x) ==> exists|i: int| 0 <= i < ts.len() && #[trigger] ts[i].line == x,
        fwd && (exists|i: int| 0 <= i < ts.len() && #[trigger] ts[i].line > row) ==> (jump_target(ts, row, fwd) matches Some(
            x,
        ) && x > row && forall|i: int| 0 <= i < ts.len() && #[trigger] ts[i].line > row ==> x <= ts[i].line),
        fwd && (forall|i: int| 0 <= i < ts.len() ==> #[trigger] ts[i].line <= row) ==> (jump_target(ts, row, fwd) matches Some(
            x,
        ) ==> forall|i: int| 0 <= i < ts.len() ==> x <= #[trigger] ts[i].line),
        !fwd && (exists|i: int| 0 <= i < ts.len() && #[trigger] ts[i].line < row) ==> (jump_target(ts, row, fwd) matches Some(
            x,
        ) && x < row && forall|i: int| 0 <= i < ts.len() && #[trigger] ts[i].line < row ==> ts[i].line <= x),
        !fwd && (forall|i: int| 0 <= i < ts.len() ==> #[trigger] ts[i].line >= row) ==> (jump_target(ts, row, fwd) matches Some(
            x,
        ) ==> forall|i: int| 0 <= i < ts.len() ==> #[trigger] ts[i].line <= x),
{
    let after = |l: usize| l > row;
    let before = |l: usize| l < row;
    let all = |l: usize| true;
    lemma_min_line(ts, after);
    lemma_min_line(ts, all);
    lemma_max_line(ts, before);
    lemma_max_line(ts, all);
    if ts.len() > 0 {
        assert(all(ts[0].line));
    }
}

/// The highlight an agent request for 1-based lines `start..=end` (either order) sets: the first
/// and last rows whose source range meets the request, or the last row twice when none does.
pub open spec fn highlight_rows(src: Seq<(usize, usize)>, start: u32, end: u32) -> (int, int) {
    let lo_line: int = if start <= end { start as int } else { end as int };
    let hi_line: int = if start <= end { end as int } else { start as int };
    let s0 = if lo_line >= 1 { lo_line - 1 } else { 0 };
    let s1 = if hi_line >= 1 { hi_line - 1 } else { 0 };
    let lo = first_hit(src, s0, s1, 0);
    if lo < src.len() {
        (lo, last_hit(src, s0, s1, src.len() as int))
    } else {
        let last = if src.len() > 0 { src.len() - 1 } else { 0 };
        (last, last)
    }
}

proof fn lemma_last_hit_bounds(src: Seq<(usize, usize)>, s0: int, s1: int, i: int)
    requires
        0 <= i <= src.len(),
    ensures
        -1 <= last_hit(src, s0, s1, i) < i,
        last_hit(src, s0, s1, i) >= 0 ==> src[last_hit(src, s0, s1, i)].0 <= s1
            && src[last_hit(src, s0, s1, i)].1 >= s0,
        forall|j: int| last_hit(src, s0, s1, i) < j < i ==> !(src[j].0 <= s1 && src[j].1 >= s0),
    decreases i,
{
    if i > 0 && !(src[i - 1].0 <= s1 && src[i - 1].1 >= s0) {
        lemma_last_hit_bounds(src, s0, s1, i - 1);
    }
}

proof fn lemma_first_hit_le_last(src: Seq<(usize, usize)>, s0: int, s1: int)
    requires
        first_hit(src, s0, s1, 0) < src.len(),
    ensures
        first_hit(src, s0, s1, 0) <= last_hit(src, s0, s1, src.len() as int),
{
    lemma_first_hit_bounds(src, s0, s1, 0);
    lemma_last_hit_bounds(src, s0, s1, src.len() as int);
}

/// "comment needs a body"
pub open spec fn needs_body_message() -> Seq<char> {
    "comment needs a body"@
}

/// "line <line> is past the file's <n> lines"
pub open spec fn past_eof_message(line: u32, n: nat) -> Seq<char> {
    "line "@ + crate::text::decimal(line as nat) + " is past the file's "@ + crate::text::decimal(n)
        + " lines"@
}

/// What `agent_note` does: a note by the agent (named `author`, else `agent`) on the row holding
/// 1-based file `line`, starting a thread there or replying to the one there; a missing or blank
/// body, or a line past the end of the file, is refused and changes no thread.
pub open spec fn agent_note_ok(
    old: Panel,
    new: Panel,
    r: Result<(), String>,
    line: u32,
    body: Option<String>,
    author: Option<String>,
) -> bool {
    let s: int = if line >= 1 { line - 1 } else { 0 };
    let n = old.source_lines@.len();
    let ok_body = body matches Some(b) && !is_blank(b@);
    let row = row_of_line(old.source@, s);
    let k = old.thread_index(row);
    let ts = old.threads_v();
    let note = NoteView {
        author: AuthorView::Agent(
            match author {
                Some(a) => a@,
                None => "agent"@,
            },
        ),
        body: body->0@,
    };
    &&& new.wf()
    &&& new.same_but_threads(&old)
    &&& !ok_body ==> r is Err && r->Err_0@ == needs_body_message()
    &&& ok_body && s >= n ==> r is Err && r->Err_0@ == past_eof_message(line, n)
    &&& r is Err ==> new.threads@ == old.threads@
    &&& ok_body && s < n ==> r is Ok
    &&& r is Ok && k >= ts.len() ==> new.threads_v() == ts.push(
        ThreadView { line: row as usize, collapsed: false, notes: seq![note] },
    )
    &&& r is Ok && k < ts.len() ==> new.threads_v() == ts.update(
        k,
        ThreadView { notes: ts[k].notes.push(note), ..ts[k] },
    )
}


impl Panel {
    /// What `c` does on the cursor line.
    pub open spec fn intent(&self) -> UserIntent {
        let k = self.thread_index(self.canonical(self.cursor as int));
        if k >= self.threads@.len() {
            UserIntent::New
        } else if (self.threads_v()[k].notes.last().author matches AuthorView::User) {
            UserIntent::Edit
        } else {
            UserIntent::Reply
        }
    }

    fn user_intent(&self) -> (i: UserIntent)
        requires
            self.wf(),
        ensures
            i == self.intent(),
    {
        let row = self.canonical_row(self.cursor);
        proof {
            self.lemma_thread_index(row as int);
        }
        match self.thread_at_index(row) {
            None => UserIntent::New,
            Some(k) => {
                let t = &self.threads[k];
                assert(thread_view(*t) == self.threads_v()[k as int]);
                match t.last().author {
                    Author::User => UserIntent::Edit,
                    _ => UserIntent::Reply,
                }
            },
        }
    }

    /// `c` seam: expand the cursor's thread and return the edit-prefill seed (the newest note's
    /// body when it is your own, else empty).
    pub fn begin_comment(&mut self) -> (seed: String)
        requires
            old(self).wf(),
        ensures
            final(self).wf(),
            final(self).same_but_threads(old(self)),
            ({
                let k = old(self).thread_index(old(self).canonical(old(self).cursor as int));
                &&& k < old(self).threads@.len() ==> final(self).threads@ == old(self).threads@.update(
                    k,
                    Thread { collapsed: false, ..old(self).threads@[k] },
                )
                &&& k >= old(self).threads@.len() ==> final(self).threads@ == old(self).threads@
                &&& seed@ == (if old(self).intent() == UserIntent::Edit {
                    old(self).threads_v()[k].notes.last().body
                } else {
                    Seq::<char>::empty()
                })
            }),
    {
        let row = self.canonical_row(self.cursor);
        let ghost k = old(self).thread_index(old(self).canonical(old(self).cursor as int));
        proof {
            self.lemma_thread_index(row as int);
        }
        match self.thread_at_index(row) {
            Some(i) => {
                let mut t = self.threads.remove(i);
                t.collapsed = false;
                let seed = match t.last().author {
                    Author::User => t.last().body.clone(),
                    _ => String::new(),
                };
                proof {
                    assert(thread_view(t).notes == old(self).threads_v()[k].notes);
                }
                self.threads.insert(i, t);
                proof {
                    assert(self.threads@ =~= old(self).threads@.update(
                        k,
                        Thread { collapsed: false, ..old(self).threads@[k] },
                    ));
                }
                seed
            },
            None => String::new(),
        }
    }

    /// Commit the human's draft (contextual new / edit / reply). An all-whitespace draft deletes
    /// the note being edited (the whole thread when it was its only note) and otherwise changes
    /// nothing.
    pub fn author_note(&mut self, text: String)
        requires
            old(self).wf(),
        ensures
            final(self).wf(),
            final(self).same_but_threads(old(self)),
            ({
                let row = old(self).canonical(old(self).cursor as int);
                let k = old(self).thread_index(row);
                let ts = old(self).threads_v();
                let note = NoteView { author: AuthorView::User, body: text@ };
                &&& is_blank(text@) && old(self).intent() != UserIntent::Edit ==> final(self).threads@
                    == old(self).threads@
                &&& is_blank(text@) && old(self).intent() == UserIntent::Edit && ts[k].notes.len() == 1
                    ==> final(self).threads_v() == ts.remove(k)
                &&& is_blank(text@) && old(self).intent() == UserIntent::Edit && ts[k].notes.len() > 1
                    ==> final(self).threads_v() == ts.update(k, ThreadView { notes: ts[k].notes.drop_last(), ..ts[k] })
                &&& !is_blank(text@) && old(self).intent() == UserIntent::New ==> final(self).threads_v()
                    == ts.push(ThreadView { line: row as usize, collapsed: false, notes: seq![note] })
                &&& !is_blank(text@) && old(self).intent() == UserIntent::Edit ==> final(self).threads_v()
                    == ts.update(
                    k,
                    ThreadView { notes: ts[k].notes.update(ts[k].notes.len() - 1, note), ..ts[k] },
                )
                &&& !is_blank(text@) && old(self).intent() == UserIntent::Reply ==> final(self).threads_v()
                    == ts.update(k, ThreadView { notes: ts[k].notes.push(note), ..ts[k] })
            }),
    {
        let row = self.canonical_row(self.cursor);
        let intent = self.user_intent();
        proof {
            self.lemma_thread_index(row as int);
        }
        let ghost ts = old(self).threads_v();
        if blank(text.as_str()) {
            if intent == UserIntent::Edit {
                let i = self.thread_at_index(row).unwrap();
                if self.threads[i].replies.len() > 0 {
                    let mut t = self.threads.remove(i);
                    let ghost tv = thread_view(t);
                    let last = t.replies.len() - 1;
                    t.replies.remove(last);
                    proof {
                        assert(thread_view(t).notes =~= tv.notes.drop_last());
                    }
                    self.threads.insert(i, t);
                    proof {
                        assert(self.threads_v() =~= ts.update(i as int, thread_view(t)));
                    }
                } else {
                    proof {
                        assert(ts[i as int].notes.len() == 1);
                    }
                    self.threads.remove(i);
                    proof {
                        assert(self.threads_v() =~= ts.remove(i as int));
                    }
                }
            }
            return;
        }
        match intent {
            UserIntent::New => {
                let t = Thread::new(row, Note::user(text));
                self.threads.push(t);
                proof {
                    assert(self.threads_v() =~= ts.push(thread_view(t)));
                }
            },
            UserIntent::Edit => {
                let i = self.thread_at_index(row).unwrap();
                let mut t = self.threads.remove(i);
                let ghost tv = thread_view(t);
                if t.replies.len() > 0 {
                    let last = t.replies.len() - 1;
                    let mut n = t.replies.remove(last);
                    n.body = text;
                    t.replies.push(n);
                } else {
                    t.root.body = text;
                }
                proof {
                    assert(thread_view(t).notes =~= tv.notes.update(
                        tv.notes.len() - 1,
                        NoteView { author: AuthorView::User, body: text@ },
                    ));
                }
                self.threads.insert(i, t);
                proof {
                    assert(self.threads_v() =~= ts.update(i as int, thread_view(t)));
                }
            },
            UserIntent::Reply => {
                let i = self.thread_at_index(row).unwrap();
                let mut t = self.threads.remove(i);
                let ghost tv = thread_view(t);
                t.replies.push(Note::user(text));
                proof {
                    assert(thread_view(t).notes =~= tv.notes.push(
                        NoteView { author: AuthorView::User, body: text@ },
                    ));
                }
                self.threads.insert(i, t);
                proof {
                    assert(self.threads_v() =~= ts.update(i as int, thread_view(t)));
                }
            },
        }
    }

    /// The agent's write path. `line` is a 1-based file line; `body` starts a thread on the row
    /// holding that line or appends a reply there. `Err` on a missing or blank body, and `Err`
    /// past EOF so a stale line can't clamp onto another thread.
    pub fn agent_note(&mut self, line: u32, body: Option<String>, author: Option<String>) -> (r:
        Result<(), String>)
        requires
            old(self).wf(),
        ensures
            final(self).wf(),
            final(self).same_but_threads(old(self)),
            agent_note_ok(*old(self), *final(self), r, line, body, author),
    {
        let body = match body {
            Some(b) => {
                if blank(b.as_str()) {
                    return Err(String::from_str("comment needs a body"));
                }
                b
            },
            None => {
                return Err(String::from_str("comment needs a body"));
            },
        };
        let n = self.source_lines.len();
        let s: usize = if line >= 1 { (line - 1) as usize } else { 0 };
        if s >= n {
            let mut m: Vec<char> = Vec::new();
            crate::text::push_str_chars(&mut m, "line ");
            crate::text::push_decimal(&mut m, line as u64);
            crate::text::push_str_chars(&mut m, " is past the file's ");
            crate::text::push_decimal(&mut m, n as u64);
            crate::text::push_str_chars(&mut m, " lines");
            assert(m@ =~= past_eof_message(line, n as nat));
            return Err(string_of(m.as_slice()));
        }
        let row = self.source_line_to_row(line);
        let name = match author {
            Some(a) => a,
            None => String::from_str("agent"),
        };
        let note = Note { author: Author::Agent(name), body };
        proof {
            self.lemma_thread_index(row as int);
        }
        let ghost ts = old(self).threads_v();
        match self.thread_at_index(row) {
            Some(i) => {
                let mut t = self.threads.remove(i);
                let ghost tv = thread_view(t);
                t.replies.push(note);
                proof {
                    assert(thread_view(t).notes =~= tv.notes.push(note_view(note)));
                }
                self.threads.insert(i, t);
                proof {
                    assert(self.threads_v() =~= ts.update(i as int, thread_view(t)));
                }
            },
            None => {
                let t = Thread::new(row, note);
                self.threads.push(t);
                proof {
                    assert(self.threads_v() =~= ts.push(thread_view(t)));
                }
            },
        }
        Ok(())
    }

    /// Threads at-or-above vs strictly below the cursor's canonical row (the title's ↑/↓
    /// counter): the two add up to the thread count.
    pub fn thread_split(&self) -> (r: (usize, usize))
        requires
            self.wf(),
        ensures
            ({
                let below = count_below(self.threads_v(), self.canonical(self.cursor as int));
                &&& r.1 == below
                &&& r.0 + r.1 == self.threads@.len()
            }),
    {
        let row = self.canonical_row(self.cursor);
        let mut below: usize = 0;
        let mut i: usize = 0;
        while i < self.threads.len()
            invariant
                i <= self.threads@.len(),
                below == count_below(self.threads_v().subrange(0, i as int), row as int),
                below <= i,
            decreases self.threads@.len() - i,
        {
            proof {
                assert(self.threads_v().subrange(0, i + 1).drop_last() =~= self.threads_v().subrange(0, i as int));
                assert(self.threads_v()[i as int].line == self.threads@[i as int].line);
            }
            if self.threads[i].line > row {
                below = below + 1;
            }
            i = i + 1;
        }
        proof {
            assert(self.threads_v().subrange(0, self.threads@.len() as int) =~= self.threads_v());
        }
        (self.threads.len() - below, below)
    }

    /// Rendered row of the nearest thread after (`fwd`) or before the cursor's canonical row,
    /// wrapping around the ends; `None` only with no threads.
    pub fn thread_jump(&self, fwd: bool) -> (r: Option<usize>)
        requires
            self.wf(),
        ensures
            r == jump_target(self.threads_v(), self.canonical(self.cursor as int), fwd),
    {
        let row = self.canonical_row(self.cursor);
        let ghost ts = self.threads_v();
        let mut best: Option<usize> = None;
        let mut any: Option<usize> = None;
        let mut i: usize = 0;
        while i < self.threads.len()
            invariant
                i <= self.threads@.len(),
                ts == self.threads_v(),
                fwd ==> best == min_line(ts.subrange(0, i as int), |l: usize| l > row),
                fwd ==> any == min_line(ts.subrange(0, i as int), |l: usize| true),
                !fwd ==> best == max_line(ts.subrange(0, i as int), |l: usize| l < row),
                !fwd ==> any == max_line(ts.subrange(0, i as int), |l: usize| true),
            decreases self.threads@.len() - i,
        {
            let l = self.threads[i].line;
            proof {
                assert(ts.subrange(0, i + 1).drop_last() =~= ts.subrange(0, i as int));
                assert(ts[i as int].line == l);
            }
            if fwd {
                any = match any {
                    Some(m) => Some(if l < m { l } else { m }),
                    None => Some(l),
                };
                if l > row {
                    best = match best {
                        Some(m) => Some(if l < m { l } else { m }),
                        None => Some(l),
                    };
                }
            } else {
                any = match any {
                    Some(m) => Some(if l > m { l } else { m }),
                    None => Some(l),
                };
                if l < row {
                    best = match best {
                        Some(m) => Some(if l > m { l } else { m }),
                        None => Some(l),
                    };
                }
            }
            i = i + 1;
        }
        proof {
            assert(ts.subrange(0, self.threads@.len() as int) =~= ts);
        }
        match best {
            Some(m) => Some(m),
            None => any,
        }
    }

    /// Highlight the rows covering source lines `start..=end` (1-based) and park the cursor on
    /// the last of them (see `highlight_rows`).
    pub fn set_highlight(&mut self, start: u32, end: u32)
        requires
            old(self).wf(),
        ensures
            final(self).wf(),
            final(self).threads == old(self).threads,
            final(self).source == old(self).source,
            final(self).content == old(self).content,
            final(self).source_lines == old(self).source_lines,
            final(self).highlight == Some(
                (
                    highlight_rows(old(self).source@, start, end).0 as usize,
                    highlight_rows(old(self).source@, start, end).1 as usize,
                ),
            ),
            final(self).cursor == highlight_rows(old(self).source@, start, end).1,
            final(self).path == old(self).path,
            final(self).follow == old(self).follow,
            final(self).diff_view == old(self).diff_view,
    {
        let lo_line = if start <= end { start } else { end };
        let hi_line = if start <= end { end } else { start };
        let s0: usize = if lo_line >= 1 { (lo_line - 1) as usize } else { 0 };
        let s1: usize = if hi_line >= 1 { (hi_line - 1) as usize } else { 0 };
        let n = self.source.len();
        let ghost src = self.source@;
        let mut lo: usize = 0;
        while lo < n && !(self.source[lo].0 <= s1 && self.source[lo].1 >= s0)
            invariant
                lo <= n == src.len(),
                src == self.source@,
                first_hit(src, s0 as int, s1 as int, 0) == first_hit(src, s0 as int, s1 as int, lo as int),
            decreases n - lo,
        {
            lo = lo + 1;
        }
        proof {
            if lo < n {
                assert(first_hit(src, s0 as int, s1 as int, lo as int) == lo);
            }
        }
        if lo >= n {
            let last: usize = if n > 0 { n - 1 } else { 0 };
            self.highlight = Some((last, last));
            self.cursor = last;
            return;
        }
        let mut hi: usize = n;
        while hi > 0 && !(self.source[hi - 1].0 <= s1 && self.source[hi - 1].1 >= s0)
            invariant
                hi <= n == src.len(),
                src == self.source@,
                last_hit(src, s0 as int, s1 as int, n as int) == last_hit(src, s0 as int, s1 as int, hi as int),
            decreases hi,
        {
            hi = hi - 1;
        }
        proof {
            lemma_first_hit_le_last(src, s0 as int, s1 as int);
            lemma_last_hit_bounds(src, s0 as int, s1 as int, n as int);
            if hi > 0 {
                assert(last_hit(src, s0 as int, s1 as int, hi as int) == hi - 1);
            }
        }
        self.highlight = Some((lo, hi - 1));
        self.cursor = hi - 1;
    }

    /// Clear the agent-directed highlight.
    pub fn clear_highlight(&mut self)
        requires
            old(self).wf(),
        ensures
            final(self).wf(),
            final(self).highlight is None,
            final(self).cursor == old(self).cursor,
            final(self).threads == old(self).threads,
    {
        self.highlight = None;
    }

    /// Enable/disable autoscroll; enabling snaps the cursor to the last line now.
    pub fn set_follow(&mut self, on: bool)
        requires
            old(self).wf(),
        ensures
            final(self).wf(),
            final(self).follow == on,
            final(self).cursor == (if on { old(self).spec_line_count() - 1 } else { old(self).cursor as int }),
            final(self).threads == old(self).threads,
            final(self).content == old(self).content,
            final(self).path == old(self).path,
            final(self).diff_view == old(self).diff_view,
            final(self).highlight == old(self).highlight,
            final(self).source == old(self).source,
    {
        self.follow = on;
        if on {
            self.cursor = self.line_count() - 1;
        }
    }

    /// There is something to show in the diff view: a marked line or deleted text.
    pub open spec fn has_diff(&self) -> bool {
        (exists|i: int| 0 <= i < self.changes@.len() && #[trigger] self.changes@[i] is Some)
            || self.removed@.len() > 0
    }

    /// Enable/disable the inline diff view. Enabling is refused with a warning when there's no
    /// diff to show — no `git` binary, or the file is clean / untracked.
    pub fn set_diff_view(&mut self, on: bool) -> (r: Result<(), String>)
        requires
            old(self).wf(),
        ensures
            final(self).wf(),
            !on ==> r is Ok && !final(self).diff_view,
            on && old(self).git_missing ==> r is Err && r->Err_0@
                == "diff view unavailable — install `git`"@,
            on && !old(self).git_missing && !old(self).has_diff() ==> r is Err && r->Err_0@
                == "no changes vs HEAD — nothing to diff"@,
            on && !old(self).git_missing && old(self).has_diff() ==> r is Ok && final(self).diff_view,
            r is Err ==> final(self).diff_view == old(self).diff_view,
            final(self).threads == old(self).threads,
            final(self).cursor == old(self).cursor,
            final(self).path == old(self).path,
            final(self).follow == old(self).follow,
            final(self).highlight == old(self).highlight,
            final(self).source == old(self).source,
    {
        if !on {
            self.diff_view = false;
            return Ok(());
        }
        if self.git_missing {
            return Err(String::from_str("diff view unavailable — install `git`"));
        }
        let mut any = false;
        let mut i: usize = 0;
        while i < self.changes.len()
            invariant
                i <= self.changes@.len(),
                any == (exists|j: int| 0 <= j < i && #[trigger] self.changes@[j] is Some),
            decreases self.changes@.len() - i,
        {
            if self.changes[i].is_some() {
                any = true;
            }
            i = i + 1;
        }
        if !any && self.removed.len() == 0 {
            return Err(String::from_str("no changes vs HEAD — nothing to diff"));
        }
        self.diff_view = true;
        Ok(())
    }
}

} // verus!

verus! {

/// `t` placed into the line-sorted `sorted` after every thread on the same or an earlier row.
pub open spec fn insert_by_line(sorted: Seq<ThreadView>, t: ThreadView) -> Seq<ThreadView>
    decreases sorted.len(),
{
    if sorted.len() == 0 {
        seq![t]
    } else if sorted.last().line <= t.line {
        sorted.push(t)
    } else {
        insert_by_line(sorted.drop_last(), t).push(sorted.last())
    }
}

/// The threads stably sorted by row: ordered by line, ties kept in the order they were added.
pub open spec fn by_line(ts: Seq<ThreadView>) -> Seq<ThreadView>
    decreases ts.len(),
{
    if ts.len() == 0 {
        seq![]
    } else {
        insert_by_line(by_line(ts.drop_last()), ts.last())
    }
}

/// A note's label in the review: `user` for the human, the agent's name otherwise.
pub open spec fn review_label(a: AuthorView) -> Seq<char> {
    match a {
        AuthorView::User => "user"@,
        AuthorView::Agent(n) => n,
    }
}

/// The review lines for `notes`: `      > [<label>] <body>` each.
pub open spec fn notes_text(notes: Seq<NoteView>) -> Seq<char>
    decreases notes.len(),
{
    if notes.len() == 0 {
        seq![]
    } else {
        notes_text(notes.drop_last()) + "      > ["@ + review_label(notes.last().author) + "] "@
            + notes.last().body + "\n"@
    }
}

/// The 1-based source header: `L<a+1>` for one line, `L<a+1>-<b+1>` for a block.
pub open spec fn line_header(a: nat, b: nat) -> Seq<char> {
    if a == b {
        "L"@ + crate::text::decimal(a + 1)
    } else {
        "L"@ + crate::text::decimal(a + 1) + "-"@ + crate::text::decimal(b + 1)
    }
}

/// One thread's review block: a blank line, its source header with the raw first source line
/// (when it exists), then its notes.
pub open spec fn thread_text(src: Seq<(usize, usize)>, lines: Seq<Seq<char>>, t: ThreadView) -> Seq<char> {
    let (a, b): (nat, nat) = if t.line < src.len() {
        (src[t.line as int].0 as nat, src[t.line as int].1 as nat)
    } else {
        (t.line as nat, t.line as nat)
    };
    "\n"@ + line_header(a, b) + (if a < lines.len() { "  "@ + lines[a as int] } else { seq![] })
        + "\n"@ + notes_text(t.notes)
}

/// The review blocks of `ts`, in order.
pub open spec fn threads_text(src: Seq<(usize, usize)>, lines: Seq<Seq<char>>, ts: Seq<ThreadView>) -> Seq<char>
    decreases ts.len(),
{
    if ts.len() == 0 {
        seq![]
    } else {
        threads_text(src, lines, ts.drop_last()) + thread_text(src, lines, ts.last())
    }
}

/// The snapshot warning a review carries when the file changed on disk under its notes.
pub open spec fn snapshot_warning() -> Seq<char> {
    "⚠ file changed on disk since this inline review — line numbers are against the snapshot\n"@
}

/// A PR-style review: the `[laura review · <path>]` header, the snapshot warning when the source
/// changed under the notes, the overall comment (when non-empty) between blank lines, then every
/// thread's block sorted by row.
pub open spec fn review_text(
    path: Seq<char>,
    changed: bool,
    overall: Seq<char>,
    src: Seq<(usize, usize)>,
    lines: Seq<Seq<char>>,
    ts: Seq<ThreadView>,
) -> Seq<char> {
    "[laura review · "@ + path + "]\n"@ + (if changed { snapshot_warning() } else { seq![] }) + (
    if overall.len() > 0 {
        "\n"@ + overall + "\n"@
    } else {
        seq![]
    }) + threads_text(src, lines, by_line(ts))
}

/// Where `insert_by_line` puts `t`: past every trailing thread on a later row.
pub open spec fn insert_pos(sorted: Seq<ThreadView>, t: ThreadView) -> int
    decreases sorted.len(),
{
    if sorted.len() == 0 {
        0
    } else if sorted.last().line <= t.line {
        sorted.len() as int
    } else {
        insert_pos(sorted.drop_last(), t)
    }
}

proof fn lemma_insert_pos(sorted: Seq<ThreadView>, t: ThreadView)
    ensures
        0 <= insert_pos(sorted, t) <= sorted.len(),
        insert_by_line(sorted, t) == sorted.subrange(0, insert_pos(sorted, t)) + seq![t]
            + sorted.subrange(insert_pos(sorted, t), sorted.len() as int),
        forall|j: int| insert_pos(sorted, t) <= j < sorted.len() ==> sorted[j].line > t.line,
        insert_pos(sorted, t) > 0 ==> sorted[insert_pos(sorted, t) - 1].line <= t.line,
    decreases sorted.len(),
{
    if sorted.len() == 0 {
        assert(insert_by_line(sorted, t) =~= seq![t]);
    } else if sorted.last().line <= t.line {
        assert(insert_by_line(sorted, t) =~= sorted.subrange(0, sorted.len() as int) + seq![t]
            + sorted.subrange(sorted.len() as int, sorted.len() as int));
    } else {
        let d = sorted.drop_last();
        lemma_insert_pos(d, t);
        let p = insert_pos(d, t);
        assert forall|j: int| insert_pos(sorted, t) <= j < sorted.len() implies sorted[j].line > t.line by {
            if j < d.len() {
                assert(sorted[j] == d[j]);
            }
        }
        if p > 0 {
            assert(sorted[p - 1] == d[p - 1]);
        }
        assert(insert_by_line(sorted, t) =~= sorted.subrange(0, p) + seq![t] + sorted.subrange(
            p,
            sorted.len() as int,
        ));
    }
}

impl Panel {
    /// The review this panel would submit (see `review_text`).
    pub open spec fn spec_review(&self, overall: Seq<char>) -> Seq<char> {
        review_text(
            self.path@,
            self.source_changed,
            overall,
            self.source@,
            self.source_text(),
            self.threads_v(),
        )
    }

    /// Thread indices in line-sorted (stable) order.
    fn sorted_thread_indices(&self) -> (idx: Vec<usize>)
        ensures
            idx@.len() == self.threads@.len(),
            forall|j: int| 0 <= j < idx@.len() ==> #[trigger] idx@[j] < self.threads@.len(),
            idx@.map_values(|i: usize| self.threads_v()[i as int]) == by_line(self.threads_v()),
    {
        let ghost ts = self.threads_v();
        let mut idx: Vec<usize> = Vec::new();
        let mut k: usize = 0;
        while k < self.threads.len()
            invariant
                k <= self.threads@.len(),
                ts == self.threads_v(),
                idx@.len() == k,
                forall|j: int| 0 <= j < idx@.len() ==> #[trigger] idx@[j] < k,
                idx@.map_values(|i: usize| ts[i as int]) == by_line(ts.subrange(0, k as int)),
            decreases self.threads@.len() - k,
        {
            let ghost sorted = idx@.map_values(|i: usize| ts[i as int]);
            let line = self.threads[k].line;
            proof {
                assert(ts.subrange(0, k + 1).drop_last() =~= ts.subrange(0, k as int));
                assert(ts.subrange(0, k + 1).last() == ts[k as int]);
                assert(ts[k as int].line == line);
                lemma_insert_pos(sorted, ts[k as int]);
            }
            let mut p = idx.len();
            assert(sorted.subrange(0, p as int) =~= sorted);
            while p > 0 && self.threads[idx[p - 1]].line > line
                invariant
                    p <= idx@.len(),
                    forall|j: int| 0 <= j < idx@.len() ==> #[trigger] idx@[j] < k,
                    k < self.threads@.len(),
                    ts == self.threads_v(),
                    sorted == idx@.map_values(|i: usize| ts[i as int]),
                    line == ts[k as int].line,
                    insert_pos(sorted, ts[k as int]) == insert_pos(sorted.subrange(0, p as int), ts[k as int]),
                decreases p,
            {
                proof {
                    assert(ts[idx@[p - 1] as int].line == self.threads@[idx@[p - 1] as int].line);
                    assert(sorted.subrange(0, p as int).last() == ts[idx@[p - 1] as int]);
                    assert(sorted.subrange(0, p as int).drop_last() =~= sorted.subrange(0, p - 1));
                }
                p = p - 1;
            }
            proof {
                if p > 0 {
                    assert(ts[idx@[p - 1] as int].line == self.threads@[idx@[p - 1] as int].line);
                    assert(sorted.subrange(0, p as int).last() == ts[idx@[p - 1] as int]);
                } else {
                    assert(sorted.subrange(0, 0) =~= Seq::<ThreadView>::empty());
                }
                assert(insert_pos(sorted, ts[k as int]) == p);
            }
            idx.insert(p, k);
            proof {
                assert(idx@.map_values(|i: usize| ts[i as int]) =~= sorted.subrange(0, p as int) + seq![ts[k as int]]
                    + sorted.subrange(p as int, sorted.len() as int));
            }
            k = k + 1;
        }
        proof {
            assert(ts.subrange(0, self.threads@.len() as int) =~= ts);
        }
        idx
    }

    /// PR-style review for PTY injection (see `review_text`).
    pub fn assemble_review(&self, overall: &str) -> (r: String)
        requires
            self.wf(),
        ensures
            r@ == self.spec_review(overall@),
    {
        let mut out: Vec<char> = Vec::new();
        crate::text::push_str_chars(&mut out, "[laura review · ");
        crate::text::push_str_chars(&mut out, self.path.as_str());
        crate::text::push_str_chars(&mut out, "]\n");
        if self.source_changed {
            crate::text::push_str_chars(
                &mut out,
                "⚠ file changed on disk since this inline review — line numbers are against the snapshot\n",
            );
        }
        if !overall.is_empty() {
            crate::text::push_str_chars(&mut out, "\n");
            crate::text::push_str_chars(&mut out, overall);
            crate::text::push_str_chars(&mut out, "\n");
        }
        let ghost head = out@;
        proof {
            assert(head =~= "[laura review · "@ + self.path@ + "]\n"@ + (if self.source_changed {
                snapshot_warning()
            } else {
                seq![]
            }) + (if overall@.len() > 0 {
                "\n"@ + overall@ + "\n"@
            } else {
                seq![]
            }));
        }
        let idx = self.sorted_thread_indices();
        let ghost sorted = by_line(self.threads_v());
        let mut k: usize = 0;
        while k < idx.len()
            invariant
                k <= idx@.len(),
                idx@.len() == self.threads@.len(),
                forall|j: int| 0 <= j < idx@.len() ==> #[trigger] idx@[j] < self.threads@.len(),
                idx@.map_values(|i: usize| self.threads_v()[i as int]) == sorted,
                self.wf(),
                out@ == head + threads_text(self.source@, self.source_text(), sorted.subrange(0, k as int)),
            decreases idx@.len() - k,
        {
            let t = &self.threads[idx[k]];
            proof {
                assert(sorted[k as int] == thread_view(*t));
                assert(sorted.subrange(0, k + 1).drop_last() =~= sorted.subrange(0, k as int));
            }
            let ghost before = out@;
            self.push_thread_text(&mut out, t);
            proof {
                assert(out@ =~= head + threads_text(self.source@, self.source_text(), sorted.subrange(0, k + 1)));
            }
            k = k + 1;
        }
        proof {
            assert(sorted.subrange(0, idx@.len() as int) =~= sorted);
        }
        string_of(out.as_slice())
    }

    fn push_thread_text(&self, out: &mut Vec<char>, t: &Thread)
        ensures
            final(out)@ == old(out)@ + thread_text(self.source@, self.source_text(), thread_view(*t)),
    {
        self.push_thread_header(out, t);
        push_notes_text(out, t);
        assert(final(out)@ =~= old(out)@ + thread_text(self.source@, self.source_text(), thread_view(*t)));
    }

    fn push_thread_header(&self, out: &mut Vec<char>, t: &Thread)
        ensures
            ({
                let (a, b): (nat, nat) = if t.line < self.source@.len() {
                    (self.source@[t.line as int].0 as nat, self.source@[t.line as int].1 as nat)
                } else {
                    (t.line as nat, t.line as nat)
                };
                final(out)@ == old(out)@ + "\n"@ + line_header(a, b) + (if a < self.source_text().len() {
                    "  "@ + self.source_text()[a as int]
                } else {
                    seq![]
                }) + "\n"@
            }),
    {
        let (a, b): (usize, usize) = if t.line < self.source.len() {
            self.source[t.line]
        } else {
            (t.line, t.line)
        };
        let ghost pre = out@;
        crate::text::push_str_chars(out, "\n");
        crate::text::push_str_chars(out, "L");
        push_decimal_succ(out, a);
        if a != b {
            crate::text::push_str_chars(out, "-");
            push_decimal_succ(out, b);
        }
        let ghost mid = out@;
        assert(mid =~= pre + "\n"@ + line_header(a as nat, b as nat));
        if a < self.source_lines.len() {
            crate::text::push_str_chars(out, "  ");
            crate::text::push_str_chars(out, self.source_lines[a].as_str());
        }
        crate::text::push_str_chars(out, "\n");
        assert(out@ =~= pre + "\n"@ + line_header(a as nat, b as nat) + (if (a as nat) < self.source_text().len() {
            "  "@ + self.source_text()[a as int]
        } else {
            seq![]
        }) + "\n"@);
    }
}

fn push_notes_text(out: &mut Vec<char>, t: &Thread)
    ensures
        final(out)@ == old(out)@ + notes_text(thread_view(*t).notes),
{
    let ghost start = out@;
    let ghost notes = thread_view(*t).notes;
    push_note_text(out, &t.root);
    proof {
        assert(notes.subrange(0, 1) =~= seq![note_view(t.root)]);
        assert(seq![note_view(t.root)].drop_last() =~= Seq::<NoteView>::empty());
        assert(notes_text(Seq::<NoteView>::empty()) =~= Seq::<char>::empty());
        assert(out@ =~= start + notes_text(notes.subrange(0, 1)));
    }
    let mut i: usize = 0;
    while i < t.replies.len()
        invariant
            i <= t.replies@.len(),
            notes == thread_view(*t).notes,
            out@ == start + notes_text(notes.subrange(0, i + 1)),
        decreases t.replies@.len() - i,
    {
        push_note_text(out, &t.replies[i]);
        proof {
            assert(notes[i + 1] == note_view(t.replies@[i as int]));
            assert(notes.subrange(0, i + 2).drop_last() =~= notes.subrange(0, i + 1));
        }
        i = i + 1;
    }
    proof {
        assert(notes.subrange(0, t.replies@.len() + 1int) =~= notes);
    }
}

/// Append the decimal rendering of `n + 1`.
fn push_decimal_succ(out: &mut Vec<char>, n: usize)
    ensures
        final(out)@ == old(out)@ + crate::text::decimal(n as nat + 1),
{
    let ghost pre = out@;
    let mut digits: Vec<char> = Vec::new();
    push_decimal_u128(&mut digits, n as u128 + 1);
    push_chars(out, digits.as_slice());
}

fn push_decimal_u128(out: &mut Vec<char>, n: u128)
    ensures
        final(out)@ == old(out)@ + crate::text::decimal(n as nat),
    decreases n,
{
    if n >= 10 {
        push_decimal_u128(out, n / 10);
    }
    let d: u128 = n % 10;
    let c: char = if d == 0 { '0' } else if d == 1 { '1' } else if d == 2 { '2' } else if d == 3 {
        '3'
    } else if d == 4 { '4' } else if d == 5 { '5' } else if d == 6 { '6' } else if d == 7 {
        '7'
    } else if d == 8 { '8' } else { '9' };
    out.push(c);
    proof {
        assert(c == crate::text::digit_char(d as nat));
        assert(final(out)@ =~= old(out)@ + crate::text::decimal(n as nat));
    }
}

fn push_note_text(out: &mut Vec<char>, n: &Note)
    ensures
        final(out)@ == old(out)@ + "      > ["@ + review_label(note_view(*n).author) + "] "@ + n.body@
            + "\n"@,
{
    crate::text::push_str_chars(out, "      > [");
    match &n.author {
        Author::User => crate::text::push_str_chars(out, "user"),
        Author::Agent(name) => crate::text::push_str_chars(out, name.as_str()),
    }
    crate::text::push_str_chars(out, "] ");
    crate::text::push_str_chars(out, n.body.as_str());
    crate::text::push_str_chars(out, "\n");
    assert(final(out)@ =~= old(out)@ + "      > ["@ + review_label(note_view(*n).author) + "] "@
        + n.body@ + "\n"@);
}

} // verus!

verus! {

use crate::gitdiff::{changes_of, hunk_in_range, line_changes, removed_lines, removed_of, ChangeKind, DiffOutcome, Hunk, HunkView};
use crate::render::{Rendered, styled_view, strings_view};
use crate::style::{line_view, spans_text, Style};

/// The widest pre-formatted row among the first `k` rows (0 if none): the horizontal-scroll
/// extent.
pub open spec fn max_nowrap(styled: Seq<Seq<(Seq<char>, Style)>>, nowrap: Seq<bool>, k: int) -> nat
    decreases k,
{
    if k <= 0 {
        0
    } else {
        let rest = max_nowrap(styled, nowrap, k - 1);
        let w = spans_text(styled[k - 1]).len();
        if nowrap[k - 1] && w > rest { w } else { rest }
    }
}

/// The removed-text table as plain values.
pub open spec fn removed_view(v: Seq<(usize, Vec<String>)>) -> Seq<(usize, Seq<Seq<char>>)> {
    v.map_values(|e: (usize, Vec<String>)| (e.0, e.1@.map_values(|s: String| s@)))
}

/// Every hunk's added-line indices fit in a `usize`.
pub open spec fn outcome_in_range(o: DiffOutcome) -> bool {
    match o {
        DiffOutcome::Parsed(hs) => forall|k: int| 0 <= k < hs@.len() ==> hunk_in_range(#[trigger] hs@[k]@),
        _ => true,
    }
}

/// The markers, deleted text and git-missing latch a diff outcome leaves for an `n`-line file
/// whose latch was `missing`: parsed hunks fold into markers; a missing `git` clears them and
/// latches; anything else clears them.
pub open spec fn diff_state(o: DiffOutcome, n: nat, missing: bool) -> (
    Seq<Option<ChangeKind>>,
    Seq<(usize, Seq<Seq<char>>)>,
    bool,
) {
    match o {
        DiffOutcome::Parsed(hs) => {
            let hv = hs@.map_values(|h: Hunk| h@);
            (changes_of(hv, n), removed_of(hv, n), missing)
        },
        DiffOutcome::NoGit => (seq![], seq![], true),
        DiffOutcome::Unavailable => (seq![], seq![], missing),
    }
}

/// Whether every hunk of `hs` keeps its added-line indices inside a `usize`.
pub fn hunks_in_range(hs: &[Hunk]) -> (b: bool)
    ensures
        b == forall|k: int| 0 <= k < hs@.len() ==> hunk_in_range(#[trigger] hs@[k]@),
{
    let mut i: usize = 0;
    while i < hs.len()
        invariant
            i <= hs@.len(),
            forall|k: int| 0 <= k < i ==> hunk_in_range(#[trigger] hs@[k]@),
        decreases hs@.len() - i,
    {
        let h = &hs[i];
        let base: usize = if h.new_start >= 1 { h.new_start - 1 } else { 0 };
        if h.added.len() > usize::MAX - base && !(h.added.len() == usize::MAX - base + 1) {
            proof {
                assert(!hunk_in_range(hs@[i as int]@));
            }
            return false;
        }
        if base > 0 && h.added.len() > usize::MAX - base + 1 {
            proof {
                assert(!hunk_in_range(hs@[i as int]@));
            }
            return false;
        }
        i = i + 1;
    }
    true
}

/// The rendering `r` can back a panel: its row tables agree in length and every source line
/// number fits in a `u32`.
pub open spec fn rendered_ok(r: Rendered) -> bool {
    &&& r.source@.len() == r.styled@.len()
    &&& r.nowrap@.len() == r.styled@.len()
    &&& forall|i: int| 0 <= i < r.source@.len() ==> (#[trigger] r.source@[i]).0 < u32::MAX
}

/// Whether `r` can back a panel (see `rendered_ok`).
pub fn rendering_fits(r: &Rendered) -> (b: bool)
    ensures
        b == rendered_ok(*r),
{
    if r.source.len() != r.styled.len() || r.nowrap.len() != r.styled.len() {
        return false;
    }
    let mut i: usize = 0;
    while i < r.source.len()
        invariant
            i <= r.source@.len(),
            forall|j: int| 0 <= j < i ==> (#[trigger] r.source@[j]).0 < u32::MAX,
        decreases r.source@.len() - i,
    {
        if r.source[i].0 >= 4294967295usize {
            return false;
        }
        i = i + 1;
    }
    true
}

impl Panel {
    /// The markers and deleted text as plain values.
    pub open spec fn diff_now(&self) -> (Seq<Option<ChangeKind>>, Seq<(usize, Seq<Seq<char>>)>, bool) {
        (self.changes@, removed_view(self.removed@), self.git_missing)
    }

    /// Recompute per-source-line git-diff markers vs HEAD from a fresh diff outcome (see
    /// `diff_state`).
    fn refresh_diff(&mut self, outcome: DiffOutcome)
        requires
            outcome_in_range(outcome),
        ensures
            final(self).diff_now() == diff_state(
                outcome,
                old(self).source_lines@.len(),
                old(self).git_missing,
            ),
            final(self).path == old(self).path,
            final(self).content == old(self).content,
            final(self).styled == old(self).styled,
            final(self).nowrap == old(self).nowrap,
            final(self).source == old(self).source,
            final(self).source_lines == old(self).source_lines,
            final(self).threads == old(self).threads,
            final(self).cursor == old(self).cursor,
            final(self).highlight == old(self).highlight,
            final(self).h_offset == old(self).h_offset,
            final(self).follow == old(self).follow,
            final(self).sig == old(self).sig,
            final(self).read_error == old(self).read_error,
            final(self).diff_view == old(self).diff_view,
            final(self).source_changed == old(self).source_changed,
    {
        match outcome {
            DiffOutcome::Parsed(h) => {
                let n = self.source_lines.len();
                self.changes = line_changes(h.as_slice(), n);
                self.removed = removed_lines(h.as_slice(), n);
            },
            DiffOutcome::NoGit => {
                self.git_missing = true;
                self.changes = Vec::new();
                self.removed = Vec::new();
                assert(removed_view(self.removed@) =~= Seq::<(usize, Seq<Seq<char>>)>::empty());
            },
            DiffOutcome::Unavailable => {
                self.changes = Vec::new();
                self.removed = Vec::new();
                assert(removed_view(self.removed@) =~= Seq::<(usize, Seq<Seq<char>>)>::empty());
            },
        }
    }

    /// A panel over a rendered file `r` at `path` with change signature `sig`, its markers
    /// folded from `diff`: cursor at the top, no highlight, no threads, every mode off.
    pub fn from_rendered(path: String, r: Rendered, sig: Option<FileSig>, diff: DiffOutcome) -> (p: Panel)
        requires
            rendered_ok(r),
            outcome_in_range(diff),
        ensures
            p.wf(),
            p.path == path,
            p.content == r.content,
            p.styled == r.styled,
            p.nowrap == r.nowrap,
            p.source == r.source,
            p.source_lines == r.source_lines,
            p.read_error == r.error,
            p.sig == sig,
            p.h_offset == 0 && p.cursor == 0 && p.highlight is None,
            p.threads@.len() == 0,
            !p.follow && !p.diff_view && !p.source_changed,
            p.diff_now() == diff_state(diff, r.source_lines@.len(), false),
    {
        let Rendered { content, styled, nowrap, source, source_lines, error } = r;
        let mut panel = Panel {
            path,
            content,
            styled,
            nowrap,
            source,
            source_lines,
            h_offset: 0,
            cursor: 0,
            highlight: None,
            threads: Vec::new(),
            follow: false,
            sig,
            read_error: error,
            changes: Vec::new(),
            git_missing: false,
            removed: Vec::new(),
            diff_view: false,
            source_changed: false,
        };
        panel.refresh_diff(diff);
        panel
    }

    /// The widest pre-formatted row (see `max_nowrap`).
    pub open spec fn spec_max_nowrap(&self) -> nat {
        max_nowrap(styled_view(self.styled@), self.nowrap@, self.styled@.len() as int)
    }

    /// Widest nowrap line in chars (0 if none), the horizontal-scroll extent.
    fn max_nowrap_width(&self) -> (w: usize)
        requires
            self.wf(),
        ensures
            w == self.spec_max_nowrap(),
    {
        let mut best: usize = 0;
        let mut i: usize = 0;
        while i < self.styled.len()
            invariant
                i <= self.styled@.len(),
                self.wf(),
                best == max_nowrap(styled_view(self.styled@), self.nowrap@, i as int),
            decreases self.styled@.len() - i,
        {
            let text = crate::render::line_text(&self.styled[i]);
            proof {
                assert(styled_view(self.styled@)[i as int] == line_view(self.styled@[i as int]));
            }
            if self.nowrap[i] && text.len() > best {
                best = text.len();
            }
            i = i + 1;
        }
        best
    }

    /// Scroll pre-formatted lines horizontally by `delta` chars, clamped to `[0, max_width-1]`.
    pub fn scroll_h(&mut self, delta: isize)
        requires
            old(self).wf(),
        ensures
            final(self).wf(),
            final(self).h_offset == crate::mouse::clamp(
                old(self).h_offset + delta,
                0,
                crate::mouse::sat_sub(old(self).spec_max_nowrap() as int, 1),
            ),
            final(self).cursor == old(self).cursor,
            final(self).threads == old(self).threads,
    {
        let w = self.max_nowrap_width();
        let max: i128 = if w >= 1 { (w - 1) as i128 } else { 0 };
        let want: i128 = self.h_offset as i128 + delta as i128;
        let h: i128 = if want < 0 { 0 } else if want > max { max } else { want };
        self.h_offset = h as usize;
    }

    /// Whether the source must be re-read for change signature `sig`. A changed source under
    /// open notes instead freezes the pane on its snapshot (and says so via `source_changed`).
    pub fn reload_needed(&mut self, sig: Option<FileSig>) -> (b: bool)
        requires
            old(self).wf(),
        ensures
            final(self).wf(),
            reload_step(*old(self), *final(self), sig, b),
    {
        if sig == self.sig {
            return false;
        }
        if self.threads.len() > 0 {
            self.source_changed = true;
            return false;
        }
        true
    }

    /// Take in a re-read source: new content and rows, signature and read error; the horizontal
    /// offset kept unless the new content is too narrow for it; the cursor on the last line
    /// under autoscroll, else kept but clamped onto the file; a highlight clamped likewise; the
    /// markers refreshed; the snapshot flag cleared.
    pub fn apply_reload(&mut self, sig: Option<FileSig>, r: Rendered, diff: DiffOutcome)
        requires
            old(self).wf(),
            rendered_ok(r),
            outcome_in_range(diff),
        ensures
            final(self).wf(),
            final(self).path == old(self).path,
            final(self).content == r.content,
            final(self).styled == r.styled,
            final(self).nowrap == r.nowrap,
            final(self).source == r.source,
            final(self).source_lines == r.source_lines,
            final(self).read_error == r.error,
            final(self).sig == sig,
            final(self).threads == old(self).threads,
            final(self).follow == old(self).follow,
            final(self).diff_view == old(self).diff_view,
            !final(self).source_changed,
            final(self).h_offset == (if old(self).h_offset <= crate::mouse::sat_sub(
                final(self).spec_max_nowrap() as int,
                1,
            ) {
                old(self).h_offset as int
            } else {
                crate::mouse::sat_sub(final(self).spec_max_nowrap() as int, 1)
            }),
            final(self).cursor == (if old(self).follow {
                final(self).spec_line_count() - 1
            } else if old(self).cursor < final(self).spec_line_count() - 1 {
                old(self).cursor as int
            } else {
                final(self).spec_line_count() - 1
            }),
            ({
                let last = final(self).spec_line_count() - 1;
                match old(self).highlight {
                    Some((lo, hi)) => final(self).highlight == Some(
                        (
                            (if lo < last { lo as int } else { last }) as usize,
                            (if hi < last { hi as int } else { last }) as usize,
                        ),
                    ),
                    None => final(self).highlight is None,
                }
            }),
            final(self).diff_now() == diff_state(diff, r.source_lines@.len(), old(self).git_missing),
    {
        let Rendered { content, styled, nowrap, source, source_lines, error } = r;
        self.content = content;
        self.styled = styled;
        self.nowrap = nowrap;
        self.source = source;
        self.source_lines = source_lines;
        self.sig = sig;
        self.read_error = error;
        let w = self.max_nowrap_width();
        let max: usize = if w >= 1 { w - 1 } else { 0 };
        if self.h_offset > max {
            self.h_offset = max;
        }
        let last = self.line_count() - 1;
        self.cursor = if self.follow {
            last
        } else if self.cursor < last {
            self.cursor
        } else {
            last
        };
        if let Some((lo, hi)) = self.highlight {
            self.highlight = Some((if lo < last { lo } else { last }, if hi < last { hi } else { last }));
        }
        self.refresh_diff(diff);
        self.source_changed = false;
    }

    /// `Ctrl+R`: drop pending notes and forget the signature, so the next reload re-reads disk.
    pub fn discard_notes(&mut self)
        requires
            old(self).wf(),
        ensures
            final(self).wf(),
            final(self).threads@.len() == 0,
            final(self).sig is None,
            final(self).content == old(self).content,
            final(self).source == old(self).source,
            final(self).cursor == old(self).cursor,
    {
        self.threads = Vec::new();
        self.sig = None;
    }

    /// `Shift+S`: build the review, hand it to `send`, and clear the threads only once it's
    /// sent — a failed send keeps them so the user can retry.
    pub fn submit_review<E, F: FnOnce(&str) -> Result<(), E>>(&mut self, overall: &str, send: F) -> (r:
        Result<(), E>)
        requires
            old(self).wf(),
            forall|s: &str| send.requires((s,)),
        ensures
            final(self).wf(),
            exists|s: &str| s@ == old(self).spec_review(overall@) && send.ensures((s,), r),
            r is Ok ==> final(self).threads@.len() == 0,
            r is Err ==> final(self).threads == old(self).threads,
            final(self).content == old(self).content,
            final(self).source == old(self).source,
            final(self).cursor == old(self).cursor,
            final(self).source_changed == old(self).source_changed,
    {
        let review = self.assemble_review(overall);
        let text = review.as_str();
        let res = send(text);
        assert(text@ == old(self).spec_review(overall@) && send.ensures((text,), res));
        if res.is_ok() {
            self.threads = Vec::new();
        }
        res
    }
}

} // verus!

verus! {

use crate::style::{span_view, Color, Span};

/// The characters of `spans`, each paired with its span's style.
pub open spec fn flat(spans: Seq<(Seq<char>, Style)>) -> Seq<(char, Style)>
    decreases spans.len(),
{
    if spans.len() == 0 {
        seq![]
    } else {
        flat(spans.drop_last()) + spans.last().0.map_values(|c: char| (c, spans.last().1))
    }
}

/// Adjacent equal-style characters merged back into spans.
pub open spec fn coalesce(cells: Seq<(char, Style)>) -> Seq<(Seq<char>, Style)>
    decreases cells.len(),
{
    if cells.len() == 0 {
        seq![]
    } else {
        let sp = coalesce(cells.drop_last());
        let (c, st) = cells.last();
        if sp.len() > 0 && sp.last().1 == st {
            sp.update(sp.len() - 1, (sp.last().0.push(c), st))
        } else {
            sp.push((seq![c], st))
        }
    }
}

/// The number of leading space cells.
pub open spec fn leading_blank_cells(cells: Seq<(char, Style)>) -> nat
    decreases cells.len(),
{
    if cells.len() > 0 && cells[0].0 == ' ' {
        1 + leading_blank_cells(cells.subrange(1, cells.len() as int))
    } else {
        0
    }
}

/// The words of styled cells split at space cells; each word carries the space cell that
/// precedes it (the first word a plain space), so a space inside an inline-code chip keeps its
/// background.
pub open spec fn span_words(body: Seq<(char, Style)>) -> Seq<((char, Style), Seq<(char, Style)>)>
    decreases body.len(),
{
    if body.len() == 0 {
        seq![((' ', Style::spec_plain()), seq![])]
    } else {
        let ws = span_words(body.drop_last());
        let (c, st) = body.last();
        if c == ' ' {
            ws.push(((' ', st), seq![]))
        } else {
            ws.update(ws.len() - 1, (ws.last().0, ws.last().1.push((c, st))))
        }
    }
}

/// Style-preserving twin of `wrapped`: the styled characters wrapped to `width` exactly as
/// `wrapped` wraps their text (leading spaces kept on row 0 and counted against it), each row
/// re-coalesced into spans.
pub open spec fn wrapped_spans(spans: Seq<(Seq<char>, Style)>, width: nat) -> Seq<Seq<(Seq<char>, Style)>> {
    let cells = flat(spans);
    let lead = leading_blank_cells(cells);
    wrap_rows(
        cells.subrange(0, lead as int),
        span_words(cells.subrange(lead as int, cells.len() as int)),
        width,
        true,
    ).map_values(|r: Seq<(char, Style)>| coalesce(r))
}

/// The dim marker that replaces the last visible column of a right-clipped row.
pub open spec fn clip_marker() -> (char, Style) {
    ('›', Style::spec_fg(Color::Rgb(90, 90, 90)))
}

/// The styled characters in the window `[h_offset, h_offset + width)` as one row; when content
/// continues past the window, its last visible cell becomes the dim `›` marker.
pub open spec fn clipped_spans(spans: Seq<(Seq<char>, Style)>, h_offset: nat, width: nat) -> Seq<(Seq<char>, Style)> {
    let cells = flat(spans);
    let from = if h_offset < cells.len() { h_offset as int } else { cells.len() as int };
    let to = if h_offset + width < cells.len() { (h_offset + width) as int } else { cells.len() as int };
    let window = cells.subrange(from, to);
    let marked = if cells.len() > h_offset + width && window.len() > 0 {
        window.update(window.len() - 1, clip_marker())
    } else {
        window
    };
    coalesce(marked)
}

/// The spans as plain values.
pub open spec fn spans_view(v: Seq<Span>) -> Seq<(Seq<char>, Style)> {
    v.map_values(|s: Span| span_view(s))
}

/// Flatten spans to styled characters.
fn flatten(spans: &Vec<Span>) -> (cells: Vec<(char, Style)>)
    ensures
        cells@ == flat(spans_view(spans@)),
{
    let mut cells: Vec<(char, Style)> = Vec::new();
    let mut i: usize = 0;
    while i < spans.len()
        invariant
            i <= spans@.len(),
            cells@ == flat(spans_view(spans@).subrange(0, i as int)),
        decreases spans@.len() - i,
    {
        let st = spans[i].style;
        let cs = chars_of(spans[i].content.as_str());
        let ghost before = cells@;
        let mut j: usize = 0;
        while j < cs.len()
            invariant
                j <= cs@.len(),
                cells@ == before + cs@.subrange(0, j as int).map_values(|c: char| (c, st)),
            decreases cs@.len() - j,
        {
            cells.push((cs[j], st));
            j = j + 1;
            assert(cells@ =~= before + cs@.subrange(0, j as int).map_values(|c: char| (c, st)));
        }
        proof {
            let sv = spans_view(spans@);
            assert(sv.subrange(0, i + 1).drop_last() =~= sv.subrange(0, i as int));
            assert(sv.subrange(0, i + 1).last() == (cs@, st));
            assert(cs@.subrange(0, cs@.len() as int) =~= cs@);
        }
        i = i + 1;
    }
    assert(spans_view(spans@).subrange(0, spans@.len() as int) =~= spans_view(spans@));
    cells
}

/// Merge adjacent equal-style characters back into spans.
fn coalesce_spans(row: &Vec<(char, Style)>) -> (spans: Vec<Span>)
    ensures
        spans_view(spans@) == coalesce(row@),
{
    let mut spans: Vec<Span> = Vec::new();
    let mut cur: Vec<char> = Vec::new();
    let mut cur_style = Style::plain();
    let mut i: usize = 0;
    // Closed spans live in `spans`; the open one is `cur` in `cur_style` (absent while empty).
    while i < row.len()
        invariant
            i <= row@.len(),
            (cur@.len() == 0) == (i == 0),
            (if cur@.len() > 0 { spans_view(spans@).push((cur@, cur_style)) } else { spans_view(spans@) })
                == coalesce(row@.subrange(0, i as int)),
        decreases row@.len() - i,
    {
        let (c, st) = row[i];
        proof {
            assert(row@.subrange(0, i + 1).drop_last() =~= row@.subrange(0, i as int));
            assert(row@.subrange(0, i + 1).last() == (c, st));
        }
        if cur.len() > 0 && cur_style == st {
            cur.push(c);
        } else {
            if cur.len() > 0 {
                let ghost sv = spans_view(spans@);
                spans.push(Span { content: string_of(cur.as_slice()), style: cur_style });
                proof {
                    assert(spans_view(spans@) =~= sv.push((cur@, cur_style)));
                }
            }
            cur = Vec::new();
            cur.push(c);
            cur_style = st;
        }
        i = i + 1;
    }
    if cur.len() > 0 {
        let ghost sv = spans_view(spans@);
        spans.push(Span { content: string_of(cur.as_slice()), style: cur_style });
        proof {
            assert(spans_view(spans@) =~= sv.push((cur@, cur_style)));
        }
    }
    proof {
        assert(row@.subrange(0, row@.len() as int) =~= row@);
    }
    spans
}

/// The characters of styled cells.
pub open spec fn cell_chars(cells: Seq<(char, Style)>) -> Seq<char> {
    crate::wrap::map_row(cells, |c: (char, Style)| c.0)
}

proof fn lemma_leading_blank_chars(cells: Seq<(char, Style)>)
    ensures
        leading_blank_cells(cells) == leading_spaces(cell_chars(cells)),
    decreases cells.len(),
{
    if cells.len() > 0 {
        assert(cell_chars(cells.subrange(1, cells.len() as int)) =~= cell_chars(cells).subrange(
            1,
            cell_chars(cells).len() as int,
        ));
        lemma_leading_blank_chars(cells.subrange(1, cells.len() as int));
    }
}

proof fn lemma_span_words_nonempty(body: Seq<(char, Style)>)
    ensures
        span_words(body).len() >= 1,
    decreases body.len(),
{
    if body.len() > 0 {
        lemma_span_words_nonempty(body.drop_last());
    }
}

proof fn lemma_span_words_chars(body: Seq<(char, Style)>)
    ensures
        crate::wrap::map_words(span_words(body), |c: (char, Style)| c.0) == space_words(cell_chars(body)),
    decreases body.len(),
{
    let f = |c: (char, Style)| c.0;
    let text = cell_chars(body);
    if body.len() == 0 {
        assert(text =~= Seq::<char>::empty());
        assert(next_space(text, 0) == 0);
        assert(split_spaces(text) =~= seq![text]);
        assert(crate::wrap::map_row(Seq::<(char, Style)>::empty(), f) =~= Seq::<char>::empty());
        assert(crate::wrap::map_words(span_words(body), f) =~= space_words(text));
    } else {
        let b = body.drop_last();
        let (c, st) = body.last();
        lemma_span_words_chars(b);
        lemma_span_words_nonempty(b);
        crate::text::lemma_split_spaces_nonempty(cell_chars(b));
        assert(text =~= cell_chars(b).push(c));
        crate::text::lemma_split_spaces_push(cell_chars(b), c);
        let ws = span_words(b);
        let cb = cell_chars(b);
        let m = crate::wrap::map_words(ws, f);
        let sp = split_spaces(cb);
        assert(m == space_words(cb));
        assert(m.len() == sp.len());
        if c == ' ' {
            let x = ((' ', st), Seq::<(char, Style)>::empty());
            assert(span_words(body) == ws.push(x));
            assert(crate::wrap::map_row(Seq::<(char, Style)>::empty(), f) =~= Seq::<char>::empty());
            assert(crate::wrap::map_words(ws.push(x), f) =~= m.push((' ', Seq::<char>::empty())));
            assert(split_spaces(text) == sp.push(seq![]));
            assert(space_words(text) =~= space_words(cb).push((' ', Seq::<char>::empty())));
        } else {
            let n = ws.len() - 1;
            let last = ws.last().1.push((c, st));
            assert(span_words(body) == ws.update(n, (ws.last().0, last)));
            assert(crate::wrap::map_row(last, f) =~= crate::wrap::map_row(ws.last().1, f).push(c));
            assert(m[n] == (f(ws.last().0), crate::wrap::map_row(ws.last().1, f)));
            assert(m[n] == (' ', sp[n]));
            assert(split_spaces(text) == sp.update(n, sp.last().push(c)));
            assert(crate::wrap::map_words(ws.update(n, (ws.last().0, last)), f) =~= m.update(
                n,
                (' ', sp.last().push(c)),
            ));
            assert(space_words(text) =~= m.update(n, (' ', sp.last().push(c))));
        }
    }
}

proof fn lemma_flat_chars(spans: Seq<(Seq<char>, Style)>)
    ensures
        cell_chars(flat(spans)) == spans_text(spans),
    decreases spans.len(),
{
    if spans.len() > 0 {
        lemma_flat_chars(spans.drop_last());
        let l = spans.last();
        assert(cell_chars(l.0.map_values(|c: char| (c, l.1))) =~= l.0);
        assert(cell_chars(flat(spans)) =~= cell_chars(flat(spans.drop_last())) + cell_chars(
            l.0.map_values(|c: char| (c, l.1)),
        ));
    }
}

proof fn lemma_spans_text_update_last(sp: Seq<(Seq<char>, Style)>, c: char, st: Style)
    requires
        sp.len() > 0,
    ensures
        spans_text(sp.update(sp.len() - 1, (sp.last().0.push(c), st))) == spans_text(sp).push(c),
{
    let u = sp.update(sp.len() - 1, (sp.last().0.push(c), st));
    assert(u.drop_last() =~= sp.drop_last());
    assert(spans_text(u) == spans_text(sp.drop_last()) + sp.last().0.push(c));
    assert(spans_text(sp) == spans_text(sp.drop_last()) + sp.last().0);
    assert(spans_text(u) =~= spans_text(sp).push(c));
}

proof fn lemma_coalesce_chars(cells: Seq<(char, Style)>)
    ensures
        spans_text(coalesce(cells)) == cell_chars(cells),
    decreases cells.len(),
{
    if cells.len() > 0 {
        lemma_coalesce_chars(cells.drop_last());
        let sp = coalesce(cells.drop_last());
        let (c, st) = cells.last();
        assert(cell_chars(cells) =~= cell_chars(cells.drop_last()).push(c));
        if sp.len() > 0 && sp.last().1 == st {
            lemma_spans_text_update_last(sp, c, st);
        } else {
            assert(sp.push((seq![c], st)).drop_last() =~= sp);
            assert(spans_text(sp.push((seq![c], st))) =~= spans_text(sp).push(c));
        }
    }
}

/// The styled wrap keeps `wrap_line`'s rows: the text of each row of `wrapped_spans` is the
/// matching row of `wrapped` on the spans' text run together.
#[verifier::spinoff_prover]
#[verifier::rlimit(40)]
pub proof fn lemma_wrap_spans_matches_wrap_line(spans: Seq<(Seq<char>, Style)>, width: nat)
    ensures
        wrapped_spans(spans, width).map_values(|r: Seq<(Seq<char>, Style)>| spans_text(r)) == wrapped(
            spans_text(spans),
            width,
        ),
{
    let f = |c: (char, Style)| c.0;
    let cells = flat(spans);
    let lead = leading_blank_cells(cells);
    let text = spans_text(spans);
    lemma_flat_chars(spans);
    lemma_leading_blank_chars(cells);
    assert(cell_chars(cells) == text);
    let indent = cells.subrange(0, lead as int);
    let body = cells.subrange(lead as int, cells.len() as int);
    assert(lead <= cells.len()) by {
        lemma_leading_bound(text);
    }
    assert(crate::wrap::map_row(indent, f) =~= text.subrange(0, lead as int));
    assert(cell_chars(body) =~= text.subrange(lead as int, text.len() as int));
    lemma_span_words_chars(body);
    crate::wrap::lemma_wrap_rows_map(indent, span_words(body), width, true, f);
    let rows = wrap_rows(indent, span_words(body), width, true);
    assert(wrapped(text, width) == crate::wrap::map_rows(rows, f));
    assert forall|i: int| 0 <= i < rows.len() implies spans_text(#[trigger] coalesce(rows[i])) == crate::wrap::map_row(
        rows[i],
        f,
    ) by {
        lemma_coalesce_chars(rows[i]);
    }
    assert(wrapped_spans(spans, width).map_values(|r: Seq<(Seq<char>, Style)>| spans_text(r)) =~= wrapped(
        text,
        width,
    ));
}

proof fn lemma_space_words_cells(t: Seq<char>)
    ensures
        crate::wrap::words_cells(space_words(t)) == seq![' '] + t,
    decreases t.len(),
{
    if t.len() == 0 {
        assert(next_space(t, 0) == 0);
        assert(split_spaces(t) =~= seq![t]);
        assert(space_words(t) =~= seq![(' ', t)]);
        assert(space_words(t).drop_last() =~= Seq::<(char, Seq<char>)>::empty());
        assert(crate::wrap::words_cells(Seq::<(char, Seq<char>)>::empty()) == Seq::<char>::empty());
        assert(crate::wrap::words_cells(space_words(t)) == crate::wrap::words_cells(space_words(t).drop_last())
            + seq![space_words(t).last().0] + space_words(t).last().1);
        assert(crate::wrap::words_cells(space_words(t)) =~= seq![' '] + t);
    } else {
        let b = t.drop_last();
        let c = t.last();
        assert(t =~= b.push(c));
        lemma_space_words_cells(b);
        crate::text::lemma_split_spaces_nonempty(b);
        crate::text::lemma_split_spaces_push(b, c);
        let sw = space_words(b);
        let sp = split_spaces(b);
        if c == ' ' {
            assert(space_words(t) =~= sw.push((' ', Seq::<char>::empty())));
            assert(space_words(t).drop_last() =~= sw);
            assert(space_words(t).last() == (' ', Seq::<char>::empty()));
            assert(crate::wrap::words_cells(space_words(t)) == crate::wrap::words_cells(sw) + seq![' ']
                + Seq::<char>::empty());
            assert(crate::wrap::words_cells(space_words(t)) =~= seq![' '] + t);
        } else {
            let n = sp.len() - 1;
            assert(space_words(t) =~= sw.update(n, (' ', sp.last().push(c))));
            assert(space_words(t).drop_last() =~= sw.drop_last());
            assert(sw.len() == sp.len());
            assert(sw.last() == (' ', sp.last()));
            assert(crate::wrap::words_cells(sw) == crate::wrap::words_cells(sw.drop_last()) + seq![' '] + sp.last());
            assert(space_words(t).last() == (' ', sp.last().push(c)));
            assert(crate::wrap::words_cells(space_words(t)) == crate::wrap::words_cells(sw.drop_last()) + seq![' ']
                + sp.last().push(c));
            assert(seq![' '] + b == crate::wrap::words_cells(sw.drop_last()) + seq![' '] + sp.last());
            assert(crate::wrap::words_cells(space_words(t)) =~= (seq![' '] + b).push(c));
            assert(crate::wrap::words_cells(space_words(t)) =~= seq![' '] + t);
        }
    }
}

/// Wrapping loses, repeats and reorders no character but spaces: the rows of `wrapped` run
/// together hold exactly the non-space characters of `text`, in order.
#[verifier::spinoff_prover]
#[verifier::rlimit(40)]
pub proof fn lemma_wrap_keeps_every_character(text: Seq<char>, width: nat)
    ensures
        wrapped(text, width).flatten().filter(|c: char| c != ' ') == text.filter(|c: char| c != ' '),
{
    broadcast use vstd::seq_lib::group_filter_ensures, Seq::filter_distributes_over_add;

    let keep = |c: char| c != ' ';
    let lead = leading_spaces(text);
    lemma_leading_bound(text);
    let indent = text.subrange(0, lead as int);
    let body = text.subrange(lead as int, text.len() as int);
    let words = space_words(body);
    assert forall|i: int| 0 <= i < words.len() implies !keep(#[trigger] words[i].0) by {}
    crate::wrap::lemma_wrap_rows_keep_cells(indent, words, width, true, keep);
    lemma_space_words_cells(body);
    assert(seq![' '].filter(keep) =~= Seq::<char>::empty()) by {
        reveal_with_fuel(Seq::filter, 2);
        assert(seq![' '].drop_last() =~= Seq::<char>::empty());
    }
    assert(indent + (seq![' '] + body) =~= indent + seq![' '] + body);
    assert((indent + seq![' '] + body).filter(keep) == (indent + seq![' ']).filter(keep) + body.filter(keep));
    assert((indent + seq![' ']).filter(keep) == indent.filter(keep) + seq![' '].filter(keep));
    assert(text =~= indent + body);
    assert(indent.filter(keep) + Seq::<char>::empty() =~= indent.filter(keep));
}

proof fn lemma_span_words_cells(body: Seq<(char, Style)>)
    ensures
        crate::wrap::words_cells(span_words(body)) == seq![(' ', Style::spec_plain())] + body,
    decreases body.len(),
{
    if body.len() == 0 {
        assert(span_words(body).drop_last() =~= Seq::<((char, Style), Seq<(char, Style)>)>::empty());
        assert(crate::wrap::words_cells(Seq::<((char, Style), Seq<(char, Style)>)>::empty()) == Seq::<
            (char, Style),
        >::empty());
        assert(crate::wrap::words_cells(span_words(body)) =~= seq![(' ', Style::spec_plain())] + body);
    } else {
        let b = body.drop_last();
        let (c, st) = body.last();
        lemma_span_words_cells(b);
        lemma_span_words_nonempty(b);
        let ws = span_words(b);
        let pre = seq![(' ', Style::spec_plain())];
        if c == ' ' {
            let x = ((' ', st), Seq::<(char, Style)>::empty());
            assert(span_words(body).drop_last() =~= ws);
            assert(crate::wrap::words_cells(span_words(body)) == crate::wrap::words_cells(ws) + seq![(' ', st)]
                + Seq::<(char, Style)>::empty());
            assert(crate::wrap::words_cells(span_words(body)) =~= pre + body);
        } else {
            let n = ws.len() - 1;
            assert(span_words(body).drop_last() =~= ws.drop_last());
            assert(crate::wrap::words_cells(ws) == crate::wrap::words_cells(ws.drop_last()) + seq![ws.last().0]
                + ws.last().1);
            assert(crate::wrap::words_cells(span_words(body)) == crate::wrap::words_cells(ws.drop_last()) + seq![
                ws.last().0,
            ] + ws.last().1.push((c, st)));
            assert(crate::wrap::words_cells(span_words(body)) =~= (pre + b).push((c, st)));
            assert(crate::wrap::words_cells(span_words(body)) =~= pre + body);
        }
    }
}

proof fn lemma_flat_coalesce(cells: Seq<(char, Style)>)
    ensures
        flat(coalesce(cells)) == cells,
    decreases cells.len(),
{
    if cells.len() == 0 {
        assert(flat(coalesce(cells)) =~= cells);
    } else {
        lemma_flat_coalesce(cells.drop_last());
        let sp = coalesce(cells.drop_last());
        let (c, st) = cells.last();
        if sp.len() > 0 && sp.last().1 == st {
            let u = sp.update(sp.len() - 1, (sp.last().0.push(c), st));
            assert(u.drop_last() =~= sp.drop_last());
            assert(flat(sp) == flat(sp.drop_last()) + sp.last().0.map_values(|x: char| (x, sp.last().1)));
            assert(flat(u) == flat(u.drop_last()) + u.last().0.map_values(|x: char| (x, u.last().1)));
            assert(u.last().0.map_values(|x: char| (x, st)) =~= sp.last().0.map_values(|x: char| (x, st)).push(
                (c, st),
            ));
            assert(flat(u) =~= flat(sp).push((c, st)));
            assert(cells =~= cells.drop_last().push((c, st)));
            assert(flat(u) =~= cells);
        } else {
            let u = sp.push((seq![c], st));
            assert(u.drop_last() =~= sp);
            assert(flat(u) == flat(sp) + seq![c].map_values(|x: char| (x, st)));
            assert(cells =~= cells.drop_last().push((c, st)));
            assert(flat(u) =~= cells);
        }
    }
}

/// The styled wrap loses, repeats and reorders no character but spaces, and each keeps its style:
/// the rows' styled characters run together hold exactly the non-space styled characters of the
/// spans, in order.
#[verifier::spinoff_prover]
#[verifier::rlimit(40)]
pub proof fn lemma_wrap_spans_keeps_every_styled_character(spans: Seq<(Seq<char>, Style)>, width: nat)
    ensures
        wrapped_spans(spans, width).map_values(|r: Seq<(Seq<char>, Style)>| flat(r)).flatten().filter(
            |c: (char, Style)| c.0 != ' ',
        ) == flat(spans).filter(|c: (char, Style)| c.0 != ' '),
{
    broadcast use vstd::seq_lib::group_filter_ensures, Seq::filter_distributes_over_add;

    let keep = |c: (char, Style)| c.0 != ' ';
    let cells = flat(spans);
    let lead = leading_blank_cells(cells);
    lemma_leading_blank_chars(cells);
    lemma_leading_bound(cell_chars(cells));
    let indent = cells.subrange(0, lead as int);
    let body = cells.subrange(lead as int, cells.len() as int);
    let words = span_words(body);
    assert forall|i: int| 0 <= i < words.len() implies !keep(#[trigger] words[i].0) by {
        lemma_span_words_seps(body, i);
    }
    crate::wrap::lemma_wrap_rows_keep_cells(indent, words, width, true, keep);
    lemma_span_words_cells(body);
    let rows = wrap_rows(indent, words, width, true);
    assert(wrapped_spans(spans, width).map_values(|r: Seq<(Seq<char>, Style)>| flat(r)) =~= rows) by {
        assert forall|i: int| 0 <= i < rows.len() implies flat(#[trigger] coalesce(rows[i])) == rows[i] by {
            lemma_flat_coalesce(rows[i]);
        }
    }
    let pre = seq![(' ', Style::spec_plain())];
    assert(pre.filter(keep) =~= Seq::<(char, Style)>::empty()) by {
        reveal_with_fuel(Seq::filter, 2);
        assert(pre.drop_last() =~= Seq::<(char, Style)>::empty());
    }
    assert(indent + (pre + body) =~= indent + pre + body);
    assert((indent + pre + body).filter(keep) == (indent + pre).filter(keep) + body.filter(keep));
    assert((indent + pre).filter(keep) == indent.filter(keep) + pre.filter(keep));
    assert(cells =~= indent + body);
    assert(indent.filter(keep) + Seq::<(char, Style)>::empty() =~= indent.filter(keep));
}

proof fn lemma_span_words_seps(body: Seq<(char, Style)>, i: int)
    requires
        0 <= i < span_words(body).len(),
    ensures
        span_words(body)[i].0.0 == ' ',
    decreases body.len(),
{
    if body.len() > 0 {
        let b = body.drop_last();
        lemma_span_words_nonempty(b);
        let ws = span_words(b);
        if i < ws.len() {
            lemma_span_words_seps(b, i);
        }
    }
}

/// Style-preserving twin of `wrap_line` (see `wrapped_spans`). Same row invariant.
pub fn wrap_spans(spans: &Vec<Span>, width: usize) -> (rows: Vec<Vec<Span>>)
    requires
        width >= 1,
    ensures
        rows@.map_values(|r: Vec<Span>| spans_view(r@)) == wrapped_spans(spans_view(spans@), width as nat),
{
    let cells = flatten(spans);
    let mut lead: usize = 0;
    while lead < cells.len() && cells[lead].0 == ' '
        invariant
            lead <= cells@.len(),
            forall|j: int| 0 <= j < lead ==> cells@[j].0 == ' ',
        decreases cells@.len() - lead,
    {
        lead = lead + 1;
    }
    proof {
        lemma_leading_blank_cells(cells@, lead as int);
    }
    let indent = crate::wrap::slice_copy(cells.as_slice(), 0, lead);
    let body = crate::wrap::slice_copy(cells.as_slice(), lead, cells.len());
    let words = split_span_words(&body);
    let rows = wrap_items(&indent, &words, width, true);
    let mut out: Vec<Vec<Span>> = Vec::new();
    let mut i: usize = 0;
    let ghost wr = wrap_rows(indent@, words_view(words@), width as nat, true);
    while i < rows.len()
        invariant
            i <= rows@.len(),
            rows_view(rows@) == wr,
            out@.len() == i,
            forall|j: int| 0 <= j < i ==> #[trigger] spans_view(out@[j]@) == coalesce(wr[j]),
        decreases rows@.len() - i,
    {
        out.push(coalesce_spans(&rows[i]));
        i = i + 1;
    }
    proof {
        assert(indent@ =~= cells@.subrange(0, lead as int));
        assert(body@ =~= cells@.subrange(lead as int, cells@.len() as int));
        assert(out@.map_values(|r: Vec<Span>| spans_view(r@)) =~= wrapped_spans(spans_view(spans@), width as nat));
    }
    out
}

proof fn lemma_leading_blank_cells(s: Seq<(char, Style)>, k: int)
    requires
        0 <= k <= s.len(),
        forall|j: int| 0 <= j < k ==> s[j].0 == ' ',
        k == s.len() || s[k].0 != ' ',
    ensures
        leading_blank_cells(s) == k,
    decreases k,
{
    if k > 0 {
        lemma_leading_blank_cells(s.subrange(1, s.len() as int), k - 1);
    }
}

/// Split styled cells into words at space cells (see `span_words`).
fn split_span_words(body: &Vec<(char, Style)>) -> (words: Vec<((char, Style), Vec<(char, Style)>)>)
    ensures
        words_view(words@) == span_words(body@),
{
    let mut words: Vec<((char, Style), Vec<(char, Style)>)> = Vec::new();
    words.push(((' ', Style::plain()), Vec::new()));
    let mut i: usize = 0;
    proof {
        assert(body@.subrange(0, 0) =~= Seq::<(char, Style)>::empty());
        assert(words_view(words@) =~= span_words(body@.subrange(0, 0)));
    }
    while i < body.len()
        invariant
            i <= body@.len(),
            words@.len() >= 1,
            words_view(words@) == span_words(body@.subrange(0, i as int)),
        decreases body@.len() - i,
    {
        let (c, st) = body[i];
        let ghost wv = words_view(words@);
        proof {
            assert(body@.subrange(0, i + 1).drop_last() =~= body@.subrange(0, i as int));
            assert(body@.subrange(0, i + 1).last() == (c, st));
        }
        if c == ' ' {
            words.push(((' ', st), Vec::new()));
            proof {
                assert(words_view(words@) =~= wv.push(((' ', st), seq![])));
            }
        } else {
            let last = words.len() - 1;
            let (sep, mut w) = words.remove(last);
            w.push((c, st));
            words.push((sep, w));
            proof {
                assert(words_view(words@) =~= wv.update(wv.len() - 1, (wv.last().0, wv.last().1.push((c, st)))));
            }
        }
        i = i + 1;
    }
    proof {
        assert(body@.subrange(0, body@.len() as int) =~= body@);
    }
    words
}

/// Clip `spans` to the char window `[h_offset, h_offset+width)` as one row (see
/// `clipped_spans`).
pub fn clip_spans(spans: &Vec<Span>, h_offset: usize, width: usize) -> (row: Vec<Span>)
    ensures
        spans_view(row@) == clipped_spans(spans_view(spans@), h_offset as nat, width as nat),
{
    let cells = flatten(spans);
    let total = cells.len();
    let from: usize = if h_offset < total { h_offset } else { total };
    let to: usize = if h_offset < total && width < total - h_offset { h_offset + width } else { total };
    let mut window = crate::wrap::slice_copy(cells.as_slice(), from, to);
    let past = h_offset < total && total - h_offset > width;
    if past && window.len() > 0 {
        let last = window.len() - 1;
        window.set(last, ('›', Style::fg(Color::Rgb(90, 90, 90))));
    }
    coalesce_spans(&window)
}

/// What `reload_needed` does for change signature `sig`: it asks for a re-read exactly when the
/// signature moved and no notes are open; a moved signature under open notes only raises
/// `source_changed`; nothing else about the panel changes.
pub open spec fn reload_step(old: Panel, new: Panel, sig: Option<FileSig>, b: bool) -> bool {
    &&& b == (sig != old.sig && old.threads@.len() == 0)
    &&& new == (Panel {
        source_changed: old.source_changed || (sig != old.sig && old.threads@.len() > 0),
        ..old
    })
}

/// A file that changed on disk under open notes freezes the pane: no re-read, the snapshot flag
/// raised, and the panel otherwise exactly as it was (content, rows, cursor, highlight, threads).
pub proof fn lemma_changed_file_freezes_the_pane(p0: Panel, p1: Panel, sig: Option<FileSig>, b: bool)
    requires
        reload_step(p0, p1, sig, b),
        sig != p0.sig,
        p0.threads@.len() > 0,
    ensures
        !b,
        p1.source_changed,
        p1 == (Panel { source_changed: true, ..p0 }),
{
}

/// Once the notes are gone (submitted or discarded), the next check of a moved signature asks for
/// the re-read, and taking it in clears the snapshot flag (see `apply_reload`).
pub proof fn lemma_frozen_pane_reloads_once_notes_are_gone(p1: Panel, p2: Panel, sig: Option<FileSig>, b: bool)
    requires
        reload_step(p1, p2, sig, b),
        sig != p1.sig,
        p1.threads@.len() == 0,
    ensures
        b,
        p2 == p1,
{
}

/// A review starts with the `[laura review · <path>]` title line; the snapshot warning follows it
/// exactly when the source changed under the notes; the overall comment comes next, between
/// newlines, exactly when it is non-empty; the threads' blocks, sorted by row, make up the rest.
pub proof fn lemma_review_shape(p: Panel, overall: Seq<char>)
    ensures
        p.spec_review(overall) == "[laura review · "@ + p.path@ + "]\n"@ + (if p.source_changed {
            snapshot_warning()
        } else {
            seq![]
        }) + (if overall.len() > 0 {
            "\n"@ + overall + "\n"@
        } else {
            seq![]
        }) + threads_text(p.source@, p.source_text(), by_line(p.threads_v())),
{
}

} // verus!
