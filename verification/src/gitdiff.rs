//! Fold a file's `git diff --unified=0 HEAD` output into per-line gutter markers and the
//! deleted text the inline diff view shows. Running `git` is the front-end's job; this module
//! reads what it printed.

use vstd::prelude::*;

use crate::text::{chars_of, is_whitespace, is_ws, lines_of, slice_chars, split_lines, string_of};

verus! {

/// The change a source line carries against HEAD.
#[derive(Clone, Copy, PartialEq, Eq, Debug, Structural)]
pub enum ChangeKind {
    Added,
    Modified,
    /// Deleted lines; carries the count for the synthetic gap row.
    Removed(usize),
}

/// One zero-context hunk, keyed to current (new-file) line numbers.
#[derive(Debug, PartialEq, Eq)]
pub struct Hunk {
    /// 1-based new-file line the hunk's added lines start at (the line *above* the gap for a
    /// pure deletion).
    pub new_start: usize,
    /// Old lines (text, prefix stripped).
    pub removed: Vec<String>,
    /// New lines (text, prefix stripped).
    pub added: Vec<String>,
}

/// A hunk as plain values.
pub struct HunkView {
    pub new_start: usize,
    pub removed: Seq<Seq<char>>,
    pub added: Seq<Seq<char>>,
}

impl View for Hunk {
    type V = HunkView;

    open spec fn view(&self) -> HunkView {
        HunkView {
            new_start: self.new_start,
            removed: self.removed@.map_values(|s: String| s@),
            added: self.added@.map_values(|s: String| s@),
        }
    }
}

/// What diffing a file against HEAD produced.
pub enum DiffOutcome {
    /// Parsed hunks (empty = clean / identical to HEAD).
    Parsed(Vec<Hunk>),
    /// `git` binary not found: drives the warning + toast.
    NoGit,
    /// Untracked / non-repo / any other error: silent, no markers.
    Unavailable,
}

/// How running `git diff` went.
pub enum GitRun {
    /// `git` ran and exited; `stdout` is its (lossily decoded) output.
    Exited { success: bool, stdout: String },
    /// No `git` binary on the path.
    NotFound,
    /// The path could not be resolved, or spawning failed for another reason.
    Failed,
}

/// A `'+'` that starts a whitespace-separated token.
pub open spec fn plus_token_at(s: Seq<char>, j: int) -> bool {
    s[j] == '+' && (j == 0 || is_ws(s[j - 1]))
}

/// The first position at or after `i` where a token starting with `'+'` begins, else `s.len()`.
pub open spec fn first_plus_token(s: Seq<char>, i: int) -> int
    decreases s.len() - i,
{
    if i >= s.len() {
        s.len() as int
    } else if plus_token_at(s, i) {
        i
    } else {
        first_plus_token(s, i + 1)
    }
}

/// The first position at or after `i` that is not a `'+'`, else `s.len()`.
pub open spec fn skip_plus(s: Seq<char>, i: int) -> int
    decreases s.len() - i,
{
    if i >= s.len() {
        s.len() as int
    } else if s[i] == '+' {
        skip_plus(s, i + 1)
    } else {
        i
    }
}

/// The first position at or after `i` holding a `','` or whitespace, else `s.len()`.
pub open spec fn field_end(s: Seq<char>, i: int) -> int
    decreases s.len() - i,
{
    if i >= s.len() {
        s.len() as int
    } else if s[i] == ',' || is_ws(s[i]) {
        i
    } else {
        field_end(s, i + 1)
    }
}

/// Every character is an ASCII digit.
pub open spec fn all_digits(d: Seq<char>) -> bool {
    forall|i: int| 0 <= i < d.len() ==> '0' <= #[trigger] d[i] <= '9'
}

/// The number the decimal digits `d` spell.
pub open spec fn digits_value(d: Seq<char>) -> nat
    decreases d.len(),
{
    if d.len() == 0 {
        0
    } else {
        digits_value(d.drop_last()) * 10 + (d.last() as nat - 48) as nat
    }
}

/// The new-file start `c` of a hunk header tail ` -a,b +c,d @@ …`: the first whitespace token
/// beginning with `'+'`, its `'+'`s dropped, cut at the first `','`, read as a decimal `usize`.
pub open spec fn new_start_of(rest: Seq<char>) -> Option<usize> {
    let p = first_plus_token(rest, 0);
    if p >= rest.len() {
        None
    } else {
        let q = skip_plus(rest, p);
        let field = rest.subrange(q, field_end(rest, q));
        if field.len() > 0 && all_digits(field) && digits_value(field) <= usize::MAX {
            Some(digits_value(field) as usize)
        } else {
            None
        }
    }
}

/// The hunks of a diff read line by line: an `@@` line whose header has a readable new-file
/// start opens a hunk; inside a hunk a `+` line is added text and a `-` line removed text
/// (prefix dropped); every other line is ignored.
pub open spec fn parse_lines(lines: Seq<Seq<char>>) -> Seq<HunkView>
    decreases lines.len(),
{
    if lines.len() == 0 {
        seq![]
    } else {
        let hs = parse_lines(lines.drop_last());
        let line = lines.last();
        if line.len() >= 2 && line[0] == '@' && line[1] == '@' {
            match new_start_of(line.subrange(2, line.len() as int)) {
                Some(n) => hs.push(HunkView { new_start: n, removed: seq![], added: seq![] }),
                None => hs,
            }
        } else if hs.len() > 0 && line.len() >= 1 && line[0] == '+' {
            let h = hs.last();
            hs.update(
                hs.len() - 1,
                HunkView { added: h.added.push(line.subrange(1, line.len() as int)), ..h },
            )
        } else if hs.len() > 0 && line.len() >= 1 && line[0] == '-' {
            let h = hs.last();
            hs.update(
                hs.len() - 1,
                HunkView { removed: h.removed.push(line.subrange(1, line.len() as int)), ..h },
            )
        } else {
            hs
        }
    }
}

proof fn lemma_digits_value_grows(d: Seq<char>, k: int)
    requires
        0 <= k <= d.len(),
        all_digits(d),
    ensures
        digits_value(d.subrange(0, k)) <= digits_value(d),
    decreases d.len(),
{
    if k < d.len() {
        assert(d.subrange(0, k) =~= d.drop_last().subrange(0, k));
        lemma_digits_value_grows(d.drop_last(), k);
    } else {
        assert(d.subrange(0, k) =~= d);
    }
}

/// From an `@@` header's tail, the new-file start `c`; see `new_start_of`.
fn parse_new_start(rest: &[char]) -> (r: Option<usize>)
    ensures
        r == new_start_of(rest@),
{
    let n = rest.len();
    let ghost s = rest@;
    // Find the first token that starts with '+'.
    let mut p: usize = 0;
    while p < n && !(rest[p] == '+' && (p == 0 || is_whitespace(rest[p - 1])))
        invariant
            p <= n == s.len(),
            s == rest@,
            first_plus_token(s, 0) == first_plus_token(s, p as int),
        decreases n - p,
    {
        p = p + 1;
    }
    proof {
        if p < n {
            assert(plus_token_at(s, p as int));
        }
        assert(first_plus_token(s, 0) == p);
    }
    if p >= n {
        return None;
    }
    let mut q: usize = p;
    while q < n && rest[q] == '+'
        invariant
            p <= q <= n == s.len(),
            s == rest@,
            skip_plus(s, p as int) == skip_plus(s, q as int),
        decreases n - q,
    {
        q = q + 1;
    }
    let mut c: usize = q;
    while c < n && !(rest[c] == ',' || is_whitespace(rest[c]))
        invariant
            q <= c <= n == s.len(),
            s == rest@,
            field_end(s, q as int) == field_end(s, c as int),
            forall|i: int| q <= i < c ==> rest@[i] != ',' && !is_ws(rest@[i]),
        decreases n - c,
    {
        c = c + 1;
    }
    proof {
        assert(skip_plus(s, p as int) == q);
        assert(field_end(s, q as int) == c);
    }
    let ghost field = s.subrange(q as int, c as int);
    assert(new_start_of(s) == (if field.len() > 0 && all_digits(field) && digits_value(field)
        <= usize::MAX {
        Some(digits_value(field) as usize)
    } else {
        None::<usize>
    }));
    if c == q {
        return None;
    }
    let mut val: usize = 0;
    let mut k: usize = q;
    while k < c
        invariant
            q <= k <= c <= n == s.len(),
            s == rest@,
            field == s.subrange(q as int, c as int),
            field.len() > 0,
            new_start_of(s) == (if field.len() > 0 && all_digits(field) && digits_value(field)
                <= usize::MAX {
                Some(digits_value(field) as usize)
            } else {
                None::<usize>
            }),
            all_digits(s.subrange(q as int, k as int)),
            val == digits_value(s.subrange(q as int, k as int)),
        decreases c - k,
    {
        let ch = rest[k];
        if !('0' <= ch && ch <= '9') {
            proof {
                assert(field[k - q] == ch);
            }
            return None;
        }
        let d: usize = if ch == '0' { 0 } else if ch == '1' { 1 } else if ch == '2' { 2 } else if ch == '3' {
            3
        } else if ch == '4' { 4 } else if ch == '5' { 5 } else if ch == '6' { 6 } else if ch == '7' {
            7
        } else if ch == '8' { 8 } else { 9 };
        proof {
            let pre = s.subrange(q as int, k as int);
            let nxt = s.subrange(q as int, k + 1);
            assert(nxt.drop_last() =~= pre);
            assert(d == nxt.last() as nat - 48);
        }
        if val > (usize::MAX - d) / 10 {
            proof {
                let nxt = s.subrange(q as int, k + 1);
                assert(nxt.drop_last() =~= s.subrange(q as int, k as int));
                assert(digits_value(nxt) > usize::MAX) by (nonlinear_arith)
                    requires
                        digits_value(nxt) == val * 10 + d,
                        val > (usize::MAX - d) / 10,
                        d <= 9,
                ;
                if all_digits(field) {
                    assert(field.subrange(0, k + 1 - q) =~= nxt);
                    lemma_digits_value_grows(field, k + 1 - q);
                }
            }
            return None;
        }
        proof {
            assert(val * 10 + d <= usize::MAX) by (nonlinear_arith)
                requires
                    val <= (usize::MAX - d) / 10,
                    d <= 9,
            ;
        }
        val = val * 10 + d;
        k = k + 1;
    }
    proof {
        assert(field =~= s.subrange(q as int, k as int));
    }
    Some(val)
}

/// `line` begins with `@@`.
fn is_header(line: &[char]) -> (b: bool)
    ensures
        b == (line@.len() >= 2 && line@[0] == '@' && line@[1] == '@'),
{
    line.len() >= 2 && line[0] == '@' && line[1] == '@'
}

/// Parse `git diff --unified=0` output into hunks (see `parse_lines`). Header math is trusted
/// over re-counting bodies: git's contract.
pub fn parse(text: &str) -> (hunks: Vec<Hunk>)
    ensures
        hunks@.map_values(|h: Hunk| h@) == parse_lines(lines_of(text@)),
{
    let chars = chars_of(text);
    let lines = split_lines(chars.as_slice());
    let ghost ls = lines@.map_values(|l: Vec<char>| l@);
    let mut hunks: Vec<Hunk> = Vec::new();
    let mut i: usize = 0;
    while i < lines.len()
        invariant
            i <= lines@.len(),
            ls == lines@.map_values(|l: Vec<char>| l@),
            hunks@.map_values(|h: Hunk| h@) == parse_lines(ls.subrange(0, i as int)),
        decreases lines@.len() - i,
    {
        let line = &lines[i];
        let ghost prev = hunks@.map_values(|h: Hunk| h@);
        proof {
            assert(ls.subrange(0, i + 1).drop_last() =~= ls.subrange(0, i as int));
            assert(ls.subrange(0, i + 1).last() == line@);
        }
        if is_header(line.as_slice()) {
            let tail = slice_chars(line.as_slice(), 2, line.len());
            match parse_new_start(tail.as_slice()) {
                Some(n) => {
                    let nh = Hunk { new_start: n, removed: Vec::new(), added: Vec::new() };
                    proof {
                        assert(nh@.removed =~= Seq::<Seq<char>>::empty());
                        assert(nh@.added =~= Seq::<Seq<char>>::empty());
                    }
                    hunks.push(nh);
                    proof {
                        assert(hunks@.map_values(|h: Hunk| h@) =~= prev.push(
                            HunkView { new_start: n, removed: seq![], added: seq![] },
                        ));
                    }
                },
                None => {},
            }
        } else if hunks.len() > 0 && line.len() >= 1 && (line[0] == '+' || line[0] == '-') {
            let plus = line[0] == '+';
            let body = slice_chars(line.as_slice(), 1, line.len());
            let text_line = string_of(body.as_slice());
            let mut h = hunks.pop().unwrap();
            let ghost hv = h@;
            if plus {
                h.added.push(text_line);
                proof {
                    assert(h@.added =~= hv.added.push(line@.subrange(1, line@.len() as int)));
                }
            } else {
                h.removed.push(text_line);
                proof {
                    assert(h@.removed =~= hv.removed.push(line@.subrange(1, line@.len() as int)));
                }
            }
            hunks.push(h);
            proof {
                assert(hunks@.map_values(|h: Hunk| h@) =~= prev.update(prev.len() - 1, h@));
            }
        }
        i = i + 1;
    }
    proof {
        assert(ls.subrange(0, lines@.len() as int) =~= ls);
    }
    hunks
}

/// Classify one `git diff` run: a successful exit's output is parsed; a missing binary is
/// `NoGit`; anything else (non-zero exit, unresolvable path, other spawn failure) is
/// `Unavailable`.
pub fn outcome(run: GitRun) -> (o: DiffOutcome)
    ensures
        match run {
            GitRun::Exited { success: true, stdout } => o matches DiffOutcome::Parsed(hs)
                && hs@.map_values(|h: Hunk| h@) == parse_lines(lines_of(stdout@)),
            GitRun::Exited { success: false, .. } => o is Unavailable,
            GitRun::NotFound => o is NoGit,
            GitRun::Failed => o is Unavailable,
        },
{
    match run {
        GitRun::Exited { success, stdout } => {
            if success {
                DiffOutcome::Parsed(parse(stdout.as_str()))
            } else {
                DiffOutcome::Unavailable
            }
        },
        GitRun::NotFound => DiffOutcome::NoGit,
        GitRun::Failed => DiffOutcome::Unavailable,
    }
}

} // verus!

verus! {

/// `n - 1`, floored at 0.
pub open spec fn dec_floor(n: usize) -> int {
    if n >= 1 { n - 1 } else { 0 }
}

/// Apply one hunk to a per-line marker column. A pure deletion marks the surviving line below
/// the gap (0-based `new_start`, clamped onto the last line) with `Removed(count)`; otherwise the
/// added lines (from 1-based `new_start`) are marked `Added`, or `Modified` when the hunk also
/// removed lines; marks past the end are dropped.
pub open spec fn fold_hunk(out: Seq<Option<ChangeKind>>, h: HunkView) -> Seq<Option<ChangeKind>> {
    if h.added.len() == 0 {
        let idx = if h.new_start < out.len() - 1 { h.new_start as int } else { out.len() - 1 };
        out.update(idx, Some(ChangeKind::Removed(h.removed.len() as usize)))
    } else {
        let base = dec_floor(h.new_start);
        let kind = if h.removed.len() == 0 { ChangeKind::Added } else { ChangeKind::Modified };
        Seq::new(
            out.len(),
            |j: int| if base <= j < base + h.added.len() { Some(kind) } else { out[j] },
        )
    }
}

/// Markers for a `line_count`-line file: all `None`, then each hunk folded in order.
pub open spec fn changes_of(hs: Seq<HunkView>, line_count: nat) -> Seq<Option<ChangeKind>>
    decreases hs.len(),
{
    if line_count == 0 {
        seq![]
    } else if hs.len() == 0 {
        Seq::new(line_count, |j: int| None::<ChangeKind>)
    } else {
        fold_hunk(changes_of(hs.drop_last(), line_count), hs.last())
    }
}

/// The added-line indices of `h` fit in a `usize`.
pub open spec fn hunk_in_range(h: HunkView) -> bool {
    dec_floor(h.new_start) + h.added.len() <= usize::MAX + 1
}

proof fn lemma_changes_len(hs: Seq<HunkView>, line_count: nat)
    ensures
        changes_of(hs, line_count).len() == line_count,
    decreases hs.len(),
{
    if line_count > 0 && hs.len() > 0 {
        lemma_changes_len(hs.drop_last(), line_count);
    }
}

/// A deletion marks the surviving line just below the gap. After the hunks `hs`, when the last one
/// is a pure deletion (nothing added) starting at 0-based line `new_start` that is not the file's
/// last line, that line carries `Removed(count)` with the number of deleted lines; every other
/// line keeps the marker the earlier hunks gave it. A deletion at or past the last line marks the
/// last line.
pub proof fn lemma_deletion_marks_the_line_below_the_gap(hs: Seq<HunkView>, line_count: nat)
    requires
        line_count >= 1,
        hs.len() >= 1,
        hs.last().added.len() == 0,
    ensures
        ({
            let h = hs.last();
            let out = changes_of(hs, line_count);
            let before = changes_of(hs.drop_last(), line_count);
            let at = if h.new_start < line_count - 1 { h.new_start as int } else { line_count - 1 };
            &&& out.len() == line_count
            &&& out[at] == Some(ChangeKind::Removed(h.removed.len() as usize))
            &&& forall|j: int| 0 <= j < line_count && j != at ==> #[trigger] out[j] == before[j]
            &&& h.new_start < line_count - 1 ==> out[h.new_start as int] == Some(
                ChangeKind::Removed(h.removed.len() as usize),
            )
        }),
{
    lemma_changes_len(hs.drop_last(), line_count);
    lemma_changes_len(hs, line_count);
}

/// Added lines carry `Added`, or `Modified` when the hunk also removed lines: after the hunks
/// `hs`, when the last one adds lines starting at 1-based line `new_start`, each of those lines
/// (as far as the file reaches) carries that marker, and every other line keeps the marker the
/// earlier hunks gave it.
pub proof fn lemma_added_lines_are_marked(hs: Seq<HunkView>, line_count: nat)
    requires
        line_count >= 1,
        hs.len() >= 1,
        hs.last().added.len() > 0,
    ensures
        ({
            let h = hs.last();
            let out = changes_of(hs, line_count);
            let before = changes_of(hs.drop_last(), line_count);
            let first = if h.new_start >= 1 { h.new_start - 1 } else { 0 };
            let kind = if h.removed.len() == 0 { ChangeKind::Added } else { ChangeKind::Modified };
            &&& out.len() == line_count
            &&& forall|j: int| first <= j < first + h.added.len() && j < line_count ==> #[trigger] out[j] == Some(kind)
            &&& forall|j: int|
                0 <= j < line_count && !(first <= j < first + h.added.len()) ==> #[trigger] out[j] == before[j]
        }),
{
    lemma_changes_len(hs.drop_last(), line_count);
    lemma_changes_len(hs, line_count);
}

/// With no hunks, no line is marked.
pub proof fn lemma_no_hunks_no_markers(line_count: nat)
    ensures
        changes_of(seq![], line_count).len() == line_count,
        forall|j: int| 0 <= j < line_count ==> #[trigger] changes_of(seq![], line_count)[j] is None,
{
}

/// Fold hunks into per-source-line markers, 1:1 with a `line_count`-line file (see `fold_hunk`).
/// `None` = unchanged.
pub fn line_changes(hunks: &[Hunk], line_count: usize) -> (out: Vec<Option<ChangeKind>>)
    requires
        forall|k: int| 0 <= k < hunks@.len() ==> hunk_in_range(#[trigger] hunks@[k]@),
    ensures
        out@ == changes_of(hunks@.map_values(|h: Hunk| h@), line_count as nat),
        out@.len() == line_count,
{
    let ghost hs = hunks@.map_values(|h: Hunk| h@);
    let mut out: Vec<Option<ChangeKind>> = Vec::new();
    if line_count == 0 {
        return out;
    }
    let mut j: usize = 0;
    while j < line_count
        invariant
            j <= line_count,
            out@.len() == j,
            forall|i: int| 0 <= i < j ==> out@[i] is None,
        decreases line_count - j,
    {
        out.push(None);
        j = j + 1;
    }
    proof {
        assert(out@ =~= changes_of(hs.subrange(0, 0), line_count as nat));
    }
    let mut k: usize = 0;
    while k < hunks.len()
        invariant
            k <= hunks@.len(),
            line_count > 0,
            hs == hunks@.map_values(|h: Hunk| h@),
            forall|k: int| 0 <= k < hunks@.len() ==> hunk_in_range(#[trigger] hunks@[k]@),
            out@ == changes_of(hs.subrange(0, k as int), line_count as nat),
            out@.len() == line_count,
        decreases hunks@.len() - k,
    {
        let h = &hunks[k];
        let ghost before = out@;
        proof {
            assert(hs.subrange(0, k + 1).drop_last() =~= hs.subrange(0, k as int));
            assert(hs.subrange(0, k + 1).last() == h@);
            assert(hunk_in_range(hunks@[k as int]@));
        }
        if h.added.len() == 0 {
            let idx = if h.new_start < line_count - 1 { h.new_start } else { line_count - 1 };
            out.set(idx, Some(ChangeKind::Removed(h.removed.len())));
            proof {
                assert(out@ =~= fold_hunk(before, h@));
            }
        } else {
            let kind = if h.removed.len() == 0 { ChangeKind::Added } else { ChangeKind::Modified };
            let base: usize = if h.new_start >= 1 { h.new_start - 1 } else { 0 };
            let mut i: usize = 0;
            while i < h.added.len()
                invariant
                    i <= h.added@.len(),
                    base == dec_floor(h.new_start),
                    base + h.added@.len() <= usize::MAX + 1,
                    out@.len() == line_count,
                    before.len() == line_count,
                    forall|j: int| 0 <= j < line_count ==> out@[j] == (if base <= j < base + i {
                        Some(kind)
                    } else {
                        before[j]
                    }),
                decreases h.added@.len() - i,
            {
                let idx = base + i;
                if idx < line_count {
                    out.set(idx, Some(kind));
                }
                i = i + 1;
            }
            proof {
                assert(out@ =~= fold_hunk(before, h@));
            }
        }
        k = k + 1;
    }
    proof {
        assert(hs.subrange(0, hunks@.len() as int) =~= hs);
    }
    out
}

/// Deleted-line text keyed by the 0-based line its gap sits before, one entry per hunk that
/// removed lines, in hunk order: a pure deletion keys to `new_start`, a modification to
/// `new_start - 1` (floored at 0); keys are clamped to `line_count` (an EOF deletion trails).
pub open spec fn removed_of(hs: Seq<HunkView>, line_count: nat) -> Seq<(usize, Seq<Seq<char>>)>
    decreases hs.len(),
{
    if hs.len() == 0 {
        seq![]
    } else {
        let rest = removed_of(hs.drop_last(), line_count);
        let h = hs.last();
        if h.removed.len() == 0 {
            rest
        } else {
            let idx = if h.added.len() == 0 { h.new_start as int } else { dec_floor(h.new_start) };
            rest.push((if idx < line_count { idx as usize } else { line_count as usize }, h.removed))
        }
    }
}

/// A copy of a list of strings.
pub fn clone_strings(v: &Vec<String>) -> (r: Vec<String>)
    ensures
        r@.map_values(|s: String| s@) == v@.map_values(|s: String| s@),
{
    let mut r: Vec<String> = Vec::new();
    let mut i: usize = 0;
    while i < v.len()
        invariant
            i <= v@.len(),
            r@.len() == i,
            forall|j: int| 0 <= j < i ==> r@[j]@ == v@[j]@,
        decreases v@.len() - i,
    {
        let s = v[i].clone();
        r.push(s);
        i = i + 1;
    }
    assert(r@.map_values(|s: String| s@) =~= v@.map_values(|s: String| s@));
    r
}

/// Fold hunks into deleted-line text keyed by the line its gap sits before (see `removed_of`).
pub fn removed_lines(hunks: &[Hunk], line_count: usize) -> (out: Vec<(usize, Vec<String>)>)
    ensures
        out@.map_values(|e: (usize, Vec<String>)| (e.0, e.1@.map_values(|s: String| s@)))
            == removed_of(hunks@.map_values(|h: Hunk| h@), line_count as nat),
{
    let ghost hs = hunks@.map_values(|h: Hunk| h@);
    let mut out: Vec<(usize, Vec<String>)> = Vec::new();
    let mut k: usize = 0;
    while k < hunks.len()
        invariant
            k <= hunks@.len(),
            hs == hunks@.map_values(|h: Hunk| h@),
            out@.map_values(|e: (usize, Vec<String>)| (e.0, e.1@.map_values(|s: String| s@)))
                == removed_of(hs.subrange(0, k as int), line_count as nat),
        decreases hunks@.len() - k,
    {
        let h = &hunks[k];
        let ghost before = out@;
        proof {
            assert(hs.subrange(0, k + 1).drop_last() =~= hs.subrange(0, k as int));
            assert(hs.subrange(0, k + 1).last() == h@);
        }
        if h.removed.len() > 0 {
            let idx: usize = if h.added.len() == 0 {
                h.new_start
            } else if h.new_start >= 1 {
                h.new_start - 1
            } else {
                0
            };
            let key = if idx < line_count { idx } else { line_count };
            let texts = clone_strings(&h.removed);
            out.push((key, texts));
            proof {
                assert(out@.map_values(|e: (usize, Vec<String>)| (e.0, e.1@.map_values(|s: String| s@)))
                    =~= before.map_values(|e: (usize, Vec<String>)| (e.0, e.1@.map_values(|s: String| s@)))
                    .push((key, h@.removed)));
            }
        }
        k = k + 1;
    }
    proof {
        assert(hs.subrange(0, hunks@.len() as int) =~= hs);
    }
    out
}

} // verus!
