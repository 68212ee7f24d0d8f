//! Naming rules of the session journal: where a session's NDJSON file lives under the data
//! directory, the runtime scratch directory, which paths belong to it, and the build label
//! every event carries. Finding the data directory and appending to the file are the
//! front-end's job.

use vstd::prelude::*;

use crate::text::{chars_of, decimal, push_decimal, push_str_chars, string_of};

verus! {

/// A character a session file stem keeps: ASCII letters and digits, `-`, `_` and `.`.
pub open spec fn stem_char(c: char) -> bool {
    ('a' <= c && c <= 'z') || ('A' <= c && c <= 'Z') || ('0' <= c && c <= '9') || c == '-' || c
        == '_' || c == '.'
}

/// `s` as a safe file stem: every other character becomes `_`; an empty id becomes `session`.
pub open spec fn sanitized(s: Seq<char>) -> Seq<char> {
    if s.len() == 0 {
        seq!['s', 'e', 's', 's', 'i', 'o', 'n']
    } else {
        s.map_values(|c: char| if stem_char(c) { c } else { '_' })
    }
}

/// `b` appended to `a` as a path: an absolute `b` replaces `a`; otherwise one `/` goes between
/// them unless `a` is empty or already ends in one.
pub open spec fn joined(a: Seq<char>, b: Seq<char>) -> Seq<char> {
    if b.len() > 0 && b[0] == '/' {
        b
    } else if a.len() == 0 || a.last() == '/' {
        a + b
    } else {
        a + seq!['/'] + b
    }
}

/// `laura`
pub open spec fn app_dir_name() -> Seq<char> {
    seq!['l', 'a', 'u', 'r', 'a']
}

/// The per-session NDJSON path: `<data>/laura/sessions/<stem>.ndjson`.
pub open spec fn spec_session_path(data_dir: Seq<char>, session: Seq<char>) -> Seq<char> {
    joined(
        joined(joined(data_dir, app_dir_name()), seq!['s', 'e', 's', 's', 'i', 'o', 'n', 's']),
        sanitized(session) + seq!['.', 'n', 'd', 'j', 's', 'o', 'n'],
    )
}

/// The runtime scratch directory: `<data>/laura/runtime`.
pub open spec fn spec_runtime_dir(data_dir: Seq<char>) -> Seq<char> {
    joined(joined(data_dir, app_dir_name()), seq!['r', 'u', 'n', 't', 'i', 'm', 'e'])
}

/// The index of the first `/` at or after `i`, or `p.len()`.
pub open spec fn next_sep(p: Seq<char>, i: int) -> int
    decreases p.len() - i,
{
    if i >= p.len() {
        p.len() as int
    } else if p[i] == '/' {
        i
    } else {
        next_sep(p, i + 1)
    }
}

/// The next separator lies at or after `i`, past a non-separator.
pub proof fn lemma_next_sep_bounds(p: Seq<char>, i: int)
    requires
        0 <= i <= p.len(),
    ensures
        i <= next_sep(p, i) <= p.len(),
        i < p.len() && p[i] != '/' ==> next_sep(p, i) > i,
    decreases p.len() - i,
{
    if i < p.len() && p[i] != '/' {
        lemma_next_sep_bounds(p, i + 1);
    }
}

/// The named components of `p` from position `i`: separators, repeated or trailing, delimit
/// them, and a `.` is dropped unless it opens a relative path.
pub open spec fn comps_from(p: Seq<char>, i: int, at_start: bool) -> Seq<Seq<char>>
    decreases p.len() - i,
{
    if i < 0 || i >= p.len() {
        seq![]
    } else if p[i] == '/' {
        comps_from(p, i + 1, false)
    } else {
        let e = next_sep(p, i);
        proof {
            lemma_next_sep_bounds(p, i);
        }
        let piece = p.subrange(i, e);
        if piece == seq!['.'] && !at_start {
            comps_from(p, e, false)
        } else {
            seq![piece] + comps_from(p, e, false)
        }
    }
}

/// A path's components: a leading `/` is the root, then the named components.
pub open spec fn components(p: Seq<char>) -> Seq<Seq<char>> {
    if p.len() > 0 && p[0] == '/' {
        seq![seq!['/']] + comps_from(p, 1, false)
    } else {
        comps_from(p, 0, true)
    }
}

/// `base`'s components are a prefix of `path`'s.
pub open spec fn path_starts_with(path: Seq<char>, base: Seq<char>) -> bool {
    let a = components(path);
    let b = components(base);
    b.len() <= a.len() && a.subrange(0, b.len() as int) == b
}

/// No component of `path` past the first `components(base).len()` is `..`: the rest of the path
/// never climbs back out of `base`.
pub open spec fn stays_below(path: Seq<char>, base: Seq<char>) -> bool {
    let a = components(path);
    let n = components(base).len();
    forall|k: int| n <= k < a.len() ==> #[trigger] a[k] != seq!['.', '.']
}

/// The build label: the version, then `+` and the commit when one is known.
pub open spec fn spec_build_version(version: Seq<char>, commit: Seq<char>) -> Seq<char> {
    if commit.len() == 0 {
        version
    } else {
        version + seq!['+'] + commit
    }
}

/// `s` as a safe file stem (see `sanitized`).
pub fn sanitize(s: &str) -> (r: String)
    ensures
        r@ == sanitized(s@),
{
    let c = chars_of(s);
    let mut out: Vec<char> = Vec::new();
    if c.len() == 0 {
        out.push('s');
        out.push('e');
        out.push('s');
        out.push('s');
        out.push('i');
        out.push('o');
        out.push('n');
        assert(out@ =~= sanitized(s@));
        return string_of(out.as_slice());
    }
    let mut i: usize = 0;
    while i < c.len()
        invariant
            i <= c@.len(),
            c@ == s@,
            out@ == s@.subrange(0, i as int).map_values(|ch: char| if stem_char(ch) { ch } else { '_' }),
        decreases c@.len() - i,
    {
        let ch = c[i];
        let keep = ('a' <= ch && ch <= 'z') || ('A' <= ch && ch <= 'Z') || ('0' <= ch && ch <= '9')
            || ch == '-' || ch == '_' || ch == '.';
        out.push(if keep { ch } else { '_' });
        proof {
            assert(s@.subrange(0, i + 1) =~= s@.subrange(0, i as int).push(ch));
            assert(out@ =~= s@.subrange(0, i + 1).map_values(|ch: char| if stem_char(ch) { ch } else { '_' }));
        }
        i = i + 1;
    }
    assert(s@.subrange(0, s@.len() as int) =~= s@);
    string_of(out.as_slice())
}

/// Append `b` to the path in `a` (see `joined`).
fn join_into(a: &mut Vec<char>, b: &[char])
    ensures
        final(a)@ == joined(old(a)@, b@),
{
    if b.len() > 0 && b[0] == '/' {
        a.clear();
        crate::text::push_chars(a, b);
        assert(a@ =~= b@);
    } else if a.len() == 0 || a[a.len() - 1] == '/' {
        crate::text::push_chars(a, b);
    } else {
        a.push('/');
        crate::text::push_chars(a, b);
    }
}

fn app_dir(data_dir: &str) -> (v: Vec<char>)
    ensures
        v@ == joined(data_dir@, app_dir_name()),
{
    let mut v = chars_of(data_dir);
    let name = chars_of("laura");
    proof {
        reveal_strlit("laura");
    }
    join_into(&mut v, name.as_slice());
    v
}

/// The per-session NDJSON path under `data_dir` (see `spec_session_path`).
pub fn session_path(data_dir: &str, session: &str) -> (p: String)
    ensures
        p@ == spec_session_path(data_dir@, session@),
{
    let mut v = app_dir(data_dir);
    let sessions = chars_of("sessions");
    proof {
        reveal_strlit("sessions");
    }
    join_into(&mut v, sessions.as_slice());
    let stem = sanitize(session);
    let mut file = chars_of(stem.as_str());
    file.push('.');
    file.push('n');
    file.push('d');
    file.push('j');
    file.push('s');
    file.push('o');
    file.push('n');
    assert(file@ =~= sanitized(session@) + seq!['.', 'n', 'd', 'j', 's', 'o', 'n']);
    join_into(&mut v, file.as_slice());
    string_of(v.as_slice())
}

/// The runtime scratch directory under `data_dir` (see `spec_runtime_dir`).
pub fn runtime_dir(data_dir: &str) -> (p: String)
    ensures
        p@ == spec_runtime_dir(data_dir@),
{
    let mut v = app_dir(data_dir);
    let rt = chars_of("runtime");
    proof {
        reveal_strlit("runtime");
    }
    join_into(&mut v, rt.as_slice());
    string_of(v.as_slice())
}

/// The components of `p` (see `components`).
fn path_components(p: &[char]) -> (out: Vec<Vec<char>>)
    ensures
        out@.map_values(|c: Vec<char>| c@) == components(p@),
{
    let mut out: Vec<Vec<char>> = Vec::new();
    let mut i: usize = 0;
    let mut at_start = true;
    if p.len() > 0 && p[0] == '/' {
        let mut root: Vec<char> = Vec::new();
        root.push('/');
        out.push(root);
        i = 1;
        at_start = false;
        assert(out@.map_values(|c: Vec<char>| c@) =~= seq![seq!['/']]);
    }
    assert(out@.map_values(|c: Vec<char>| c@) + comps_from(p@, i as int, at_start) =~= components(p@));
    while i < p.len()
        invariant
            i <= p@.len(),
            out@.map_values(|c: Vec<char>| c@) + comps_from(p@, i as int, at_start) == components(p@),
        decreases p@.len() - i,
    {
        let ghost before = out@.map_values(|c: Vec<char>| c@);
        if p[i] == '/' {
            i = i + 1;
            at_start = false;
        } else {
            let mut e = i;
            while e < p.len() && p[e] != '/'
                invariant
                    i <= e <= p@.len(),
                    next_sep(p@, i as int) == next_sep(p@, e as int),
                decreases p@.len() - e,
            {
                e = e + 1;
            }
            proof {
                lemma_next_sep_bounds(p@, i as int);
            }
            let piece = crate::text::slice_chars(p, i, e);
            let dot = piece.len() == 1 && piece[0] == '.';
            proof {
                if dot {
                    assert(piece@ =~= seq!['.']);
                } else if piece@.len() == 1 {
                    assert(piece@ != seq!['.']);
                }
            }
            if !(dot && !at_start) {
                out.push(piece);
                proof {
                    assert(out@.map_values(|c: Vec<char>| c@) =~= before + seq![p@.subrange(i as int, e as int)]);
                }
            }
            i = e;
            at_start = false;
        }
    }
    assert(out@.map_values(|c: Vec<char>| c@) =~= components(p@));
    out
}

/// Whether `path` lies under `base`, component by component.
fn starts_with_path(path: &str, base: &str) -> (b: bool)
    ensures
        b == path_starts_with(path@, base@),
{
    let pc = chars_of(path);
    let bc = chars_of(base);
    let a = path_components(pc.as_slice());
    let b = path_components(bc.as_slice());
    let ghost av = a@.map_values(|c: Vec<char>| c@);
    let ghost bv = b@.map_values(|c: Vec<char>| c@);
    if b.len() > a.len() {
        return false;
    }
    let mut k: usize = 0;
    while k < b.len()
        invariant
            k <= b@.len() <= a@.len(),
            av == a@.map_values(|c: Vec<char>| c@),
            bv == b@.map_values(|c: Vec<char>| c@),
            av == components(path@),
            bv == components(base@),
            forall|j: int| 0 <= j < k ==> av[j] == bv[j],
        decreases b@.len() - k,
    {
        if !crate::text::chars_equal(a[k].as_slice(), b[k].as_slice()) {
            proof {
                assert(av[k as int] == a@[k as int]@);
                assert(bv[k as int] == b@[k as int]@);
                assert(av.subrange(0, bv.len() as int)[k as int] != bv[k as int]);
                assert(av == components(path@));
                assert(bv == components(base@));
                assert(av.subrange(0, bv.len() as int) != bv);
            }
            return false;
        }
        k = k + 1;
    }
    assert(av.subrange(0, bv.len() as int) =~= bv);
    true
}

/// Whether the components of `path` past `base`'s own count hold no `..`.
fn stays_below_path(path: &str, base: &str) -> (b: bool)
    ensures
        b == stays_below(path@, base@),
{
    let pc = chars_of(path);
    let bc = chars_of(base);
    let a = path_components(pc.as_slice());
    let b = path_components(bc.as_slice());
    let ghost av = a@.map_values(|c: Vec<char>| c@);
    let mut k: usize = b.len();
    while k < a.len()
        invariant
            b@.len() <= k || a@.len() <= k,
            av == a@.map_values(|c: Vec<char>| c@),
            av == components(path@),
            b@.len() == components(base@).len(),
            forall|j: int| b@.len() <= j < k && j < av.len() ==> #[trigger] av[j] != seq!['.', '.'],
        decreases a@.len() - k,
    {
        let up = a[k].len() == 2 && a[k][0] == '.' && a[k][1] == '.';
        proof {
            assert(av[k as int] == a@[k as int]@);
            if up {
                assert(av[k as int] =~= seq!['.', '.']);
            } else if a@[k as int]@.len() == 2 {
                assert(av[k as int] != seq!['.', '.']);
            }
        }
        if up {
            return false;
        }
        k = k + 1;
    }
    true
}

/// Whether `path` is a file the app owns under the runtime directory of `data_dir`, so that
/// closing its pane may delete it: it lies under that directory, and no `..` past it leads back
/// out.
pub fn is_runtime_temp(path: &str, data_dir: &str) -> (b: bool)
    ensures
        b == (path_starts_with(path@, spec_runtime_dir(data_dir@)) && stays_below(
            path@,
            spec_runtime_dir(data_dir@),
        )),
{
    let rt = runtime_dir(data_dir);
    starts_with_path(path, rt.as_str()) && stays_below_path(path, rt.as_str())
}

/// The build label from the package version and the commit it was built from (empty when
/// unknown).
pub fn build_version(version: &str, commit: &str) -> (s: String)
    ensures
        s@ == spec_build_version(version@, commit@),
{
    let mut v = chars_of(version);
    let cc = chars_of(commit);
    if cc.len() == 0 {
        return string_of(v.as_slice());
    }
    v.push('+');
    crate::text::push_chars(&mut v, cc.as_slice());
    string_of(v.as_slice())
}

/// A session's journal: where its file lives, its sanitized session id and the agent its
/// events are attributed to. The file itself is written by the front-end on the first event.
pub struct Journal {
    pub path: String,
    pub session: String,
    pub agent: Option<String>,
}

impl Journal {
    /// Name the journal of `session` (an empty id naming the default `session`) under
    /// `data_dir`, for the optional `agent`. Nothing is written.
    pub fn open(data_dir: &str, session: &str, agent: Option<String>) -> (j: Journal)
        ensures
            j.path@ == spec_session_path(data_dir@, session@),
            j.session@ == sanitized(session@),
            j.agent == agent,
    {
        Journal { path: session_path(data_dir, session), session: sanitize(session), agent }
    }

    /// The journal file's path.
    pub fn path(&self) -> (p: &str)
        ensures
            p@ == self.path@,
    {
        self.path.as_str()
    }
}

/// An ASCII letter or digit.
pub open spec fn ascii_alnum(c: char) -> bool {
    ('a' <= c && c <= 'z') || ('A' <= c && c <= 'Z') || ('0' <= c && c <= '9')
}

/// The spool file `laura tail` writes under the runtime directory: the title (`tail` when there
/// is none) with every character but ASCII letters and digits turned into `-`, then `-`, the
/// process id and `.txt`.
pub open spec fn tail_file_name(title: Option<Seq<char>>, pid: nat) -> Seq<char> {
    let stem = match title {
        Some(t) => t,
        None => seq!['t', 'a', 'i', 'l'],
    };
    stem.map_values(|c: char| if ascii_alnum(c) { c } else { '-' }) + seq!['-'] + decimal(pid)
        + seq!['.', 't', 'x', 't']
}

/// See `tail_file_name`.
pub fn tail_name(title: Option<&str>, pid: u32) -> (r: String)
    ensures
        r@ == tail_file_name(
            match title {
                Some(t) => Some(t@),
                None => None,
            },
            pid as nat,
        ),
{
    let stem: Vec<char> = match title {
        Some(t) => chars_of(t),
        None => {
            let mut v: Vec<char> = Vec::new();
            v.push('t');
            v.push('a');
            v.push('i');
            v.push('l');
            v
        },
    };
    let ghost st = stem@;
    let mut out: Vec<char> = Vec::new();
    let mut i: usize = 0;
    while i < stem.len()
        invariant
            i <= stem@.len(),
            stem@ == st,
            out@ == st.subrange(0, i as int).map_values(
                |c: char| if ascii_alnum(c) { c } else { '-' },
            ),
        decreases stem@.len() - i,
    {
        let c = stem[i];
        let alnum = ('a' <= c && c <= 'z') || ('A' <= c && c <= 'Z') || ('0' <= c && c <= '9');
        out.push(if alnum { c } else { '-' });
        i = i + 1;
        assert(out@ =~= st.subrange(0, i as int).map_values(
            |c: char| if ascii_alnum(c) { c } else { '-' },
        ));
    }
    assert(st.subrange(0, st.len() as int) =~= st);
    out.push('-');
    push_decimal(&mut out, pid as u64);
    out.push('.');
    out.push('t');
    out.push('x');
    out.push('t');
    let ghost want = tail_file_name(
        match title {
            Some(t) => Some(t@),
            None => None,
        },
        pid as nat,
    );
    assert(out@ =~= want);
    string_of(out.as_slice())
}

/// A value a journal event is stamped with.
#[derive(Debug, Clone, PartialEq, Eq)]
pub enum Stamp {
    /// A number (the time, in milliseconds since the epoch).
    Millis(u64),
    /// A text (the build label, the session, the agent).
    Text(String),
}

/// A stamp as plain values.
pub enum StampView {
    Millis(nat),
    Text(Seq<char>),
}

pub open spec fn stamp_view(s: Stamp) -> StampView {
    match s {
        Stamp::Millis(n) => StampView::Millis(n as nat),
        Stamp::Text(t) => StampView::Text(t@),
    }
}

/// Key/stamp pairs as plain values.
pub open spec fn stamps_view(v: Seq<(String, Stamp)>) -> Seq<(Seq<char>, StampView)> {
    v.map_values(|p: (String, Stamp)| (p.0@, stamp_view(p.1)))
}

/// What an event is stamped with, in order: `ts`, `version`, `session`, then `agent` when the
/// journal names one.
pub open spec fn journal_stamps(j: Journal, ts: nat, version: Seq<char>) -> Seq<(Seq<char>, StampView)> {
    let base = seq![
        (seq!['t', 's'], StampView::Millis(ts)),
        (seq!['v', 'e', 'r', 's', 'i', 'o', 'n'], StampView::Text(version)),
        (seq!['s', 'e', 's', 's', 'i', 'o', 'n'], StampView::Text(j.session@)),
    ];
    match j.agent {
        Some(a) => base.push((seq!['a', 'g', 'e', 'n', 't'], StampView::Text(a@))),
        None => base,
    }
}

/// The stamps an event whose keys are `keys` gets: those of `stamps` whose key it does not
/// already carry (the event's own fields win), in order.
pub open spec fn missing_stamps(keys: Seq<Seq<char>>, stamps: Seq<(Seq<char>, StampView)>) -> Seq<(Seq<char>, StampView)> {
    stamps.filter(|p: (Seq<char>, StampView)| !keys.contains(p.0))
}

impl Journal {
    /// The stamps for an event logged at `ts` milliseconds by build `version`, for an event that
    /// already carries the fields `keys`: `ts`, `version`, `session` and (when named) `agent`,
    /// each only where the event has no field of that name.
    pub fn stamps(&self, keys: &Vec<String>, ts: u64, version: &str) -> (r: Vec<(String, Stamp)>)
        ensures
            stamps_view(r@) == missing_stamps(
                keys@.map_values(|k: String| k@),
                journal_stamps(*self, ts as nat, version@),
            ),
    {
        let ghost kv = keys@.map_values(|k: String| k@);
        let mut all: Vec<(String, Stamp)> = Vec::new();
        all.push((String::from_str("ts"), Stamp::Millis(ts)));
        all.push((String::from_str("version"), Stamp::Text(string_of(chars_of(version).as_slice()))));
        all.push((String::from_str("session"), Stamp::Text(string_of(chars_of(self.session.as_str()).as_slice()))));
        proof {
            reveal_strlit("ts");
            reveal_strlit("version");
            reveal_strlit("session");
            assert(all@.len() == 3);
            assert(all@[0].0@ == seq!['t', 's']);
            assert(stamp_view(all@[0].1) == StampView::Millis(ts as nat));
            assert(all@[1].0@ == seq!['v', 'e', 'r', 's', 'i', 'o', 'n']);
            assert(stamp_view(all@[1].1) == StampView::Text(version@));
            assert(all@[2].0@ == seq!['s', 'e', 's', 's', 'i', 'o', 'n']);
            assert(stamp_view(all@[2].1) == StampView::Text(self.session@));
            assert(stamps_view(all@) =~~= seq![
                (seq!['t', 's'], StampView::Millis(ts as nat)),
                (seq!['v', 'e', 'r', 's', 'i', 'o', 'n'], StampView::Text(version@)),
                (seq!['s', 'e', 's', 's', 'i', 'o', 'n'], StampView::Text(self.session@)),
            ]);
        }
        match &self.agent {
            Some(a) => {
                let ghost before = all@;
                all.push((String::from_str("agent"), Stamp::Text(string_of(chars_of(a.as_str()).as_slice()))));
                proof {
                    reveal_strlit("agent");
                    assert(all@.last().0@ == seq!['a', 'g', 'e', 'n', 't']);
                    assert(stamp_view(all@.last().1) == StampView::Text(a@));
                    assert(stamps_view(all@) =~~= stamps_view(before).push((seq!['a', 'g', 'e', 'n', 't'], StampView::Text(a@))));
                }
            },
            None => {},
        }
        proof {
            assert(stamps_view(all@) =~= journal_stamps(*self, ts as nat, version@));
        }
        let ghost full = stamps_view(all@);
        let mut out: Vec<(String, Stamp)> = Vec::new();
        let mut i: usize = 0;
        while i < all.len()
            invariant
                i <= all@.len(),
                full == stamps_view(all@),
                kv == keys@.map_values(|k: String| k@),
                stamps_view(out@) == missing_stamps(kv, full.take(i as int)),
            decreases all@.len() - i,
        {
            let present = has_key(keys, all[i].0.as_str());
            proof {
                assert(full.take(i + 1) =~= full.take(i as int).push(full[i as int]));
            }
            let ghost before = out@;
            if !present {
                let key = string_of(chars_of(all[i].0.as_str()).as_slice());
                let val = match &all[i].1 {
                    Stamp::Millis(n) => Stamp::Millis(*n),
                    Stamp::Text(t) => Stamp::Text(string_of(chars_of(t.as_str()).as_slice())),
                };
                out.push((key, val));
                proof {
                    assert(stamps_view(out@) =~= stamps_view(before).push(full[i as int]));
                }
            } else {
                proof {
                    assert(stamps_view(out@) =~= stamps_view(before));
                }
            }
            proof {
                let f = |p: (Seq<char>, StampView)| !kv.contains(p.0);
                full.take(i as int).lemma_filter_push(full[i as int], f);
            }
            i = i + 1;
        }
        proof {
            assert(full.take(all@.len() as int) =~= full);
        }
        out
    }
}

/// Whether one of `keys` is `key`.
fn has_key(keys: &Vec<String>, key: &str) -> (b: bool)
    ensures
        b == keys@.map_values(|k: String| k@).contains(key@),
{
    let want = chars_of(key);
    let mut i: usize = 0;
    while i < keys.len()
        invariant
            i <= keys@.len(),
            want@ == key@,
            forall|j: int| 0 <= j < i ==> keys@[j]@ != key@,
        decreases keys@.len() - i,
    {
        let k = chars_of(keys[i].as_str());
        if crate::text::chars_equal(k.as_slice(), want.as_slice()) {
            proof {
                assert(keys@.map_values(|k: String| k@)[i as int] == key@);
            }
            return true;
        }
        i = i + 1;
    }
    proof {
        let kv = keys@.map_values(|k: String| k@);
        if kv.contains(key@) {
            let j = choose|j: int| 0 <= j < kv.len() && kv[j] == key@;
            assert(keys@[j]@ == key@);
        }
    }
    false
}

} // verus!
