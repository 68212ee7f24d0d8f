//! Character-level text helpers shared by every module that builds strings or bytes.

use vstd::prelude::*;
use vstd::std_specs::iter::IteratorSpec;

verus! {

/// The decimal digit character for `d < 10`.
pub open spec fn digit_char(d: nat) -> char {
    (48 + d) as char
}

/// The decimal rendering of `n`, without sign or leading zeros (`0` renders as `"0"`).
pub open spec fn decimal(n: nat) -> Seq<char>
    decreases n,
{
    if n < 10 {
        seq![digit_char(n)]
    } else {
        decimal(n / 10).push(digit_char(n % 10))
    }
}

/// Every character of a decimal rendering is an ASCII digit.
pub proof fn lemma_decimal_digits(n: nat)
    ensures
        decimal(n).len() >= 1,
        forall|i: int| 0 <= i < decimal(n).len() ==> '0' <= #[trigger] decimal(n)[i] <= '9',
    decreases n,
{
    if n >= 10 {
        lemma_decimal_digits(n / 10);
    }
}

/// `10^k`.
pub open spec fn ten_pow(k: nat) -> nat
    decreases k,
{
    if k == 0 {
        1
    } else {
        10 * ten_pow((k - 1) as nat)
    }
}

proof fn lemma_decimal_len_below(n: nat, k: nat)
    requires
        k >= 1,
        n < ten_pow(k),
    ensures
        decimal(n).len() <= k,
    decreases n,
{
    if n >= 10 {
        let k1 = (k - 1) as nat;
        if k == 1 {
            assert(ten_pow(1) == 10) by {
                reveal_with_fuel(ten_pow, 2);
            }
        } else {
            let t = ten_pow(k1);
            assert(n / 10 < t) by (nonlinear_arith)
                requires
                    n < 10 * t,
            ;
            lemma_decimal_len_below(n / 10, k1);
        }
    }
}

/// A number that fits in 64 bits has at most 20 decimal digits.
pub proof fn lemma_decimal_len_bound(n: nat)
    requires
        n <= u64::MAX,
    ensures
        1 <= decimal(n).len() <= 20,
{
    lemma_decimal_digits(n);
    assert(ten_pow(20) == 100000000000000000000) by {
        reveal_with_fuel(ten_pow, 21);
    }
    lemma_decimal_len_below(n, 20);
}

/// Whether two character sequences are equal.
pub fn chars_equal(a: &[char], b: &[char]) -> (r: bool)
    ensures
        r == (a@ == b@),
{
    if a.len() != b.len() {
        return false;
    }
    let mut i: usize = 0;
    while i < a.len()
        invariant
            i <= a@.len(),
            a@.len() == b@.len(),
            forall|j: int| 0 <= j < i ==> a@[j] == b@[j],
        decreases a@.len() - i,
    {
        if a[i] != b[i] {
            return false;
        }
        i = i + 1;
    }
    assert(a@ =~= b@);
    true
}

/// `String::push` appends one character to the end of the string.
pub assume_specification[ String::push ](s: &mut String, ch: char)
    ensures
        final(s)@ == old(s)@.push(ch),
;

/// `String::pop` removes the string's last character and returns it, or returns `None` and
/// leaves the string as it was when it is empty.
pub assume_specification[ String::pop ](s: &mut String) -> (r: Option<char>)
    ensures
        old(s)@.len() == 0 ==> r is None && final(s)@ == old(s)@,
        old(s)@.len() > 0 ==> r == Some(old(s)@.last()) && final(s)@ == old(s)@.drop_last(),
;

/// The characters of `s`, in order.
pub fn chars_of(s: &str) -> (v: Vec<char>)
    ensures
        v@ == s@,
{
    broadcast use vstd::string::axiom_spec_iter, vstd::string::next_postcondition;

    let mut it = s.chars();
    let mut v: Vec<char> = Vec::new();
    loop
        invariant
            v@ + it.remaining() == s@,
            it.decrease() is Some,
        ensures
            v@ == s@,
        decreases it.decrease()->0,
    {
        match it.next() {
            Some(c) => {
                v.push(c);
            },
            None => {
                break;
            },
        }
    }
    v
}

/// A `String` holding exactly the characters `v`.
pub fn string_of(v: &[char]) -> (s: String)
    ensures
        s@ == v@,
{
    let mut s = String::new();
    let mut i: usize = 0;
    while i < v.len()
        invariant
            i <= v@.len(),
            s@ == v@.subrange(0, i as int),
        decreases v@.len() - i,
    {
        s.push(v[i]);
        i = i + 1;
        assert(s@ =~= v@.subrange(0, i as int));
    }
    assert(v@.subrange(0, v@.len() as int) =~= v@);
    s
}

/// Append one character to a string.
pub fn push_char(s: &mut String, c: char)
    ensures
        final(s)@ == old(s)@.push(c),
{
    s.push(c);
}

/// Drop the last character of a string, if it has one.
pub fn pop_char(s: &mut String)
    ensures
        final(s)@ == (if old(s)@.len() > 0 { old(s)@.drop_last() } else { old(s)@ }),
{
    let _ = s.pop();
}

/// Append the decimal rendering of `n` to `out`.
pub fn push_decimal(out: &mut Vec<char>, n: u64)
    ensures
        final(out)@ == old(out)@ + decimal(n as nat),
    decreases n,
{
    if n >= 10 {
        push_decimal(out, n / 10);
    }
    let d: u64 = n % 10;
    let c: char = if d == 0 { '0' } else if d == 1 { '1' } else if d == 2 { '2' } else if d == 3 {
        '3'
    } else if d == 4 { '4' } else if d == 5 { '5' } else if d == 6 { '6' } else if d == 7 {
        '7'
    } else if d == 8 { '8' } else { '9' };
    out.push(c);
    proof {
        assert(c == digit_char(d as nat));
        if n >= 10 {
            assert(final(out)@ =~= old(out)@ + decimal(n as nat));
        } else {
            assert(final(out)@ =~= old(out)@ + decimal(n as nat));
        }
    }
}

/// Append every character of `s` to `out`.
pub fn push_chars(out: &mut Vec<char>, s: &[char])
    ensures
        final(out)@ == old(out)@ + s@,
{
    let mut i: usize = 0;
    while i < s.len()
        invariant
            i <= s@.len(),
            out@ == old(out)@ + s@.subrange(0, i as int),
        decreases s@.len() - i,
    {
        out.push(s[i]);
        i = i + 1;
        assert(out@ =~= old(out)@ + s@.subrange(0, i as int));
    }
    assert(s@.subrange(0, s@.len() as int) =~= s@);
}

/// Append every character of the string `s` to `out`.
pub fn push_str_chars(out: &mut Vec<char>, s: &str)
    ensures
        final(out)@ == old(out)@ + s@,
{
    let v = chars_of(s);
    push_chars(out, v.as_slice());
}

/// The decimal rendering of `n` as a `String`.
pub fn decimal_string(n: u64) -> (s: String)
    ensures
        s@ == decimal(n as nat),
{
    let mut v: Vec<char> = Vec::new();
    push_decimal(&mut v, n);
    assert(v@ =~= decimal(n as nat));
    string_of(v.as_slice())
}

} // verus!

verus! {

/// The index of the first `'\n'` at or after `i`, or `s.len()` when there is none.
pub open spec fn next_newline(s: Seq<char>, i: int) -> int
    decreases s.len() - i,
{
    if i >= s.len() {
        s.len() as int
    } else if s[i] == '\n' {
        i
    } else {
        next_newline(s, i + 1)
    }
}

/// A line without its line ending: a trailing `'\r'` is dropped only when a `'\n'` followed it.
pub open spec fn strip_cr(line: Seq<char>) -> Seq<char> {
    if line.len() > 0 && line.last() == '\r' { line.drop_last() } else { line }
}

/// The lines of `s` as `str::lines` yields them: split at `'\n'` (a `"\r\n"` ending counts as
/// one), with no empty final line after a trailing newline, and none at all for empty text.
pub open spec fn lines_of(s: Seq<char>) -> Seq<Seq<char>>
    decreases s.len(),
{
    if s.len() == 0 {
        seq![]
    } else {
        let i = next_newline(s, 0);
        if i >= s.len() {
            seq![s]
        } else {
            proof {
                lemma_next_newline_bounds(s, 0);
            }
            seq![strip_cr(s.subrange(0, i))] + lines_of(s.subrange(i + 1, s.len() as int))
        }
    }
}

pub proof fn lemma_next_newline_bounds(s: Seq<char>, i: int)
    requires
        0 <= i <= s.len(),
    ensures
        i <= next_newline(s, i) <= s.len(),
        next_newline(s, i) < s.len() ==> s[next_newline(s, i)] == '\n',
        forall|j: int| i <= j < next_newline(s, i) ==> s[j] != '\n',
    decreases s.len() - i,
{
    if i < s.len() && s[i] != '\n' {
        lemma_next_newline_bounds(s, i + 1);
    }
}

proof fn lemma_next_newline_shift(s: Seq<char>, k: int, i: int)
    requires
        0 <= k <= i <= s.len(),
    ensures
        next_newline(s.subrange(k, s.len() as int), i - k) == next_newline(s, i) - k,
    decreases s.len() - i,
{
    if i < s.len() && s[i] != '\n' {
        lemma_next_newline_shift(s, k, i + 1);
    }
}

/// Copy `s[from..to]` into a new vector.
pub fn slice_chars(s: &[char], from: usize, to: usize) -> (v: Vec<char>)
    requires
        from <= to <= s@.len(),
    ensures
        v@ == s@.subrange(from as int, to as int),
{
    let mut v: Vec<char> = Vec::new();
    let mut i = from;
    while i < to
        invariant
            from <= i <= to <= s@.len(),
            v@ == s@.subrange(from as int, i as int),
        decreases to - i,
    {
        v.push(s[i]);
        i = i + 1;
        assert(v@ =~= s@.subrange(from as int, i as int));
    }
    v
}

/// The lines of `s` (see `lines_of`), each as its own character vector.
pub fn split_lines(s: &[char]) -> (out: Vec<Vec<char>>)
    ensures
        out@.map_values(|l: Vec<char>| l@) == lines_of(s@),
{
    let mut out: Vec<Vec<char>> = Vec::new();
    let mut start: usize = 0;
    let ghost full = s@;
    proof {
        assert(full.subrange(0, full.len() as int) =~= full);
    }
    while start < s.len()
        invariant
            start <= s@.len(),
            full == s@,
            lines_of(full) == out@.map_values(|l: Vec<char>| l@) + lines_of(
                full.subrange(start as int, full.len() as int),
            ),
        decreases s@.len() - start,
    {
        let ghost rest = full.subrange(start as int, full.len() as int);
        let mut end = start;
        while end < s.len() && s[end] != '\n'
            invariant
                start <= end <= s@.len(),
                full == s@,
                forall|j: int| start <= j < end ==> s@[j] != '\n',
            decreases s@.len() - end,
        {
            end = end + 1;
        }
        proof {
            lemma_next_newline_bounds(full, start as int);
            lemma_next_newline_shift(full, start as int, start as int);
            if next_newline(full, start as int) < end {
                assert(full[next_newline(full, start as int)] == '\n');
            }
            if end < full.len() {
                assert(next_newline(full, start as int) <= end);
            }
            assert(next_newline(rest, 0) == end - start);
        }
        let mut line = slice_chars(s, start, end);
        if end < s.len() && line.len() > 0 && line[line.len() - 1] == '\r' {
            line.pop();
        }
        let ghost old_out = out@;
        out.push(line);
        proof {
            assert(rest.subrange(0, end - start) =~= full.subrange(start as int, end as int));
            if end >= s.len() {
                assert(rest =~= full.subrange(start as int, end as int));
                assert(lines_of(rest) =~= seq![rest]);
                assert(full.subrange(full.len() as int, full.len() as int) =~= Seq::<char>::empty());
                assert(lines_of(Seq::<char>::empty()) =~= Seq::<Seq<char>>::empty());
            } else {
                assert(rest.subrange(end - start + 1, rest.len() as int) =~= full.subrange(
                    end + 1,
                    full.len() as int,
                ));
            }
            assert(out@.map_values(|l: Vec<char>| l@) =~= old_out.map_values(|l: Vec<char>| l@)
                + seq![line@]);
        }
        start = if end < s.len() { end + 1 } else { end };
        proof {
            assert(lines_of(full) =~= out@.map_values(|l: Vec<char>| l@) + lines_of(
                full.subrange(start as int, full.len() as int),
            ));
        }
    }
    proof {
        assert(full.subrange(start as int, full.len() as int) =~= Seq::<char>::empty());
        assert(lines_of(Seq::<char>::empty()) =~= Seq::<Seq<char>>::empty());
        assert(out@.map_values(|l: Vec<char>| l@) =~= lines_of(full));
    }
    out
}

/// The lines of `s` with their endings kept: each piece runs up to and including a `'\n'`, the
/// last up to the end of the text; empty text has none.
pub open spec fn line_pieces(s: Seq<char>) -> Seq<Seq<char>>
    decreases s.len(),
{
    if s.len() == 0 {
        seq![]
    } else {
        let i = next_newline(s, 0);
        if i >= s.len() {
            seq![s]
        } else {
            proof {
                lemma_next_newline_bounds(s, 0);
            }
            seq![s.subrange(0, i + 1)] + line_pieces(s.subrange(i + 1, s.len() as int))
        }
    }
}

/// The lines of `s` with their endings kept (see `line_pieces`).
pub fn split_keep_endings(s: &[char]) -> (out: Vec<Vec<char>>)
    ensures
        out@.map_values(|l: Vec<char>| l@) == line_pieces(s@),
{
    let mut out: Vec<Vec<char>> = Vec::new();
    let mut start: usize = 0;
    let ghost full = s@;
    proof {
        assert(full.subrange(0, full.len() as int) =~= full);
    }
    while start < s.len()
        invariant
            start <= s@.len(),
            full == s@,
            line_pieces(full) == out@.map_values(|l: Vec<char>| l@) + line_pieces(
                full.subrange(start as int, full.len() as int),
            ),
        decreases s@.len() - start,
    {
        let ghost rest = full.subrange(start as int, full.len() as int);
        let mut end = start;
        while end < s.len() && s[end] != '\n'
            invariant
                start <= end <= s@.len(),
                full == s@,
                forall|j: int| start <= j < end ==> s@[j] != '\n',
            decreases s@.len() - end,
        {
            end = end + 1;
        }
        proof {
            lemma_next_newline_bounds(full, start as int);
            lemma_next_newline_shift(full, start as int, start as int);
            if next_newline(full, start as int) < end {
                assert(full[next_newline(full, start as int)] == '\n');
            }
            if end < full.len() {
                assert(next_newline(full, start as int) <= end);
            }
            assert(next_newline(rest, 0) == end - start);
        }
        let stop: usize = if end < s.len() { end + 1 } else { end };
        let piece = slice_chars(s, start, stop);
        let ghost old_out = out@;
        out.push(piece);
        proof {
            assert(rest.subrange(0, stop - start) =~= full.subrange(start as int, stop as int));
            if end >= s.len() {
                assert(rest =~= full.subrange(start as int, end as int));
                assert(line_pieces(rest) =~= seq![rest]);
                assert(full.subrange(full.len() as int, full.len() as int) =~= Seq::<char>::empty());
                assert(line_pieces(Seq::<char>::empty()) =~= Seq::<Seq<char>>::empty());
            } else {
                assert(rest.subrange(end - start + 1, rest.len() as int) =~= full.subrange(
                    end + 1,
                    full.len() as int,
                ));
            }
            assert(out@.map_values(|l: Vec<char>| l@) =~= old_out.map_values(|l: Vec<char>| l@)
                + seq![piece@]);
        }
        start = stop;
        proof {
            assert(line_pieces(full) =~= out@.map_values(|l: Vec<char>| l@) + line_pieces(
                full.subrange(start as int, full.len() as int),
            ));
        }
    }
    proof {
        assert(full.subrange(start as int, full.len() as int) =~= Seq::<char>::empty());
        assert(line_pieces(Seq::<char>::empty()) =~= Seq::<Seq<char>>::empty());
        assert(out@.map_values(|l: Vec<char>| l@) =~= line_pieces(full));
    }
    out
}

/// Unicode `White_Space`, as `char::is_whitespace` classifies it.
pub open spec fn is_ws(c: char) -> bool {
    c == '\t' || c == '\n' || c == '\u{0B}' || c == '\u{0C}' || c == '\r' || c == ' '
        || c == '\u{85}' || c == '\u{A0}' || c == '\u{1680}' || ('\u{2000}' <= c
        && c <= '\u{200A}') || c == '\u{2028}' || c == '\u{2029}' || c == '\u{202F}'
        || c == '\u{205F}' || c == '\u{3000}'
}

/// Whether `c` is Unicode whitespace.
pub fn is_whitespace(c: char) -> (b: bool)
    ensures
        b == is_ws(c),
{
    c == '\t' || c == '\n' || c == '\u{0B}' || c == '\u{0C}' || c == '\r' || c == ' '
        || c == '\u{85}' || c == '\u{A0}' || c == '\u{1680}' || ('\u{2000}' <= c
        && c <= '\u{200A}') || c == '\u{2028}' || c == '\u{2029}' || c == '\u{202F}'
        || c == '\u{205F}' || c == '\u{3000}'
}

/// `s` begins with `p`.
pub open spec fn starts_with(s: Seq<char>, p: Seq<char>) -> bool {
    p.len() <= s.len() && s.subrange(0, p.len() as int) == p
}

} // verus!

verus! {

/// The UTF-8 bytes of `chars`.
pub fn utf8_of(chars: &[char]) -> (b: Vec<u8>)
    ensures
        b@ == vstd::utf8::encode_utf8(chars@),
{
    let s = string_of(chars);
    let bytes = s.as_str().as_bytes();
    let mut out: Vec<u8> = Vec::new();
    let mut i: usize = 0;
    while i < bytes.len()
        invariant
            i <= bytes@.len(),
            bytes@ == vstd::utf8::encode_utf8(chars@),
            out@ == bytes@.subrange(0, i as int),
        decreases bytes@.len() - i,
    {
        out.push(bytes[i]);
        i = i + 1;
        assert(out@ =~= bytes@.subrange(0, i as int));
    }
    assert(bytes@.subrange(0, bytes@.len() as int) =~= bytes@);
    out
}

/// `s` with trailing whitespace removed (as `str::trim_end` does).
pub open spec fn trim_end(s: Seq<char>) -> Seq<char>
    decreases s.len(),
{
    if s.len() > 0 && is_ws(s.last()) {
        trim_end(s.drop_last())
    } else {
        s
    }
}

proof fn lemma_trim_end_prefix(s: Seq<char>)
    ensures
        trim_end(s).len() <= s.len(),
        trim_end(s) == s.subrange(0, trim_end(s).len() as int),
    decreases s.len(),
{
    if s.len() > 0 && is_ws(s.last()) {
        lemma_trim_end_prefix(s.drop_last());
        assert(s.drop_last().subrange(0, trim_end(s).len() as int) =~= s.subrange(
            0,
            trim_end(s).len() as int,
        ));
    } else {
        assert(s.subrange(0, s.len() as int) =~= s);
    }
}

/// `s` with trailing whitespace removed.
pub fn trim_end_chars(s: &[char]) -> (r: Vec<char>)
    ensures
        r@ == trim_end(s@),
{
    let mut k: usize = s.len();
    assert(s@.subrange(0, k as int) =~= s@);
    while k > 0 && is_whitespace(s[k - 1])
        invariant
            k <= s@.len(),
            trim_end(s@) == trim_end(s@.subrange(0, k as int)),
        decreases k,
    {
        proof {
            assert(s@.subrange(0, k as int).drop_last() =~= s@.subrange(0, k - 1));
        }
        k = k - 1;
    }
    slice_chars(s, 0, k)
}

/// `s` with leading whitespace removed (as `str::trim_start` does).
pub open spec fn trim_start(s: Seq<char>) -> Seq<char>
    decreases s.len(),
{
    if s.len() > 0 && is_ws(s[0]) {
        trim_start(s.drop_first())
    } else {
        s
    }
}

/// `s` with whitespace removed from both ends (as `str::trim` does).
pub open spec fn trim(s: Seq<char>) -> Seq<char> {
    trim_end(trim_start(s))
}

/// `s` with whitespace removed from both ends.
pub fn trim_chars(s: &[char]) -> (r: Vec<char>)
    ensures
        r@ == trim(s@),
{
    let mut k: usize = 0;
    assert(s@.subrange(0, s@.len() as int) =~= s@);
    while k < s.len() && is_whitespace(s[k])
        invariant
            k <= s@.len(),
            trim_start(s@) == trim_start(s@.subrange(k as int, s@.len() as int)),
        decreases s@.len() - k,
    {
        proof {
            assert(s@.subrange(k as int, s@.len() as int).drop_first() =~= s@.subrange(
                k + 1,
                s@.len() as int,
            ));
        }
        k = k + 1;
    }
    let rest = slice_chars(s, k, s.len());
    trim_end_chars(rest.as_slice())
}

} // verus!

verus! {

/// The index of the first `' '` at or after `i`, or `s.len()` when there is none.
pub open spec fn next_space(s: Seq<char>, i: int) -> int
    decreases s.len() - i,
{
    if i >= s.len() {
        s.len() as int
    } else if s[i] == ' ' {
        i
    } else {
        next_space(s, i + 1)
    }
}

pub proof fn lemma_next_space_bounds(s: Seq<char>, i: int)
    requires
        0 <= i <= s.len(),
    ensures
        i <= next_space(s, i) <= s.len(),
        next_space(s, i) < s.len() ==> s[next_space(s, i)] == ' ',
        forall|j: int| i <= j < next_space(s, i) ==> s[j] != ' ',
    decreases s.len() - i,
{
    if i < s.len() && s[i] != ' ' {
        lemma_next_space_bounds(s, i + 1);
    }
}

/// The pieces of `s` between single spaces, as `str::split(' ')` yields them: empty pieces for
/// adjacent spaces, and one (possibly empty) piece more than there are spaces.
pub open spec fn split_spaces(s: Seq<char>) -> Seq<Seq<char>>
    decreases s.len(),
{
    let i = next_space(s, 0);
    if i >= s.len() {
        seq![s]
    } else {
        proof {
            lemma_next_space_bounds(s, 0);
        }
        seq![s.subrange(0, i)] + split_spaces(s.subrange(i + 1, s.len() as int))
    }
}

proof fn lemma_next_space_push(s: Seq<char>, c: char, i: int)
    requires
        0 <= i <= s.len(),
    ensures
        next_space(s.push(c), i) == (if next_space(s, i) < s.len() {
            next_space(s, i)
        } else if c == ' ' {
            s.len() as int
        } else {
            s.len() + 1int
        }),
    decreases s.len() - i,
{
    let t = s.push(c);
    if i < s.len() {
        assert(t[i] == s[i]);
        if s[i] != ' ' {
            lemma_next_space_push(s, c, i + 1);
        }
    } else {
        assert(t[i] == c);
        if c != ' ' {
            assert(next_space(t, i + 1) == t.len());
        }
    }
}

/// `split_spaces` has at least one piece.
pub proof fn lemma_split_spaces_nonempty(s: Seq<char>)
    ensures
        split_spaces(s).len() >= 1,
    decreases s.len(),
{
    let i = next_space(s, 0);
    if i < s.len() {
        lemma_next_space_bounds(s, 0);
        lemma_split_spaces_nonempty(s.subrange(i + 1, s.len() as int));
    }
}

/// Appending a character to `s`: a space opens a new empty piece; anything else extends the
/// last piece.
pub proof fn lemma_split_spaces_push(s: Seq<char>, c: char)
    ensures
        split_spaces(s.push(c)) == (if c == ' ' {
            split_spaces(s).push(seq![])
        } else {
            split_spaces(s).update(split_spaces(s).len() - 1, split_spaces(s).last().push(c))
        }),
    decreases s.len(),
{
    let t = s.push(c);
    let i = next_space(s, 0);
    lemma_next_space_bounds(s, 0);
    lemma_next_space_push(s, c, 0);
    lemma_split_spaces_nonempty(s);
    if i < s.len() {
        let rest = s.subrange(i + 1, s.len() as int);
        lemma_split_spaces_nonempty(rest);
        lemma_split_spaces_push(rest, c);
        assert(t.subrange(0, i) =~= s.subrange(0, i));
        assert(t.subrange(i + 1, t.len() as int) =~= rest.push(c));
        assert(split_spaces(t) == seq![s.subrange(0, i)] + split_spaces(rest.push(c)));
        assert(split_spaces(s) == seq![s.subrange(0, i)] + split_spaces(rest));
        if c == ' ' {
            assert(split_spaces(t) =~= split_spaces(s).push(seq![]));
        } else {
            assert(split_spaces(t) =~= split_spaces(s).update(split_spaces(s).len() - 1, split_spaces(s).last().push(c)));
        }
    } else {
        assert(split_spaces(s) == seq![s]);
        if c == ' ' {
            assert(t.subrange(0, s.len() as int) =~= s);
            assert(t.subrange(s.len() + 1int, t.len() as int) =~= Seq::<char>::empty());
            assert(split_spaces(Seq::<char>::empty()) == seq![Seq::<char>::empty()]);
            assert(split_spaces(t) =~= split_spaces(s).push(seq![]));
        } else {
            assert(split_spaces(t) == seq![t]);
            assert(split_spaces(t) =~= split_spaces(s).update(0, s.push(c)));
        }
    }
}

proof fn lemma_next_space_shift(s: Seq<char>, k: int, i: int)
    requires
        0 <= k <= i <= s.len(),
    ensures
        next_space(s.subrange(k, s.len() as int), i - k) == next_space(s, i) - k,
    decreases s.len() - i,
{
    if i < s.len() && s[i] != ' ' {
        lemma_next_space_shift(s, k, i + 1);
    }
}

/// The pieces of `s` between single spaces (see `split_spaces`).
pub fn split_on_spaces(s: &[char]) -> (out: Vec<Vec<char>>)
    ensures
        out@.map_values(|w: Vec<char>| w@) == split_spaces(s@),
{
    let mut out: Vec<Vec<char>> = Vec::new();
    let mut start: usize = 0;
    let ghost full = s@;
    proof {
        assert(full.subrange(0, full.len() as int) =~= full);
    }
    loop
        invariant
            start <= s@.len(),
            full == s@,
            split_spaces(full) == out@.map_values(|w: Vec<char>| w@) + split_spaces(
                full.subrange(start as int, full.len() as int),
            ),
        decreases s@.len() - start,
    {
        let ghost rest = full.subrange(start as int, full.len() as int);
        let mut end = start;
        while end < s.len() && s[end] != ' '
            invariant
                start <= end <= s@.len(),
                full == s@,
                forall|j: int| start <= j < end ==> s@[j] != ' ',
            decreases s@.len() - end,
        {
            end = end + 1;
        }
        proof {
            lemma_next_space_bounds(full, start as int);
            lemma_next_space_shift(full, start as int, start as int);
            if next_space(full, start as int) < end {
                assert(full[next_space(full, start as int)] == ' ');
            }
            if end < full.len() {
                assert(next_space(full, start as int) <= end);
            }
            assert(next_space(rest, 0) == end - start);
            assert(rest.subrange(0, end - start) =~= full.subrange(start as int, end as int));
        }
        let piece = slice_chars(s, start, end);
        let ghost old_out = out@;
        out.push(piece);
        proof {
            assert(out@.map_values(|w: Vec<char>| w@) =~= old_out.map_values(|w: Vec<char>| w@)
                + seq![piece@]);
        }
        if end >= s.len() {
            proof {
                assert(rest =~= full.subrange(start as int, end as int));
                assert(split_spaces(rest) =~= seq![rest]);
                assert(out@.map_values(|w: Vec<char>| w@) =~= split_spaces(full));
            }
            return out;
        }
        proof {
            assert(rest.subrange(end - start + 1, rest.len() as int) =~= full.subrange(
                end + 1,
                full.len() as int,
            ));
            assert(split_spaces(rest) =~= seq![piece@] + split_spaces(
                full.subrange(end + 1, full.len() as int),
            ));
        }
        start = end + 1;
    }
}

/// The pieces of `s` between `'\n'` characters, as `str::split('\n')` yields them: one more
/// piece than there are newlines, empty ones included.
pub open spec fn split_newlines(s: Seq<char>) -> Seq<Seq<char>>
    decreases s.len(),
{
    let i = next_newline(s, 0);
    if i >= s.len() {
        seq![s]
    } else {
        proof {
            lemma_next_newline_bounds(s, 0);
        }
        seq![s.subrange(0, i)] + split_newlines(s.subrange(i + 1, s.len() as int))
    }
}

/// The pieces of `s` between `'\n'` characters (see `split_newlines`).
pub fn split_on_newlines(s: &[char]) -> (out: Vec<Vec<char>>)
    ensures
        out@.map_values(|w: Vec<char>| w@) == split_newlines(s@),
{
    let mut out: Vec<Vec<char>> = Vec::new();
    let mut start: usize = 0;
    let ghost full = s@;
    proof {
        assert(full.subrange(0, full.len() as int) =~= full);
    }
    loop
        invariant
            start <= s@.len(),
            full == s@,
            split_newlines(full) == out@.map_values(|w: Vec<char>| w@) + split_newlines(
                full.subrange(start as int, full.len() as int),
            ),
        decreases s@.len() - start,
    {
        let ghost rest = full.subrange(start as int, full.len() as int);
        let mut end = start;
        while end < s.len() && s[end] != '\n'
            invariant
                start <= end <= s@.len(),
                full == s@,
                forall|j: int| start <= j < end ==> s@[j] != '\n',
            decreases s@.len() - end,
        {
            end = end + 1;
        }
        proof {
            lemma_next_newline_bounds(full, start as int);
            lemma_next_newline_shift(full, start as int, start as int);
            if next_newline(full, start as int) < end {
                assert(full[next_newline(full, start as int)] == '\n');
            }
            if end < full.len() {
                assert(next_newline(full, start as int) <= end);
            }
            assert(next_newline(rest, 0) == end - start);
            assert(rest.subrange(0, end - start) =~= full.subrange(start as int, end as int));
        }
        let piece = slice_chars(s, start, end);
        let ghost old_out = out@;
        out.push(piece);
        proof {
            assert(out@.map_values(|w: Vec<char>| w@) =~= old_out.map_values(|w: Vec<char>| w@)
                + seq![piece@]);
        }
        if end >= s.len() {
            proof {
                assert(rest =~= full.subrange(start as int, end as int));
                assert(split_newlines(rest) =~= seq![rest]);
                assert(out@.map_values(|w: Vec<char>| w@) =~= split_newlines(full));
            }
            return out;
        }
        proof {
            assert(rest.subrange(end - start + 1, rest.len() as int) =~= full.subrange(
                end + 1,
                full.len() as int,
            ));
            assert(split_newlines(rest) =~= seq![piece@] + split_newlines(
                full.subrange(end + 1, full.len() as int),
            ));
        }
        start = end + 1;
    }
}

} // verus!
