//! Pure mouse logic: SGR passthrough encoding, pane-clamped selection geometry, OSC 52 copy.

use vstd::prelude::*;

use crate::layout::Rect;
use crate::text::{decimal, push_decimal, utf8_of};

verus! {

/// A mouse button.
#[derive(Debug, Clone, Copy, PartialEq, Eq, Structural)]
pub enum MouseButton {
    Left,
    Right,
    Middle,
}

/// What a mouse event reports.
#[derive(Debug, Clone, Copy, PartialEq, Eq, Structural)]
pub enum MouseEventKind {
    Down(MouseButton),
    Up(MouseButton),
    Drag(MouseButton),
    Moved,
    ScrollDown,
    ScrollUp,
    ScrollLeft,
    ScrollRight,
}

/// The modifier keys held during an input event.
#[derive(Debug, Clone, Copy, PartialEq, Eq, Structural)]
pub struct KeyModifiers {
    pub shift: bool,
    pub alt: bool,
    pub control: bool,
}

/// A mouse event at a terminal cell.
#[derive(Debug, Clone, Copy, PartialEq, Eq, Structural)]
pub struct MouseEvent {
    pub kind: MouseEventKind,
    pub column: u16,
    pub row: u16,
    pub modifiers: KeyModifiers,
}

/// How much mouse reporting the hosted child asked for.
#[derive(Debug, Clone, Copy, PartialEq, Eq, Structural)]
pub enum MouseProtocolMode {
    Off,
    Press,
    PressRelease,
    ButtonMotion,
    AnyMotion,
}

/// How much of the button/motion protocol a mode reports (cumulative): Press=1 (down+wheel),
/// PressRelease=2 (+release), ButtonMotion=3 (+drag), AnyMotion=4 (+bare motion).
pub open spec fn level(mode: MouseProtocolMode) -> int {
    match mode {
        MouseProtocolMode::Off => 0,
        MouseProtocolMode::Press => 1,
        MouseProtocolMode::PressRelease => 2,
        MouseProtocolMode::ButtonMotion => 3,
        MouseProtocolMode::AnyMotion => 4,
    }
}

fn mode_level(mode: MouseProtocolMode) -> (l: u8)
    ensures
        l == level(mode),
{
    match mode {
        MouseProtocolMode::Off => 0,
        MouseProtocolMode::Press => 1,
        MouseProtocolMode::PressRelease => 2,
        MouseProtocolMode::ButtonMotion => 3,
        MouseProtocolMode::AnyMotion => 4,
    }
}

/// The SGR button number.
pub open spec fn button_number(b: MouseButton) -> int {
    match b {
        MouseButton::Left => 0,
        MouseButton::Middle => 1,
        MouseButton::Right => 2,
    }
}

fn button_code(b: MouseButton) -> (c: u16)
    ensures
        c == button_number(b),
{
    match b {
        MouseButton::Left => 0,
        MouseButton::Middle => 1,
        MouseButton::Right => 2,
    }
}

/// The report base code and whether it is a release, or `None` when `mode` doesn't report the
/// event: nothing at all when the child asked for no reports; otherwise presses and the wheel,
/// releases from `PressRelease`, drags (+32) from `ButtonMotion`, bare motion (3+32) only under
/// `AnyMotion`.
pub open spec fn sgr_base(kind: MouseEventKind, mode: MouseProtocolMode) -> Option<(int, bool)> {
    if level(mode) == 0 {
        None
    } else {
    match kind {
        MouseEventKind::Down(b) => Some((button_number(b), false)),
        MouseEventKind::ScrollUp => Some((64, false)),
        MouseEventKind::ScrollDown => Some((65, false)),
        MouseEventKind::Up(b) => if level(mode) >= 2 { Some((button_number(b), true)) } else { None },
        MouseEventKind::Drag(b) => if level(mode) >= 3 { Some((button_number(b) + 32, false)) } else { None },
        MouseEventKind::Moved => if level(mode) >= 4 { Some((35, false)) } else { None },
        _ => None,
    }
    }
}

/// `a - b`, floored at 0.
pub open spec fn sat_sub(a: int, b: int) -> int {
    if a >= b { a - b } else { 0 }
}

/// The SGR (1006) report text `ESC [ < Cb ; Cx ; Cy M` (`m` for a release), where `Cb` adds
/// 4/8/16 for Shift/Alt/Ctrl and the 1-based cell is relative to `inner`'s corner.
pub open spec fn sgr_report(m: MouseEvent, inner: Rect, mode: MouseProtocolMode) -> Option<Seq<char>> {
    match sgr_base(m.kind, mode) {
        None => None,
        Some((base, release)) => {
            let cb = base + (if m.modifiers.shift { 4int } else { 0 }) + (if m.modifiers.alt {
                8int
            } else {
                0
            }) + (if m.modifiers.control { 16int } else { 0 });
            let cx = sat_sub(m.column as int, inner.x as int) + 1;
            let cy = sat_sub(m.row as int, inner.y as int) + 1;
            Some(sgr_text(cb as nat, cx as nat, cy as nat, release))
        },
    }
}

/// `ESC [ < cb ; cx ; cy` then `m` for a release, `M` otherwise.
pub open spec fn sgr_text(cb: nat, cx: nat, cy: nat, release: bool) -> Seq<char> {
    seq!['\u{1b}', '[', '<'] + decimal(cb) + seq![';'] + decimal(cx) + seq![';'] + decimal(cy)
        + seq![if release { 'm' } else { 'M' }]
}

fn sgr_chars(cb: u16, cx: u16, cy: u16, release: bool) -> (out: Vec<char>)
    ensures
        out@ == sgr_text(cb as nat, cx as nat, cy as nat, release),
{
    let mut out: Vec<char> = Vec::new();
    out.push('\u{1b}');
    out.push('[');
    out.push('<');
    push_decimal(&mut out, cb as u64);
    out.push(';');
    push_decimal(&mut out, cx as u64);
    out.push(';');
    push_decimal(&mut out, cy as u64);
    out.push(if release { 'm' } else { 'M' });
    assert(out@ =~= sgr_text(cb as nat, cx as nat, cy as nat, release));
    out
}

/// Encode a mouse event as SGR (1006) mouse-report bytes relative to `pty_inner`, or `None` when
/// `mode` doesn't report that event kind (see `sgr_report`).
pub fn sgr_mouse_bytes(m: &MouseEvent, pty_inner: Rect, mode: MouseProtocolMode) -> (r: Option<Vec<u8>>)
    requires
        sat_sub(m.column as int, pty_inner.x as int) < u16::MAX,
        sat_sub(m.row as int, pty_inner.y as int) < u16::MAX,
    ensures
        mode == MouseProtocolMode::Off ==> r is None,
        sgr_report(*m, pty_inner, mode) is None ==> r is None,
        sgr_report(*m, pty_inner, mode) matches Some(t) ==> (r matches Some(b) && b@
            == vstd::utf8::encode_utf8(t)),
{
    let lvl = mode_level(mode);
    if lvl == 0 {
        return None;
    }
    let (mut cb, release): (u16, bool) = match m.kind {
        MouseEventKind::Down(b) => (button_code(b), false),
        MouseEventKind::ScrollUp => (64, false),
        MouseEventKind::ScrollDown => (65, false),
        MouseEventKind::Up(b) => {
            if lvl >= 2 {
                (button_code(b), true)
            } else {
                return None;
            }
        },
        MouseEventKind::Drag(b) => {
            if lvl >= 3 {
                (button_code(b) + 32, false)
            } else {
                return None;
            }
        },
        MouseEventKind::Moved => {
            if lvl >= 4 {
                (3 + 32, false)
            } else {
                return None;
            }
        },
        _ => {
            return None;
        },
    };
    if m.modifiers.shift {
        cb = cb + 4;
    }
    if m.modifiers.alt {
        cb = cb + 8;
    }
    if m.modifiers.control {
        cb = cb + 16;
    }
    let cx: u16 = (if m.column >= pty_inner.x { m.column - pty_inner.x } else { 0 }) + 1;
    let cy: u16 = (if m.row >= pty_inner.y { m.row - pty_inner.y } else { 0 }) + 1;
    let out = sgr_chars(cb, cx, cy, release);
    Some(utf8_of(out.as_slice()))
}

/// The modifier bits a report's button code carries: Shift 4, Alt 8, Ctrl 16.
pub open spec fn modifier_bits(k: KeyModifiers) -> int {
    (if k.shift { 4int } else { 0 }) + (if k.alt { 8int } else { 0 }) + (if k.control { 16int } else { 0 })
}

/// A wheel notch is reported as a press of button 64 (up) or 65 (down), plus the modifier bits,
/// at the 1-based cell relative to `inner`, whenever the child asked for any reports; so the two
/// directions never share a report. Unmodified, wheel down at cell (x, y) is exactly
/// `ESC [ < 6 5 ; x ; y M`.
pub proof fn lemma_wheel_reports(m: MouseEvent, inner: Rect, mode: MouseProtocolMode)
    requires
        mode != MouseProtocolMode::Off,
        m.kind == MouseEventKind::ScrollUp || m.kind == MouseEventKind::ScrollDown,
    ensures
        ({
            let cx = decimal((sat_sub(m.column as int, inner.x as int) + 1) as nat);
            let cy = decimal((sat_sub(m.row as int, inner.y as int) + 1) as nat);
            let button: int = if m.kind == MouseEventKind::ScrollDown { 65 } else { 64 };
            &&& sgr_report(m, inner, mode) == Some(
                seq!['\u{1b}', '[', '<'] + decimal((button + modifier_bits(m.modifiers)) as nat) + seq![';'] + cx
                    + seq![';'] + cy + seq!['M'],
            )
            &&& (!m.modifiers.shift && !m.modifiers.alt && !m.modifiers.control && m.kind == MouseEventKind::ScrollDown)
                ==> sgr_report(m, inner, mode) == Some(
                seq!['\u{1b}', '[', '<', '6', '5', ';'] + cx + seq![';'] + cy + seq!['M'],
            )
            &&& sgr_report(m, inner, mode) != sgr_report(
                MouseEvent {
                    kind: if m.kind == MouseEventKind::ScrollDown {
                        MouseEventKind::ScrollUp
                    } else {
                        MouseEventKind::ScrollDown
                    },
                    ..m
                },
                inner,
                mode,
            )
        }),
{
    let other = MouseEvent {
        kind: if m.kind == MouseEventKind::ScrollDown { MouseEventKind::ScrollUp } else { MouseEventKind::ScrollDown },
        ..m
    };
    let bits = modifier_bits(m.modifiers);
    let up = decimal((64 + bits) as nat);
    let down = decimal((65 + bits) as nat);
    assert(decimal(65) =~= seq!['6', '5']) by {
        assert(decimal(6) == seq!['6']);
    }
    crate::text::lemma_decimal_digits((64 + bits) as nat);
    crate::text::lemma_decimal_digits((65 + bits) as nat);
    // The two button codes differ in their last digit.
    assert(up.last() != down.last()) by {
        assert(up.last() == crate::text::digit_char(((64 + bits) % 10) as nat));
        assert(down.last() == crate::text::digit_char(((65 + bits) % 10) as nat));
    }
    let cx = decimal((sat_sub(m.column as int, inner.x as int) + 1) as nat);
    let cy = decimal((sat_sub(m.row as int, inner.y as int) + 1) as nat);
    let tu = seq!['\u{1b}', '[', '<'] + up + seq![';'] + cx + seq![';'] + cy + seq!['M'];
    let td = seq!['\u{1b}', '[', '<'] + down + seq![';'] + cx + seq![';'] + cy + seq!['M'];
    assert(tu != td) by {
        if up.len() == down.len() {
            let k = 3 + up.len() - 1;
            assert(tu[k] == up.last());
            assert(td[k] == down.last());
        } else {
            assert(tu.len() != td.len());
        }
    }
}

/// The reading-order comparison of points `(col, row)`: row first, then column.
pub open spec fn before_or_at(a: (u16, u16), b: (u16, u16)) -> bool {
    a.1 < b.1 || (a.1 == b.1 && a.0 <= b.0)
}

/// Order two points in reading order (row-major): the earlier one first.
pub fn normalize(anchor: (u16, u16), head: (u16, u16)) -> (r: ((u16, u16), (u16, u16)))
    ensures
        r == (if before_or_at(anchor, head) { (anchor, head) } else { (head, anchor) }),
{
    if anchor.1 < head.1 || (anchor.1 == head.1 && anchor.0 <= head.0) {
        (anchor, head)
    } else {
        (head, anchor)
    }
}

/// `v` clamped into `lo..=hi`.
pub open spec fn clamp(v: int, lo: int, hi: int) -> int {
    if v < lo { lo } else if v > hi { hi } else { v }
}

/// The last column of `rect` (its left column when it is empty).
pub open spec fn last_col(rect: Rect) -> int {
    let right = if rect.x + rect.width <= u16::MAX { rect.x + rect.width } else { u16::MAX as int };
    if right - 1 > rect.x { right - 1 } else { rect.x as int }
}

/// The last row of `rect` (its top row when it is empty).
pub open spec fn last_row(rect: Rect) -> int {
    let bottom = if rect.y + rect.height <= u16::MAX { rect.y + rect.height } else { u16::MAX as int };
    if bottom - 1 > rect.y { bottom - 1 } else { rect.y as int }
}

/// Clamp `(col, row)` into `rect`'s inclusive interior (never past the last cell, never before
/// the first).
pub fn clamp_point(rect: Rect, col: u16, row: u16) -> (p: (u16, u16))
    ensures
        p.0 == clamp(col as int, rect.x as int, last_col(rect)),
        p.1 == clamp(row as int, rect.y as int, last_row(rect)),
{
    let right = rect.right();
    let bottom = rect.bottom();
    let max_x: u16 = if right >= 1 && right - 1 > rect.x { right - 1 } else { rect.x };
    let max_y: u16 = if bottom >= 1 && bottom - 1 > rect.y { bottom - 1 } else { rect.y };
    let c = if col < rect.x { rect.x } else if col > max_x { max_x } else { col };
    let r = if row < rect.y { rect.y } else if row > max_y { max_y } else { row };
    (c, r)
}

/// The inclusive `[x0, x1]` cells selected on row `y` of a reading-order span from `start` to
/// `end`: from the start column on the first row (else `inner`'s left edge), to the end column on
/// the last row (else `inner`'s last column).
pub open spec fn span_on_row(inner: Rect, start: (u16, u16), end: (u16, u16), y: u16) -> (int, int) {
    let right = if inner.x + inner.width <= u16::MAX { inner.x + inner.width } else { u16::MAX as int };
    (
        if y == start.1 { start.0 as int } else { inner.x as int },
        if y == end.1 { end.0 as int } else { sat_sub(right, 1) },
    )
}

/// See `span_on_row`.
pub fn row_span(inner: Rect, start: (u16, u16), end: (u16, u16), y: u16) -> (r: (u16, u16))
    ensures
        r.0 == span_on_row(inner, start, end, y).0,
        r.1 == span_on_row(inner, start, end, y).1,
{
    let x0 = if y == start.1 { start.0 } else { inner.x };
    let right = inner.right();
    let x1 = if y == end.1 { end.0 } else if right >= 1 { right - 1 } else { 0 };
    (x0, x1)
}

/// The standard base64 alphabet (RFC 4648).
pub open spec fn b64_digit(v: int) -> char {
    if v < 26 {
        (65 + v) as char
    } else if v < 52 {
        (97 + v - 26) as char
    } else if v < 62 {
        (48 + v - 52) as char
    } else if v == 62 {
        '+'
    } else {
        '/'
    }
}

/// Standard padded base64 (RFC 4648) of `data`: each 3-byte group as 4 alphabet characters, a
/// trailing 1- or 2-byte group padded with `=`.
pub open spec fn base64(data: Seq<u8>) -> Seq<char>
    decreases data.len(),
{
    if data.len() == 0 {
        seq![]
    } else {
        let b0 = data[0] as int;
        let b1 = if data.len() > 1 { data[1] as int } else { 0 };
        let b2 = if data.len() > 2 { data[2] as int } else { 0 };
        let n = b0 * 65536 + b1 * 256 + b2;
        let group = seq![
            b64_digit(n / 262144 % 64),
            b64_digit(n / 4096 % 64),
            if data.len() > 1 { b64_digit(n / 64 % 64) } else { '=' },
            if data.len() > 2 { b64_digit(n % 64) } else { '=' },
        ];
        if data.len() <= 3 {
            group
        } else {
            group + base64(data.subrange(3, data.len() as int))
        }
    }
}

fn b64_char(v: u32) -> (c: char)
    requires
        v < 64,
    ensures
        c == b64_digit(v as int),
{
    if v < 26 {
        (65 + v as u8) as char
    } else if v < 52 {
        (97 + (v - 26) as u8) as char
    } else if v < 62 {
        (48 + (v - 52) as u8) as char
    } else if v == 62 {
        '+'
    } else {
        '/'
    }
}

fn push_base64(out: &mut Vec<char>, data: &[u8])
    ensures
        final(out)@ == old(out)@ + base64(data@),
{
    let mut i: usize = 0;
    let ghost d = data@;
    assert(d.subrange(0, d.len() as int) =~= d);
    while i < data.len()
        invariant
            i <= d.len(),
            d == data@,
            old(out)@ + base64(d) == out@ + base64(d.subrange(i as int, d.len() as int)),
        decreases d.len() - i,
    {
        let rest = data.len() - i;
        let b0 = data[i] as u32;
        let b1: u32 = if rest > 1 { data[i + 1] as u32 } else { 0 };
        let b2: u32 = if rest > 2 { data[i + 2] as u32 } else { 0 };
        let n: u32 = b0 * 65536 + b1 * 256 + b2;
        let ghost tail = d.subrange(i as int, d.len() as int);
        let ghost pre = out@;
        out.push(b64_char(n / 262144 % 64));
        out.push(b64_char(n / 4096 % 64));
        out.push(if rest > 1 { b64_char(n / 64 % 64) } else { '=' });
        out.push(if rest > 2 { b64_char(n % 64) } else { '=' });
        let step: usize = if rest > 3 { 3 } else { rest };
        proof {
            assert(tail[0] == data@[i as int]);
            if rest > 1 {
                assert(tail[1] == data@[i + 1]);
            }
            if rest > 2 {
                assert(tail[2] == data@[i + 2]);
            }
            if rest > 3 {
                assert(tail.subrange(3, tail.len() as int) =~= d.subrange(i + 3, d.len() as int));
            } else {
                assert(d.subrange(d.len() as int, d.len() as int) =~= Seq::<u8>::empty());
            }
            assert(out@ + base64(d.subrange(i + step, d.len() as int)) =~= pre + base64(tail));
        }
        i = i + step;
    }
}

/// Standard base64 (RFC 4648), padded.
pub fn base64_encode(data: &[u8]) -> (s: String)
    ensures
        s@ == base64(data@),
{
    let mut out: Vec<char> = Vec::new();
    push_base64(&mut out, data);
    assert(out@ =~= base64(data@));
    crate::text::string_of(out.as_slice())
}

/// A character of the standard base64 alphabet: `A`–`Z`, `a`–`z`, `0`–`9`, `+`, `/`.
pub open spec fn is_b64_char(c: char) -> bool {
    ('A' <= c && c <= 'Z') || ('a' <= c && c <= 'z') || ('0' <= c && c <= '9') || c == '+' || c == '/'
}

/// The value of a base64 character; the padding `=` (and anything else) counts 0.
pub open spec fn b64_value(c: char) -> int {
    if 'A' <= c && c <= 'Z' {
        c as int - 65
    } else if 'a' <= c && c <= 'z' {
        c as int - 71
    } else if '0' <= c && c <= '9' {
        c as int + 4
    } else if c == '+' {
        62
    } else if c == '/' {
        63
    } else {
        0
    }
}

/// Standard padded base64 decoding (RFC 4648): each group of 4 characters gives 3 bytes, one
/// fewer for each `=`.
pub open spec fn unbase64(s: Seq<char>) -> Seq<u8>
    decreases s.len(),
{
    if s.len() < 4 {
        seq![]
    } else {
        let v = b64_value(s[0]) * 262144 + b64_value(s[1]) * 4096 + b64_value(s[2]) * 64 + b64_value(s[3]);
        let bytes = seq![(v / 65536 % 256) as u8, (v / 256 % 256) as u8, (v % 256) as u8];
        let keep = if s[2] == '=' { 1int } else if s[3] == '=' { 2int } else { 3int };
        bytes.take(keep) + unbase64(s.subrange(4, s.len() as int))
    }
}

/// The number of `=` that pad the base64 of `n` bytes.
pub open spec fn b64_padding(n: nat) -> int {
    (3 - n % 3) % 3
}

proof fn lemma_b64_digit(v: int)
    requires
        0 <= v < 64,
    ensures
        is_b64_char(b64_digit(v)),
        b64_value(b64_digit(v)) == v,
        b64_digit(v) != '=',
{
}

proof fn lemma_b64_group(b0: u32, b1: u32, b2: u32)
    requires
        b0 < 256,
        b1 < 256,
        b2 < 256,
    ensures
        ({
            let n = b0 * 65536 + b1 * 256 + b2;
            &&& n / 262144 % 64 * 262144 + n / 4096 % 64 * 4096 + n / 64 % 64 * 64 + n % 64 == n
            &&& n / 65536 % 256 == b0
            &&& n / 256 % 256 == b1
            &&& n % 256 == b2
            &&& b2 == 0 ==> n % 64 == 0
            &&& b1 == 0 && b2 == 0 ==> n / 64 % 64 == 0
        }),
{
    assert({
        let n = b0 * 65536 + b1 * 256 + b2;
        &&& n / 262144 % 64 * 262144 + n / 4096 % 64 * 4096 + n / 64 % 64 * 64 + n % 64 == n
        &&& n / 65536 % 256 == b0
        &&& n / 256 % 256 == b1
        &&& n % 256 == b2
        &&& b2 == 0 ==> n % 64 == 0
        &&& b1 == 0 && b2 == 0 ==> n / 64 % 64 == 0
    }) by (bit_vector)
        requires
            b0 < 256,
            b1 < 256,
            b2 < 256,
    ;
}

/// The four characters base64 writes for the first (up to three) bytes of `data`.
pub open spec fn b64_group(data: Seq<u8>) -> Seq<char> {
    let b0 = data[0] as int;
    let b1 = if data.len() > 1 { data[1] as int } else { 0 };
    let b2 = if data.len() > 2 { data[2] as int } else { 0 };
    let n = b0 * 65536 + b1 * 256 + b2;
    seq![
        b64_digit(n / 262144 % 64),
        b64_digit(n / 4096 % 64),
        if data.len() > 1 { b64_digit(n / 64 % 64) } else { '=' },
        if data.len() > 2 { b64_digit(n % 64) } else { '=' },
    ]
}

/// The bytes one group stands for: the first three of `data`, or all of it when shorter.
pub open spec fn b64_head(data: Seq<u8>) -> Seq<u8> {
    data.subrange(0, if data.len() < 3 { data.len() as int } else { 3 })
}

#[verifier::spinoff_prover]
#[verifier::rlimit(40)]
proof fn lemma_b64_group_decodes(data: Seq<u8>)
    requires
        data.len() >= 1,
    ensures
        unbase64(b64_group(data)) == b64_head(data),
{
    let b0 = data[0] as int;
    let b1 = if data.len() > 1 { data[1] as int } else { 0 };
    let b2 = if data.len() > 2 { data[2] as int } else { 0 };
    let n = b0 * 65536 + b1 * 256 + b2;
    lemma_b64_group(b0 as u32, b1 as u32, b2 as u32);
    let d0 = n / 262144 % 64;
    let d1 = n / 4096 % 64;
    let d2 = n / 64 % 64;
    let d3 = n % 64;
    lemma_b64_digit(d0);
    lemma_b64_digit(d1);
    lemma_b64_digit(d2);
    lemma_b64_digit(d3);
    let g = b64_group(data);
    assert(g.len() == 4);
    assert(g.subrange(4, 4) =~= Seq::<char>::empty());
    let v = b64_value(g[0]) * 262144 + b64_value(g[1]) * 4096 + b64_value(g[2]) * 64 + b64_value(g[3]);
    assert(b64_value('=') == 0);
    assert(v == n);
    let bytes = seq![(v / 65536 % 256) as u8, (v / 256 % 256) as u8, (v % 256) as u8];
    let keep = if g[2] == '=' { 1int } else if g[3] == '=' { 2int } else { 3int };
    assert(unbase64(g) == bytes.take(keep) + unbase64(g.subrange(4, 4)));
    assert(unbase64(g.subrange(4, 4)) == Seq::<u8>::empty());
    if data.len() == 1 {
        assert(keep == 1);
        assert(bytes.take(keep) =~= b64_head(data));
    } else if data.len() == 2 {
        assert(keep == 2);
        assert(bytes.take(keep) =~= b64_head(data));
    } else {
        assert(keep == 3);
        assert(bytes.take(keep) =~= b64_head(data));
    }
}

proof fn lemma_base64_unfold(data: Seq<u8>)
    requires
        data.len() >= 1,
    ensures
        base64(data) == b64_group(data) + (if data.len() <= 3 {
            Seq::<char>::empty()
        } else {
            base64(data.subrange(3, data.len() as int))
        }),
{
    if data.len() <= 3 {
        assert(base64(data) =~= b64_group(data) + Seq::<char>::empty());
    }
}

proof fn lemma_unbase64_concat(g: Seq<char>, t: Seq<char>)
    requires
        g.len() == 4,
    ensures
        unbase64(g + t) == unbase64(g) + unbase64(t),
{
    let s = g + t;
    assert(s.subrange(4, s.len() as int) =~= t);
    assert(g.subrange(4, 4) =~= Seq::<char>::empty());
    assert(unbase64(Seq::<char>::empty()) == Seq::<u8>::empty());
    assert(s[0] == g[0] && s[1] == g[1] && s[2] == g[2] && s[3] == g[3]);
    let v = b64_value(g[0]) * 262144 + b64_value(g[1]) * 4096 + b64_value(g[2]) * 64 + b64_value(g[3]);
    let bytes = seq![(v / 65536 % 256) as u8, (v / 256 % 256) as u8, (v % 256) as u8];
    let keep = if g[2] == '=' { 1int } else if g[3] == '=' { 2int } else { 3int };
    assert(unbase64(g) == bytes.take(keep) + unbase64(g.subrange(4, 4)));
    assert(unbase64(g) =~= bytes.take(keep));
}

#[verifier::spinoff_prover]
#[verifier::rlimit(40)]
proof fn lemma_base64_round_trip(data: Seq<u8>)
    ensures
        base64(data).len() == 4 * ((data.len() + 2) / 3),
        unbase64(base64(data)) == data,
    decreases data.len(),
{
    if data.len() == 0 {
        assert(unbase64(Seq::<char>::empty()) == Seq::<u8>::empty());
        return;
    }
    lemma_b64_group_decodes(data);
    lemma_base64_unfold(data);
    if data.len() <= 3 {
        assert(b64_head(data) =~= data);
    } else {
        let rest = data.subrange(3, data.len() as int);
        lemma_base64_round_trip(rest);
        lemma_unbase64_concat(b64_group(data), base64(rest));
        assert(data =~= b64_head(data) + rest);
    }
}

proof fn lemma_b64_group_char(data: Seq<u8>, i: int)
    requires
        data.len() >= 1,
        0 <= i < 4,
    ensures
        data.len() > 3 || i < 4 - b64_padding(data.len()) ==> is_b64_char(b64_group(data)[i]),
        data.len() <= 3 && i >= 4 - b64_padding(data.len()) ==> b64_group(data)[i] == '=',
{
    let b0 = data[0] as int;
    let b1 = if data.len() > 1 { data[1] as int } else { 0 };
    let b2 = if data.len() > 2 { data[2] as int } else { 0 };
    let n = b0 * 65536 + b1 * 256 + b2;
    lemma_b64_digit(n / 262144 % 64);
    lemma_b64_digit(n / 4096 % 64);
    lemma_b64_digit(n / 64 % 64);
    lemma_b64_digit(n % 64);
}

proof fn lemma_base64_len(data: Seq<u8>)
    ensures
        base64(data).len() == 4 * ((data.len() + 2) / 3),
    decreases data.len(),
{
    if data.len() > 0 {
        lemma_base64_unfold(data);
        if data.len() > 3 {
            lemma_base64_len(data.subrange(3, data.len() as int));
        }
    }
}

#[verifier::spinoff_prover]
#[verifier::rlimit(40)]
proof fn lemma_base64_chars(data: Seq<u8>, i: int)
    requires
        0 <= i < base64(data).len(),
    ensures
        i < base64(data).len() - b64_padding(data.len()) ==> is_b64_char(base64(data)[i]),
        i >= base64(data).len() - b64_padding(data.len()) ==> base64(data)[i] == '=',
    decreases data.len(),
{
    lemma_base64_len(data);
    lemma_base64_unfold(data);
    let g = b64_group(data);
    if data.len() <= 3 {
        lemma_b64_group_char(data, i);
        assert(base64(data)[i] == g[i]);
    } else {
        let rest = data.subrange(3, data.len() as int);
        lemma_base64_len(rest);
        assert(b64_padding(data.len()) == b64_padding(rest.len()));
        if i >= 4 {
            lemma_base64_chars(rest, i - 4);
            assert(base64(data)[i] == base64(rest)[i - 4]);
        } else {
            lemma_b64_group_char(data, i);
            assert(base64(data)[i] == g[i]);
        }
    }
}

/// Base64 of `data` has `4 * ceil(len / 3)` characters; its last `b64_padding(len)` are `=`
/// and every other one is from the alphabet; and decoding it gives `data` back.
#[verifier::spinoff_prover]
#[verifier::rlimit(40)]
pub proof fn lemma_base64_law(data: Seq<u8>)
    ensures
        base64(data).len() == 4 * ((data.len() + 2) / 3),
        forall|i: int|
            0 <= i < base64(data).len() - b64_padding(data.len()) ==> is_b64_char(#[trigger] base64(data)[i]),
        forall|i: int|
            base64(data).len() - b64_padding(data.len()) <= i < base64(data).len() ==> #[trigger] base64(data)[i]
                == '=',
        unbase64(base64(data)) == data,
{
    lemma_base64_round_trip(data);
    assert forall|i: int| 0 <= i < base64(data).len() - b64_padding(data.len()) implies is_b64_char(
        #[trigger] base64(data)[i],
    ) by {
        lemma_base64_chars(data, i);
    }
    assert forall|i: int| base64(data).len() - b64_padding(data.len()) <= i < base64(data).len() implies #[trigger] base64(
        data,
    )[i] == '=' by {
        lemma_base64_chars(data, i);
    }
}

/// The OSC 52 clipboard-set sequence `ESC ] 52 ; c ; <base64 of text's UTF-8> BEL`.
pub open spec fn osc52_text(text: Seq<char>) -> Seq<char> {
    seq!['\u{1b}', ']', '5', '2', ';', 'c', ';'] + base64(vstd::utf8::encode_utf8(text)) + seq!['\u{7}']
}

/// Wrap `text` in an OSC 52 clipboard-set sequence for Laura's own stdout.
pub fn osc52(text: &str) -> (b: Vec<u8>)
    ensures
        b@ == vstd::utf8::encode_utf8(osc52_text(text@)),
{
    let mut out: Vec<char> = Vec::new();
    out.push('\u{1b}');
    out.push(']');
    out.push('5');
    out.push('2');
    out.push(';');
    out.push('c');
    out.push(';');
    push_base64(&mut out, text.as_bytes());
    out.push('\u{7}');
    assert(out@ =~= osc52_text(text@));
    utf8_of(out.as_slice())
}

} // verus!
