//! key→bytes: translate a key event into the stdin bytes a terminal child expects.

use vstd::prelude::*;

use crate::mouse::KeyModifiers;
use crate::text::{decimal, push_decimal, utf8_of};

verus! {

/// A key, as far as the translation reads it.
#[derive(Debug, Clone, Copy, PartialEq, Eq, Structural)]
pub enum KeyCode {
    Char(char),
    Enter,
    Backspace,
    Tab,
    BackTab,
    Esc,
    Up,
    Down,
    Right,
    Left,
    Home,
    End,
    Delete,
    PageUp,
    PageDown,
    Insert,
    F(u8),
    /// Any key the translation has no sequence for.
    Other,
}

/// The xterm modifier parameter: 1 + shift + 2·alt + 4·ctrl.
pub open spec fn modifier_param(mods: KeyModifiers) -> int {
    1 + (if mods.shift { 1int } else { 0 }) + (if mods.alt { 2int } else { 0 }) + (if mods.control {
        4int
    } else {
        0
    })
}

/// A CSI cursor/edit key: `ESC [ <final>` unmodified, `ESC [ 1 ; <m> <final>` when modified.
pub open spec fn csi_seq(m: int, fin: char) -> Seq<char> {
    if m == 1 {
        seq!['\u{1b}', '[', fin]
    } else {
        seq!['\u{1b}', '[', '1', ';'] + decimal(m as nat) + seq![fin]
    }
}

/// A tilde-form edit key: `ESC [ <n> ~` unmodified, `ESC [ <n> ; <m> ~` when modified.
pub open spec fn tilde_seq(m: int, n: nat) -> Seq<char> {
    if m == 1 {
        seq!['\u{1b}', '['] + decimal(n) + seq!['~']
    } else {
        seq!['\u{1b}', '['] + decimal(n) + seq![';'] + decimal(m as nat) + seq!['~']
    }
}

/// An ASCII letter.
pub open spec fn is_ascii_letter(c: char) -> bool {
    ('a' <= c && c <= 'z') || ('A' <= c && c <= 'Z')
}

/// The control byte for a letter: its upper-case code with the top three bits cleared.
pub open spec fn control_char(c: char) -> char {
    if 'a' <= c && c <= 'z' { (c as int - 96) as char } else { (c as int - 64) as char }
}

/// The characters a terminal child expects for a key, or `None` for a key with no sequence.
/// Ctrl+letter is its control byte, Alt prefixes `ESC`; arrows/Home/End are CSI keys and
/// Delete the tilde key `3`, carrying the modifier parameter when a modifier is held.
pub open spec fn key_seq(code: KeyCode, mods: KeyModifiers) -> Option<Seq<char>> {
    let m = modifier_param(mods);
    match code {
        KeyCode::Char(c) => if mods.control && is_ascii_letter(c) {
            if mods.alt {
                Some(seq!['\u{1b}', control_char(c)])
            } else {
                Some(seq![control_char(c)])
            }
        } else if mods.alt {
            Some(seq!['\u{1b}', c])
        } else {
            Some(seq![c])
        },
        KeyCode::Enter => Some(seq!['\r']),
        KeyCode::Backspace => Some(seq!['\u{7f}']),
        KeyCode::Tab => Some(seq!['\t']),
        KeyCode::BackTab => Some(seq!['\u{1b}', '[', 'Z']),
        KeyCode::Esc => Some(seq!['\u{1b}']),
        KeyCode::Up => Some(csi_seq(m, 'A')),
        KeyCode::Down => Some(csi_seq(m, 'B')),
        KeyCode::Right => Some(csi_seq(m, 'C')),
        KeyCode::Left => Some(csi_seq(m, 'D')),
        KeyCode::Home => Some(csi_seq(m, 'H')),
        KeyCode::End => Some(csi_seq(m, 'F')),
        KeyCode::Delete => Some(tilde_seq(m, 3)),
        _ => None,
    }
}

fn csi(m: u8, fin: char) -> (out: Vec<char>)
    ensures
        out@ == csi_seq(m as int, fin),
{
    let mut out: Vec<char> = Vec::new();
    out.push('\u{1b}');
    out.push('[');
    if m != 1 {
        out.push('1');
        out.push(';');
        push_decimal(&mut out, m as u64);
    }
    out.push(fin);
    assert(out@ =~= csi_seq(m as int, fin));
    out
}

fn tilde(m: u8, n: u8) -> (out: Vec<char>)
    ensures
        out@ == tilde_seq(m as int, n as nat),
{
    let mut out: Vec<char> = Vec::new();
    out.push('\u{1b}');
    out.push('[');
    push_decimal(&mut out, n as u64);
    if m != 1 {
        out.push(';');
        push_decimal(&mut out, m as u64);
    }
    out.push('~');
    assert(out@ =~= tilde_seq(m as int, n as nat));
    out
}

/// Translate a key event into the bytes (UTF-8 of `key_seq`) a terminal child expects on stdin,
/// preserving Shift/Ctrl/Alt via xterm's modifier encoding.
pub fn key_to_bytes(code: KeyCode, mods: KeyModifiers) -> (r: Option<Vec<u8>>)
    ensures
        key_seq(code, mods) is None ==> r is None,
        key_seq(code, mods) matches Some(t) ==> (r matches Some(b) && b@ == vstd::utf8::encode_utf8(
            t,
        )),
{
    let m: u8 = 1 + (if mods.shift { 1u8 } else { 0 }) + (if mods.alt { 2u8 } else { 0 }) + (
    if mods.control {
        4u8
    } else {
        0
    });
    let chars: Vec<char> = match code {
        KeyCode::Char(c) => {
            let mut v: Vec<char> = Vec::new();
            let letter = ('a' <= c && c <= 'z') || ('A' <= c && c <= 'Z');
            if mods.control && letter {
                let b: char = if 'a' <= c && c <= 'z' {
                    ((c as u32 - 96) as u8) as char
                } else {
                    ((c as u32 - 64) as u8) as char
                };
                if mods.alt {
                    v.push('\u{1b}');
                }
                v.push(b);
            } else {
                if mods.alt {
                    v.push('\u{1b}');
                }
                v.push(c);
            }
            v
        },
        KeyCode::Enter => vec!['\r'],
        KeyCode::Backspace => vec!['\u{7f}'],
        KeyCode::Tab => vec!['\t'],
        KeyCode::BackTab => vec!['\u{1b}', '[', 'Z'],
        KeyCode::Esc => vec!['\u{1b}'],
        KeyCode::Up => csi(m, 'A'),
        KeyCode::Down => csi(m, 'B'),
        KeyCode::Right => csi(m, 'C'),
        KeyCode::Left => csi(m, 'D'),
        KeyCode::Home => csi(m, 'H'),
        KeyCode::End => csi(m, 'F'),
        KeyCode::Delete => tilde(m, 3),
        _ => {
            return None;
        },
    };
    assert(chars@ =~= key_seq(code, mods)->0);
    Some(utf8_of(chars.as_slice()))
}

proof fn lemma_csi_ascii(m: int, fin: char)
    requires
        1 <= m,
        '\0' <= fin <= '\u{7f}',
    ensures
        vstd::utf8::is_ascii_chars(csi_seq(m, fin)),
        csi_seq(m, fin).len() >= 3,
        csi_seq(m, fin)[0] == '\u{1b}',
        csi_seq(m, fin)[1] == '[',
        csi_seq(m, fin).last() == fin,
{
    crate::text::lemma_decimal_digits(m as nat);
    let s = csi_seq(m, fin);
    if m != 1 {
        let d = decimal(m as nat);
        assert forall|i: int| 0 <= i < s.len() implies '\0' <= #[trigger] s[i] <= '\u{7f}' by {
            if 4 <= i < 4 + d.len() {
                assert(s[i] == d[i - 4]);
            }
        }
    }
}

/// The bytes of a cursor key: `ESC [`, then (when a modifier is held) `1 ; <m>`, then the xterm
/// final byte of that key.
pub open spec fn cursor_key_bytes(b: Seq<u8>, fin: u8) -> bool {
    &&& b.len() >= 3
    &&& b[0] == 0x1bu8
    &&& b[1] == 0x5bu8
    &&& b.last() == fin
}

/// The arrow keys send xterm's cursor sequences, whose final byte names the direction: Up `A`,
/// Down `B`, Right `C`, Left `D`, with or without modifiers; unmodified they are exactly
/// `ESC [ A`, `ESC [ B`, `ESC [ C`, `ESC [ D`.
pub proof fn lemma_arrow_keys(mods: KeyModifiers)
    ensures
        key_seq(KeyCode::Up, mods) is Some && cursor_key_bytes(
            vstd::utf8::encode_utf8(key_seq(KeyCode::Up, mods)->0),
            0x41u8,
        ),
        key_seq(KeyCode::Down, mods) is Some && cursor_key_bytes(
            vstd::utf8::encode_utf8(key_seq(KeyCode::Down, mods)->0),
            0x42u8,
        ),
        key_seq(KeyCode::Right, mods) is Some && cursor_key_bytes(
            vstd::utf8::encode_utf8(key_seq(KeyCode::Right, mods)->0),
            0x43u8,
        ),
        key_seq(KeyCode::Left, mods) is Some && cursor_key_bytes(
            vstd::utf8::encode_utf8(key_seq(KeyCode::Left, mods)->0),
            0x44u8,
        ),
        !mods.shift && !mods.alt && !mods.control ==> {
            &&& vstd::utf8::encode_utf8(key_seq(KeyCode::Up, mods)->0) == seq![0x1bu8, 0x5bu8, 0x41u8]
            &&& vstd::utf8::encode_utf8(key_seq(KeyCode::Down, mods)->0) == seq![0x1bu8, 0x5bu8, 0x42u8]
            &&& vstd::utf8::encode_utf8(key_seq(KeyCode::Right, mods)->0) == seq![0x1bu8, 0x5bu8, 0x43u8]
            &&& vstd::utf8::encode_utf8(key_seq(KeyCode::Left, mods)->0) == seq![0x1bu8, 0x5bu8, 0x44u8]
        },
{
    let m = modifier_param(mods);
    lemma_csi_ascii(m, 'A');
    lemma_csi_ascii(m, 'B');
    lemma_csi_ascii(m, 'C');
    lemma_csi_ascii(m, 'D');
    vstd::utf8::is_ascii_chars_encode_utf8(csi_seq(m, 'A'));
    vstd::utf8::is_ascii_chars_encode_utf8(csi_seq(m, 'B'));
    vstd::utf8::is_ascii_chars_encode_utf8(csi_seq(m, 'C'));
    vstd::utf8::is_ascii_chars_encode_utf8(csi_seq(m, 'D'));
    assert(('A' as u8) == 0x41u8 && ('B' as u8) == 0x42u8 && ('C' as u8) == 0x43u8 && ('D' as u8) == 0x44u8);
    assert(('\u{1b}' as u8) == 0x1bu8 && ('[' as u8) == 0x5bu8);
    let ea = vstd::utf8::encode_utf8(csi_seq(m, 'A'));
    let eb = vstd::utf8::encode_utf8(csi_seq(m, 'B'));
    let ec = vstd::utf8::encode_utf8(csi_seq(m, 'C'));
    let ed = vstd::utf8::encode_utf8(csi_seq(m, 'D'));
    assert(ea.last() == csi_seq(m, 'A').last() as u8);
    assert(eb.last() == csi_seq(m, 'B').last() as u8);
    assert(ec.last() == csi_seq(m, 'C').last() as u8);
    assert(ed.last() == csi_seq(m, 'D').last() as u8);
    assert(ea[0] == csi_seq(m, 'A')[0] as u8 && ea[1] == csi_seq(m, 'A')[1] as u8);
    assert(eb[0] == csi_seq(m, 'B')[0] as u8 && eb[1] == csi_seq(m, 'B')[1] as u8);
    assert(ec[0] == csi_seq(m, 'C')[0] as u8 && ec[1] == csi_seq(m, 'C')[1] as u8);
    assert(ed[0] == csi_seq(m, 'D')[0] as u8 && ed[1] == csi_seq(m, 'D')[1] as u8);
    if !mods.shift && !mods.alt && !mods.control {
        assert(m == 1);
        assert(ea =~= seq![0x1bu8, 0x5bu8, 0x41u8]);
        assert(eb =~= seq![0x1bu8, 0x5bu8, 0x42u8]);
        assert(ec =~= seq![0x1bu8, 0x5bu8, 0x43u8]);
        assert(ed =~= seq![0x1bu8, 0x5bu8, 0x44u8]);
    }
}

} // verus!
