//! Key events become the bytes a terminal child expects.

use laura::keys::{key_to_bytes, KeyCode};
use laura::mouse::KeyModifiers;

const NONE: KeyModifiers = KeyModifiers { shift: false, alt: false, control: false };
const SHIFT: KeyModifiers = KeyModifiers { shift: true, alt: false, control: false };
const ALT: KeyModifiers = KeyModifiers { shift: false, alt: true, control: false };
const CONTROL: KeyModifiers = KeyModifiers { shift: false, alt: false, control: true };

#[test]
fn key_to_bytes_encodes_modifiers() {
    // Bare specials keep their classic sequences.
    assert_eq!(key_to_bytes(KeyCode::Up, NONE).unwrap(), b"\x1b[A");
    assert_eq!(key_to_bytes(KeyCode::Delete, NONE).unwrap(), b"\x1b[3~");
    // Modified specials carry the xterm modifier param (shift=2, ctrl=5, alt=3).
    assert_eq!(key_to_bytes(KeyCode::Up, SHIFT).unwrap(), b"\x1b[1;2A");
    assert_eq!(key_to_bytes(KeyCode::Up, CONTROL).unwrap(), b"\x1b[1;5A");
    assert_eq!(key_to_bytes(KeyCode::Delete, CONTROL).unwrap(), b"\x1b[3;5~");
    // Ctrl+letter is still a control byte; Alt prefixes ESC; Shift+Tab is CSI Z.
    assert_eq!(key_to_bytes(KeyCode::Char('c'), CONTROL).unwrap(), vec![0x03]);
    assert_eq!(key_to_bytes(KeyCode::Char('a'), ALT).unwrap(), vec![0x1b, b'a']);
    assert_eq!(key_to_bytes(KeyCode::BackTab, SHIFT).unwrap(), b"\x1b[Z");
}

#[test]
fn plain_and_unicode_characters_and_unmapped_keys() {
    assert_eq!(key_to_bytes(KeyCode::Char('é'), NONE).unwrap(), "é".as_bytes());
    assert_eq!(key_to_bytes(KeyCode::Char('Z'), KeyModifiers { shift: false, alt: true, control: true }).unwrap(), vec![0x1b, 0x1a]);
    assert_eq!(key_to_bytes(KeyCode::Char('1'), CONTROL).unwrap(), b"1");
    assert_eq!(key_to_bytes(KeyCode::Enter, NONE).unwrap(), b"\r");
    assert_eq!(key_to_bytes(KeyCode::Backspace, NONE).unwrap(), vec![0x7f]);
    assert_eq!(key_to_bytes(KeyCode::End, KeyModifiers { shift: true, alt: true, control: true }).unwrap(), b"\x1b[1;8F");
    assert_eq!(key_to_bytes(KeyCode::F(5), NONE), None);
    assert_eq!(key_to_bytes(KeyCode::PageUp, NONE), None);
}
