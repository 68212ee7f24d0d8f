//! Mouse encodings and selection geometry.

use laura::mouse::{
    base64_encode, clamp_point, normalize, osc52, row_span, sgr_mouse_bytes, KeyModifiers, MouseButton,
    MouseEvent, MouseEventKind, MouseProtocolMode,
};
use laura::Rect;

fn ev(kind: MouseEventKind, column: u16, row: u16) -> MouseEvent {
    MouseEvent {
        kind,
        column,
        row,
        modifiers: KeyModifiers { shift: false, alt: false, control: false },
    }
}

#[test]
fn sgr_encodes_press_release_and_drag() {
    let inner = Rect::new(0, 0, 80, 24);
    // Left press at the origin, then release.
    assert_eq!(
        sgr_mouse_bytes(
            &ev(MouseEventKind::Down(MouseButton::Left), 0, 0),
            inner,
            MouseProtocolMode::PressRelease,
        )
        .unwrap(),
        b"\x1b[<0;1;1M"
    );
    assert_eq!(
        sgr_mouse_bytes(
            &ev(MouseEventKind::Up(MouseButton::Left), 0, 0),
            inner,
            MouseProtocolMode::PressRelease,
        )
        .unwrap(),
        b"\x1b[<0;1;1m"
    );
    // Drag carries the +32 motion bit.
    assert_eq!(
        sgr_mouse_bytes(
            &ev(MouseEventKind::Drag(MouseButton::Left), 0, 0),
            inner,
            MouseProtocolMode::ButtonMotion,
        )
        .unwrap(),
        b"\x1b[<32;1;1M"
    );
    // Wheel up is button 64.
    assert_eq!(
        sgr_mouse_bytes(&ev(MouseEventKind::ScrollUp, 0, 0), inner, MouseProtocolMode::Press).unwrap(),
        b"\x1b[<64;1;1M"
    );
}

#[test]
fn sgr_gates_events_the_mode_does_not_report() {
    let inner = Rect::new(0, 0, 80, 24);
    // Drag is silent under PressRelease; bare motion is silent under ButtonMotion.
    assert!(sgr_mouse_bytes(
        &ev(MouseEventKind::Drag(MouseButton::Left), 0, 0),
        inner,
        MouseProtocolMode::PressRelease,
    )
    .is_none());
    assert!(sgr_mouse_bytes(&ev(MouseEventKind::Moved, 0, 0), inner, MouseProtocolMode::ButtonMotion).is_none());
}

#[test]
fn sgr_adds_modifier_bits_and_offsets_into_the_pane() {
    let inner = Rect::new(10, 5, 80, 24);
    let mut m = ev(MouseEventKind::Down(MouseButton::Right), 14, 7);
    m.modifiers = KeyModifiers { shift: true, alt: false, control: true };
    assert_eq!(sgr_mouse_bytes(&m, inner, MouseProtocolMode::Press).unwrap(), b"\x1b[<22;5;3M");
    assert_eq!(
        sgr_mouse_bytes(&ev(MouseEventKind::Moved, 3, 3), inner, MouseProtocolMode::AnyMotion).unwrap(),
        b"\x1b[<35;1;1M"
    );
}

#[test]
fn clamp_holds_points_inside_the_rect() {
    let r = Rect::new(2, 3, 10, 5); // cols 2..=11, rows 3..=7
    assert_eq!(clamp_point(r, 0, 0), (2, 3));
    assert_eq!(clamp_point(r, 100, 100), (11, 7));
    assert_eq!(clamp_point(r, 5, 4), (5, 4));
}

#[test]
fn normalize_orders_anchor_and_head() {
    assert_eq!(normalize((5, 2), (1, 1)), ((1, 1), (5, 2)));
    assert_eq!(normalize((1, 1), (5, 1)), ((1, 1), (5, 1)));
}

#[test]
fn row_span_covers_reading_order() {
    let inner = Rect::new(0, 0, 6, 3);
    assert_eq!(row_span(inner, (3, 0), (2, 2), 0), (3, 5));
    assert_eq!(row_span(inner, (3, 0), (2, 2), 1), (0, 5));
    assert_eq!(row_span(inner, (3, 0), (2, 2), 2), (0, 2));
}

#[test]
fn base64_matches_rfc_4648_vectors() {
    assert_eq!(base64_encode(b"f"), "Zg==");
    assert_eq!(base64_encode(b"fo"), "Zm8=");
    assert_eq!(base64_encode(b"foo"), "Zm9v");
    assert_eq!(base64_encode(b"foob"), "Zm9vYg==");
    assert_eq!(osc52("hi"), b"\x1b]52;c;aGk=\x07");
}

#[test]
fn base64_uses_the_whole_alphabet() {
    assert_eq!(base64_encode(b""), "");
    assert_eq!(base64_encode(b"fooba"), "Zm9vYmE=");
    assert_eq!(base64_encode(b"foobar"), "Zm9vYmFy");
    assert_eq!(base64_encode(&[0xfb, 0xff, 0xbf]), "+/+/");
    assert_eq!(base64_encode(&[0x00, 0x10, 0x83]), "ABCD");
}

#[test]
fn sgr_reports_nothing_when_the_child_asked_for_no_mouse() {
    let inner = Rect::new(0, 0, 80, 24);
    for kind in [
        MouseEventKind::Down(MouseButton::Left),
        MouseEventKind::Up(MouseButton::Left),
        MouseEventKind::ScrollUp,
        MouseEventKind::ScrollDown,
        MouseEventKind::Moved,
    ] {
        assert!(sgr_mouse_bytes(&ev(kind, 0, 0), inner, MouseProtocolMode::Off).is_none());
    }
}

#[test]
fn base64_length_padding_and_alphabet() {
    for (data, want) in [(&b""[..], ""), (b"f", "Zg=="), (b"fo", "Zm8="), (b"foo", "Zm9v"), (b"foob", "Zm9vYg=="), (b"\xff\xfe\xfd\x00", "//79AA==")] {
        let s = base64_encode(data);
        assert_eq!(s, want);
        assert_eq!(s.len(), 4 * data.len().div_ceil(3));
        let pad = (3 - data.len() % 3) % 3;
        assert!(s.ends_with(&"=".repeat(pad)));
        assert!(s[..s.len() - pad].chars().all(|c| c.is_ascii_alphanumeric() || c == '+' || c == '/'));
    }
}
