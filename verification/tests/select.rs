//! Drag selections and copying the selected text from the drawn screen.

use std::collections::HashMap;

use laura::mouse::{KeyModifiers, MouseButton, MouseEvent, MouseEventKind};
use laura::select::{extract, extract_panel, update_selection, Screen, Selection};
use laura::Rect;

/// A screen over `area` with `rows` written from the left, blanks elsewhere.
fn screen(area: Rect, rows: &[&str]) -> Screen {
    let mut cells = Vec::new();
    for y in 0..area.height as usize {
        let chars: Vec<char> = rows.get(y).map(|r| r.chars().collect()).unwrap_or_default();
        for x in 0..area.width as usize {
            cells.push(chars.get(x).map(|c| c.to_string()).unwrap_or_else(|| " ".to_string()));
        }
    }
    Screen { area, cells }
}

fn ev(kind: MouseEventKind, column: u16, row: u16) -> MouseEvent {
    MouseEvent {
        kind,
        column,
        row,
        modifiers: KeyModifiers { shift: false, alt: false, control: false },
    }
}

#[test]
fn extract_reads_the_multi_row_span_from_the_drawn_buffer() {
    let inner = Rect::new(0, 0, 6, 3);
    let buf = screen(inner, &["abcdef", "ghijkl", "mnopqr"]);
    assert_eq!(extract(&buf, inner, (3, 0), (2, 2)), "def\nghijkl\nmno");
    assert_eq!(extract(&buf, inner, (2, 2), (3, 0)), "def\nghijkl\nmno");
}

#[test]
fn extract_panel_drops_gutter_and_rejoins_wrapped_lines() {
    let inner = Rect::new(0, 0, 8, 3);
    let buf = screen(inner, &[" 1 hello", "   world", " 2 bye"]);
    let line_at = [0usize, 0, 1];
    assert_eq!(extract_panel(&buf, inner, 3, 0, &line_at, (3, 0), (5, 2)), "hello world\nbye");
    assert_eq!(extract_panel(&buf, inner, 3, 0, &line_at, (5, 0), (5, 2)), "llo world\nbye");
}

#[test]
fn extract_right_trims_each_row_and_skips_cells_off_screen() {
    let area = Rect::new(0, 0, 4, 2);
    let buf = screen(area, &["ab", "cd"]);
    assert_eq!(extract(&buf, area, (0, 0), (3, 1)), "ab\ncd");
    assert_eq!(extract(&buf, Rect::new(0, 0, 10, 2), (2, 0), (9, 0)), "");
}

#[test]
fn extract_panel_rows_past_the_layout_break_nothing() {
    let inner = Rect::new(0, 0, 5, 3);
    let buf = screen(inner, &["1 aa", "2 bb", "  cc"]);
    // Only the first row has a laid-out line: the rows after it join with nothing.
    assert_eq!(extract_panel(&buf, inner, 2, 0, &[0], (0, 0), (4, 2)), "aa\nbbcc");
    // A scroll offset shifts which layout row each screen row shows.
    assert_eq!(extract_panel(&buf, inner, 2, 1, &[7, 3, 3], (0, 0), (4, 1)), "aa bb");
}

#[test]
fn press_starts_and_drag_extends_within_the_first_pane() {
    let mut map = HashMap::new();
    map.insert(0u64, Rect::new(0, 0, 10, 10));
    map.insert(1u64, Rect::new(10, 0, 10, 10));
    let mut sel: Option<Selection> = None;
    update_selection(&mut sel, &ev(MouseEventKind::Down(MouseButton::Left), 3, 4), Some(0), &map);
    let s = sel.unwrap();
    assert_eq!((s.pane, s.anchor, s.head), (0, (3, 4), (3, 4)));
    // Dragging into the next pane clamps to the first pane's interior.
    update_selection(&mut sel, &ev(MouseEventKind::Drag(MouseButton::Left), 15, 20), Some(1), &map);
    let s = sel.unwrap();
    assert_eq!((s.pane, s.anchor, s.head), (0, (3, 4), (8, 8)));
    // A press on the border clamps into the interior.
    update_selection(&mut sel, &ev(MouseEventKind::Down(MouseButton::Left), 10, 0), Some(1), &map);
    let s = sel.unwrap();
    assert_eq!((s.pane, s.anchor, s.head), (1, (11, 1), (11, 1)));
    // Other events and unknown panes leave it.
    update_selection(&mut sel, &ev(MouseEventKind::Moved, 0, 0), Some(0), &map);
    update_selection(&mut sel, &ev(MouseEventKind::Down(MouseButton::Left), 0, 0), Some(9), &map);
    let s = sel.unwrap();
    assert_eq!((s.pane, s.anchor, s.head), (1, (11, 1), (11, 1)));
    let mut none: Option<Selection> = None;
    update_selection(&mut none, &ev(MouseEventKind::Drag(MouseButton::Left), 1, 1), Some(0), &map);
    assert!(none.is_none());
}
