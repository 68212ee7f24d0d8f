//! `highlight` spotlights a panel's lines and anchors the cursor on the span's end; a fresh
//! highlight is centred in the view, or top-anchored when taller than it.

use laura::gitdiff::DiffOutcome;
use laura::layout::Rect;
use laura::panel::Panel;
use laura::protocol::{Dir, Message, Response, Side};
use laura::render::plain;
use laura::tab::Tab;

fn area() -> Rect {
    Rect::new(0, 0, 120, 40)
}

fn numbered(n: usize) -> String {
    (1..=n).map(|i| format!("line {i}\n")).collect()
}

fn open(tab: &mut Tab, content: &str, highlight: Option<(u32, u32)>) -> u64 {
    let panel = Panel::from_rendered("lines.txt".to_string(), plain(content.to_string()), None, DiffOutcome::Unavailable);
    let msg = Message::Open {
        path: "lines.txt".to_string(),
        split: None,
        dir: Dir::Horizontal,
        ratio: 50,
        side: Side::Second,
        focus: false,
        follow: false,
        dry_run: false,
        highlight,
        diff: false,
    };
    match tab.apply(msg, area(), Some(panel)) {
        Response::Opened { pane, .. } => pane,
        other => panic!("expected Opened, got {other:?}"),
    }
}

fn highlight(tab: &mut Tab, id: u64, start: u32, end: Option<u32>) {
    assert_eq!(tab.apply(Message::Highlight { pane: Some(id), start, end }, area(), None), Response::Done);
}

fn new_tab() -> Tab {
    Tab::new("laura-3-0.sock".to_string(), "/data".to_string())
}

#[test]
fn highlight_sets_range_and_anchor() {
    let mut tab = new_tab();
    let id = open(&mut tab, &numbered(10), None);
    highlight(&mut tab, id, 3, Some(5));
    let panel = &tab.panels[&id];
    assert_eq!(panel.highlight, Some((2, 4)));
    assert_eq!(panel.cursor, 4);
    highlight(&mut tab, id, 999, None);
    assert_eq!(tab.panels[&id].highlight, Some((9, 9)));
    highlight(&mut tab, id, 2, None);
    assert_eq!(tab.panels[&id].highlight, Some((1, 1)));
}

#[test]
fn highlight_centers_then_top_anchors() {
    let mut tab = new_tab();
    let id = open(&mut tab, &numbered(100), None);
    highlight(&mut tab, id, 40, Some(52));
    let panel = &tab.panels[&id];
    let layout = panel.layout(80);
    assert_eq!(panel.scroll_offset(&layout, 20), 36);
    highlight(&mut tab, id, 40, Some(60));
    let panel = &tab.panels[&id];
    assert_eq!(panel.scroll_offset(&panel.layout(80), 8), 39);
}

#[test]
fn open_highlight_points_on_open() {
    let mut tab = new_tab();
    let id = open(&mut tab, &numbered(10), Some((3, 5)));
    let panel = &tab.panels[&id];
    assert_eq!(panel.highlight, Some((2, 4)));
    assert_eq!(panel.cursor, 4);
    let id2 = open(&mut tab, &numbered(10), Some((2, 2)));
    assert_eq!(tab.panels[&id2].highlight, Some((1, 1)));
}

#[test]
fn highlight_on_an_unknown_pane_is_refused() {
    let mut tab = new_tab();
    let id = open(&mut tab, &numbered(3), None);
    let r = tab.apply(Message::Highlight { pane: Some(id + 7), start: 1, end: None }, area(), None);
    assert!(matches!(r, Response::Error { .. }), "{r:?}");
    assert_eq!(tab.panels[&id].highlight, None);
}
