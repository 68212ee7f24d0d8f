//! The agent composes a frame through requests: split panes, read their ids, introspect with
//! `layout`, see that a dry run commits nothing, and close panes one by one or all at once.

use laura::gitdiff::DiffOutcome;
use laura::layout::Rect;
use laura::panel::Panel;
use laura::protocol::{Dir, LayoutReport, Message, Response, Side};
use laura::render::plain;
use laura::tab::Tab;

fn area() -> Rect {
    Rect::new(0, 0, 120, 40)
}

fn new_tab() -> Tab {
    Tab::new("laura-11-0.sock".to_string(), "/data".to_string())
}

fn panel(path: &str, content: &str) -> Panel {
    Panel::from_rendered(path.to_string(), plain(content.to_string()), None, DiffOutcome::Unavailable)
}

fn open_msg(path: &str, split: Option<u64>, dir: Dir, ratio: u16, side: Side, dry_run: bool) -> Message {
    Message::Open {
        path: path.to_string(),
        split,
        dir,
        ratio,
        side,
        focus: true,
        follow: false,
        dry_run,
        highlight: None,
        diff: false,
    }
}

fn open(tab: &mut Tab, msg: Message, content: &str) -> u64 {
    let path = match &msg {
        Message::Open { path, .. } => path.clone(),
        _ => unreachable!(),
    };
    match tab.apply(msg, area(), Some(panel(&path, content))) {
        Response::Opened { pane, .. } => pane,
        other => panic!("expected Opened, got {other:?}"),
    }
}

fn layout(tab: &mut Tab) -> LayoutReport {
    match tab.apply(Message::Layout, area(), None) {
        Response::Report(r) => r,
        other => panic!("expected Report, got {other:?}"),
    }
}

fn pane_width(report: &LayoutReport, id: u64) -> u16 {
    report.panes.iter().find(|p| p.id == id).expect("pane in report").rect.width
}

#[test]
fn ratio_targets_the_new_panel() {
    for side in [Side::Second, Side::First] {
        let mut tab = new_tab();
        let id = open(&mut tab, open_msg("a.txt", None, Dir::Horizontal, 75, side, false), "hello\n");
        let w = pane_width(&layout(&mut tab), id);
        assert!((85..=95).contains(&w), "--side {side:?}: new panel should be ~75% of 120 (~90), got {w}");
    }
}

#[test]
fn compose_introspect_and_close() {
    let mut tab = new_tab();

    let id1 = open(&mut tab, open_msg("one.txt", None, Dir::Horizontal, 50, Side::Second, false), "hello\n");
    let id2 = open(&mut tab, open_msg("two.txt", Some(id1), Dir::Vertical, 50, Side::Second, false), "logs\n");
    assert_ne!(id1, id2);

    assert_eq!(layout(&mut tab).panes.len(), 3);

    let before = layout(&mut tab);
    let dry = match tab.apply(
        open_msg("one.txt", None, Dir::Horizontal, 50, Side::Second, true),
        area(),
        Some(panel("one.txt", "hello\n")),
    ) {
        Response::Report(r) => r,
        other => panic!("expected Report, got {other:?}"),
    };
    assert!(dry.panes.len() >= 3, "dry-run reports the would-be layout");
    let after = layout(&mut tab);
    assert_eq!(before, after, "dry-run must not mutate state");

    assert_eq!(tab.apply(Message::Close { pane: Some(id2), all: false }, area(), None), Response::Done);
    assert_eq!(layout(&mut tab).panes.len(), 2);
    assert_eq!(tab.apply(Message::Close { pane: None, all: true }, area(), None), Response::Done);
    assert_eq!(layout(&mut tab).panes.len(), 1, "back to PTY-only");
    assert!(tab.panels.is_empty());

    let id3 = open(&mut tab, open_msg("one.txt", None, Dir::Horizontal, 50, Side::Second, false), "hello\n");
    assert!(id3 > 0);
}

#[test]
fn close_clears_the_panel() {
    let mut tab = new_tab();
    open(&mut tab, open_msg("c.txt", None, Dir::Horizontal, 50, Side::Second, false), "content\n");
    assert!(!tab.panels.is_empty(), "open should have added a panel");
    // The front-end applies pending focus; do the same so a default `close` targets the panel.
    if let Some(id) = tab.pending_focus.take() {
        tab.focus = id;
    }
    assert_eq!(tab.apply(Message::Close { pane: None, all: false }, area(), None), Response::Done);
    assert!(tab.panels.is_empty(), "close should remove the panel");
}

#[test]
fn open_in_one_tab_does_not_reach_the_other() {
    let mut a = new_tab();
    let b = Tab::new("laura-11-1.sock".to_string(), "/data".to_string());
    open(&mut a, open_msg("plan.md", None, Dir::Horizontal, 50, Side::Second, false), "# plan\nknown content\n");
    let panel = a.panels.values().next().expect("tab A should have opened a panel");
    assert_eq!(panel.content, "# plan\nknown content\n");
    assert!(b.panels.is_empty(), "tab B must not see tab A's open");
}

#[test]
fn ready_marks_the_tab_as_agent() {
    let mut tab = new_tab();
    assert!(!tab.agent, "tabs start non-agent (fail closed)");
    let r = tab.apply(Message::Ready { session: None, agent: None }, area(), None);
    assert!(matches!(r, Response::Ready { .. }));
    assert!(tab.agent, "ready should mark the tab as hosting an agent");
}

#[test]
fn diff_on_clean_file_is_refused() {
    let mut tab = new_tab();
    let msg = Message::Open {
        path: "clean.txt".to_string(),
        split: None,
        dir: Dir::Horizontal,
        ratio: 50,
        side: Side::Second,
        focus: false,
        follow: false,
        dry_run: false,
        highlight: None,
        diff: false,
    };
    // Committed and unmodified: git reports no hunks.
    let clean = Panel::from_rendered(
        "clean.txt".to_string(),
        plain("line 1\nline 2\n".to_string()),
        None,
        DiffOutcome::Parsed(vec![]),
    );
    let id = match tab.apply(msg, area(), Some(clean)) {
        Response::Opened { pane, .. } => pane,
        other => panic!("expected Opened, got {other:?}"),
    };
    match tab.apply(Message::DiffView { pane: Some(id), on: None }, area(), None) {
        Response::Error { message } => assert!(message.contains("nothing to diff"), "clean file refusal warns"),
        other => panic!("toggling on a clean file must be refused, got {other:?}"),
    }
    assert!(!tab.panels[&id].diff_view, "refused toggle is a no-op");
}
