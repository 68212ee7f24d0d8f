//! A tab's requests: open splits off a new panel, close folds it back, focus moves, panel requests
//! reach the addressed panel, and `ready` names the journal.

use laura::gitdiff::DiffOutcome;
use laura::layout::{Layout, Rect};
use laura::panel::Panel;
use laura::protocol::{Dir, Message, PaneKind, Response, Side, PTY_PANE};
use laura::render::plain;
use laura::tab::Tab;

fn panel(path: &str, content: &str) -> Panel {
    Panel::from_rendered(path.to_string(), plain(content.to_string()), None, DiffOutcome::Unavailable)
}

fn open_msg(path: &str, split: Option<u64>, dry_run: bool) -> Message {
    Message::Open {
        path: path.to_string(),
        split,
        dir: Dir::Horizontal,
        ratio: 50,
        side: Side::Second,
        focus: true,
        follow: false,
        dry_run,
        highlight: None,
        diff: false,
    }
}

fn area() -> Rect {
    Rect::new(0, 0, 100, 40)
}

fn new_tab() -> Tab {
    Tab::new("laura-7-0.sock".to_string(), "/data".to_string())
}

#[test]
fn open_mints_ids_and_warns_until_ready() {
    let mut tab = new_tab();
    let r = tab.apply(open_msg("a.txt", None, false), area(), Some(panel("a.txt", "x")));
    match r {
        Response::Opened { pane, warnings } => {
            assert_eq!(pane, 1);
            assert_eq!(warnings, vec!["panel shown, but run `laura ready` to enable review submission".to_string()]);
        }
        _ => panic!("expected Opened"),
    }
    assert_eq!(tab.layout.order(), vec![0, 1]);
    assert_eq!(tab.pending_focus, Some(1));
    assert_eq!(tab.next_pane, 2);
    let r = tab.apply(Message::Ready { session: None, agent: None }, area(), None);
    assert!(matches!(r, Response::Ready { .. }));
    match tab.apply(open_msg("b.txt", Some(1), false), area(), Some(panel("b.txt", "y"))) {
        Response::Opened { pane, warnings } => {
            assert_eq!(pane, 2);
            assert!(warnings.is_empty());
        }
        _ => panic!("expected Opened"),
    }
    assert_eq!(tab.layout.order(), vec![0, 1, 2]);
}

#[test]
fn open_on_unknown_pane_is_refused() {
    let mut tab = new_tab();
    let r = tab.apply(open_msg("a.txt", Some(9), false), area(), Some(panel("a.txt", "x")));
    assert!(matches!(r, Response::Error { ref message } if message == "no pane #9"));
    assert_eq!(tab.layout.order(), vec![0]);
    assert_eq!(tab.next_pane, 1);
}

#[test]
fn dry_run_reports_without_changing_the_tab() {
    let mut tab = new_tab();
    let r = tab.apply(open_msg("a.txt", None, true), area(), Some(panel("a.txt", "one\ntwo")));
    match r {
        Response::Report(rep) => {
            assert_eq!(rep.panes.len(), 2);
            assert_eq!(rep.panes[0].id, 0);
            assert_eq!(rep.panes[0].kind, PaneKind::Pty);
            assert_eq!(rep.panes[1].id, 1);
            assert_eq!(rep.panes[1].path.as_deref(), Some("a.txt"));
            assert_eq!(rep.panes[1].content_rows, Some(2));
            assert_eq!(rep.panes[1].rect.width, 50);
            assert_eq!(rep.panes[1].visible_rows, 38);
            assert!(!rep.panes[1].clipped);
        }
        _ => panic!("expected a report"),
    }
    assert_eq!(tab.layout.order(), vec![0]);
    assert_eq!(tab.next_pane, 1);
}

#[test]
fn close_folds_back_and_returns_focus_to_the_shell() {
    let mut tab = new_tab();
    tab.apply(open_msg("a.txt", None, false), area(), Some(panel("a.txt", "x")));
    assert!(matches!(tab.apply(Message::Focus { pane: 1 }, area(), None), Response::Done));
    assert_eq!(tab.focus, 1);
    assert!(matches!(tab.apply(Message::Close { pane: None, all: false }, area(), None), Response::Done));
    assert_eq!(tab.layout, Layout::Pane(PTY_PANE));
    assert_eq!(tab.focus, PTY_PANE);
    assert_eq!(tab.panels.len(), 0);
    let r = tab.apply(Message::Close { pane: None, all: false }, area(), None);
    assert!(matches!(r, Response::Error { ref message } if message == "no panel focused to close"));
    let r = tab.apply(Message::Close { pane: Some(0), all: false }, area(), None);
    assert!(matches!(r, Response::Error { ref message } if message == "the shell pane can't be closed"));
}

#[test]
fn close_all_returns_to_the_bare_shell() {
    let mut tab = new_tab();
    tab.apply(open_msg("a.txt", None, false), area(), Some(panel("a.txt", "x")));
    tab.apply(open_msg("b.txt", None, false), area(), Some(panel("b.txt", "y")));
    assert!(matches!(tab.apply(Message::Close { pane: None, all: true }, area(), None), Response::Done));
    assert_eq!(tab.layout.order(), vec![0]);
    assert_eq!(tab.panels.len(), 0);
}

#[test]
fn focus_on_unknown_pane_is_refused() {
    let mut tab = new_tab();
    let r = tab.apply(Message::Focus { pane: 4 }, area(), None);
    assert!(matches!(r, Response::Error { ref message } if message == "no pane #4"));
    assert_eq!(tab.focus, PTY_PANE);
}

#[test]
fn panel_requests_reach_the_addressed_panel() {
    let mut tab = new_tab();
    tab.apply(open_msg("a.txt", None, false), area(), Some(panel("a.txt", "l1\nl2\nl3")));
    let r = tab.apply(Message::Highlight { pane: None, start: 2, end: None }, area(), None);
    assert!(matches!(r, Response::Error { ref message } if message == "no panel focused"));
    let r = tab.apply(Message::Highlight { pane: Some(1), start: 2, end: Some(3) }, area(), None);
    assert!(matches!(r, Response::Done));
    assert_eq!(tab.panels[&1].highlight, Some((1, 2)));
    let r = tab.apply(Message::DiffView { pane: Some(1), on: Some(true) }, area(), None);
    assert!(matches!(r, Response::Error { ref message } if message == "no changes vs HEAD — nothing to diff"));
    let r = tab.apply(
        Message::Comment { pane: Some(1), line: 2, body: Some("look".into()), author: None },
        area(),
        None,
    );
    assert!(matches!(r, Response::Done));
    assert_eq!(tab.panels[&1].threads.len(), 1);
    let r = tab.apply(Message::Comment { pane: Some(1), line: 2, body: None, author: None }, area(), None);
    assert!(matches!(r, Response::Error { ref message } if message == "comment needs a body"));
}

#[test]
fn comment_author_defaults_to_the_ready_agent() {
    let mut tab = new_tab();
    tab.apply(open_msg("a.txt", None, false), area(), Some(panel("a.txt", "l1\nl2")));
    tab.apply(Message::Ready { session: Some("s".into()), agent: Some("riley".into()) }, area(), None);
    tab.apply(Message::Comment { pane: Some(1), line: 1, body: Some("hi".into()), author: None }, area(), None);
    assert!(tab.panels[&1].assemble_review("").contains("[riley] hi"));
}

#[test]
fn ready_names_the_session_journal() {
    let mut tab = new_tab();
    match tab.apply(Message::Ready { session: None, agent: None }, area(), None) {
        Response::Ready { journal } => assert_eq!(journal, "/data/laura/sessions/laura-7-0.ndjson"),
        _ => panic!("expected Ready"),
    }
    assert!(tab.agent);
    match tab.apply(Message::Ready { session: Some("audit test".into()), agent: None }, area(), None) {
        Response::Ready { journal } => assert_eq!(journal, "/data/laura/sessions/audit_test.ndjson"),
        _ => panic!("expected Ready"),
    }
}

#[test]
fn layout_report_orders_panes_by_id() {
    let mut tab = new_tab();
    tab.apply(open_msg("a.txt", None, false), area(), Some(panel("a.txt", "x")));
    let mut first = open_msg("b.txt", Some(0), false);
    if let Message::Open { side, .. } = &mut first {
        *side = Side::First;
    }
    tab.apply(first, area(), Some(panel("b.txt", "y")));
    assert_eq!(tab.layout.order(), vec![2, 0, 1]);
    match tab.apply(Message::Layout, area(), None) {
        Response::Report(rep) => {
            let ids: Vec<u64> = rep.panes.iter().map(|p| p.id).collect();
            assert_eq!(ids, vec![0, 1, 2]);
        }
        _ => panic!("expected a report"),
    }
}

#[test]
fn closing_a_fresh_panel_restores_the_tab() {
    let mut tab = new_tab();
    tab.apply(open_msg("a.txt", None, false), area(), Some(panel("a.txt", "x")));
    let before = tab.layout.clone();
    tab.apply(open_msg("b.txt", Some(1), false), area(), Some(panel("b.txt", "y")));
    tab.apply(Message::Close { pane: Some(2), all: false }, area(), None);
    assert_eq!(tab.layout, before);
    assert_eq!(tab.panels.len(), 1);
}

#[test]
fn small_rect_clips_a_long_panel_large_rect_fits() {
    let mut content = String::new();
    for i in 1..=100 {
        content.push_str(&format!("line {i}\n"));
    }
    let mut tab = new_tab();
    tab.layout.split(PTY_PANE, Dir::Horizontal, 50, Side::Second, 1).unwrap();
    tab.panels.insert(1, panel("long.txt", &content));
    tab.next_pane = 2;

    let small = tab.report(Rect::new(0, 0, 80, 12));
    let p = small.panes.iter().find(|p| p.id == 1).unwrap();
    assert!(p.overflow_rows > 0, "long content overflows a short rect");
    assert!(p.clipped);

    let big = tab.report(Rect::new(0, 0, 80, 300));
    let p = big.panes.iter().find(|p| p.id == 1).unwrap();
    assert_eq!(p.overflow_rows, 0, "tall rect fits the content");
    assert!(!p.clipped);
}

#[test]
fn settle_focus_takes_a_pending_focus_or_falls_back_to_the_shell() {
    let mut tab = new_tab();
    let id = match tab.apply(open_msg("a.txt", None, false), area(), Some(panel("a.txt", "x\n"))) {
        Response::Opened { pane, .. } => pane,
        other => panic!("expected Opened, got {other:?}"),
    };
    assert_eq!(tab.pending_focus, Some(id));
    tab.settle_focus();
    assert_eq!(tab.focus, id);
    assert_eq!(tab.pending_focus, None);
    tab.pending_focus = Some(99);
    tab.settle_focus();
    assert_eq!(tab.focus, PTY_PANE);
    tab.settle_focus();
    assert_eq!(tab.focus, PTY_PANE);
}
