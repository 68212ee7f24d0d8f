//! An omitted comment author defaults to the session's `ready` agent name; an explicit author
//! overrides it. Bodyless and out-of-range comments are refused and place no thread.

use laura::gitdiff::DiffOutcome;
use laura::layout::Rect;
use laura::panel::{Author, Panel};
use laura::protocol::{Dir, Message, Response, Side};
use laura::render::plain;
use laura::tab::Tab;

fn area() -> Rect {
    Rect::new(0, 0, 120, 40)
}

fn tab_with_file() -> Tab {
    let mut tab = Tab::new("laura-12-0.sock".to_string(), "/data".to_string());
    let p = Panel::from_rendered("notes.txt".to_string(), plain("line one\nline two\n".to_string()), None, DiffOutcome::Unavailable);
    let msg = Message::Open {
        path: "notes.txt".to_string(),
        split: None,
        dir: Dir::Horizontal,
        ratio: 50,
        side: Side::Second,
        focus: true,
        follow: false,
        dry_run: false,
        highlight: None,
        diff: false,
    };
    match tab.apply(msg, area(), Some(p)) {
        Response::Opened { pane, .. } => assert_eq!(pane, 1),
        other => panic!("expected Opened, got {other:?}"),
    }
    tab
}

fn comment(tab: &mut Tab, line: u32, body: &str, author: Option<&str>) -> Response {
    tab.apply(
        Message::Comment { pane: Some(1), line, body: Some(body.to_string()), author: author.map(|a| a.to_string()) },
        area(),
        None,
    )
}

#[test]
fn comment_author_defaults_to_session_agent() {
    let mut tab = tab_with_file();
    let r = tab.apply(
        Message::Ready { session: Some("author-test".to_string()), agent: Some("coder".to_string()) },
        area(),
        None,
    );
    assert!(matches!(r, Response::Ready { .. }));
    assert_eq!(comment(&mut tab, 1, "inherited", None), Response::Done);
    assert_eq!(comment(&mut tab, 2, "explicit", Some("sub-agent")), Response::Done);

    let panel = tab.panels.get(&1).expect("pane 1 opened");
    let author_of = |body: &str| {
        panel
            .threads
            .iter()
            .find(|t| t.root.body == body)
            .unwrap_or_else(|| panic!("no thread with note {body:?}"))
            .root
            .author
            .clone()
    };
    assert_eq!(author_of("inherited"), Author::Agent("coder".into()), "omitted author should inherit the session agent");
    assert_eq!(author_of("explicit"), Author::Agent("sub-agent".into()), "explicit author should override the session agent");
}

#[test]
fn bodyless_comment_errors_and_places_no_thread() {
    let mut tab = tab_with_file();
    let resp = comment(&mut tab, 1, "   ", None);
    assert!(matches!(resp, Response::Error { .. }), "bodyless comment must return an error, got {resp:?}");
    assert_eq!(tab.panels.get(&1).expect("pane 1").thread_count(), 0, "a rejected comment places no thread");
}

#[test]
fn comment_past_eof_exits_nonzero_and_places_no_thread() {
    let mut tab = tab_with_file();
    let resp = comment(&mut tab, 999, "x", None);
    assert!(matches!(resp, Response::Error { .. }), "out-of-range comment should be refused");
    assert_eq!(tab.panels.get(&1).expect("pane 1 opened").thread_count(), 0, "out-of-range comment must place no thread");
}
