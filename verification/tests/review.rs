//! Review injection is wrapped in bracketed paste.

use laura::bracketed_paste;
use laura::gitdiff::DiffOutcome;
use laura::panel::Panel;
use laura::render::plain;

#[test]
fn bracketed_paste_keeps_newlines_inside_the_markers() {
    let text = "line a\nline b\nline c";
    let wrapped = bracketed_paste(text, true);
    let s = String::from_utf8(wrapped).unwrap();

    assert!(s.starts_with("\x1b[200~"), "must open with paste-start marker");
    assert!(s.ends_with("\x1b[201~\r"), "trailing \\r must sit outside the close marker");

    // Every embedded newline lands between the open and close markers — no early submit.
    let open = s.find("\x1b[200~").unwrap();
    let close = s.find("\x1b[201~").unwrap();
    for (i, b) in s.bytes().enumerate() {
        if b == b'\n' {
            assert!(i > open && i < close, "newline at {i} escaped the paste markers");
        }
    }
}

#[test]
fn keyboard_paste_wraps_without_submitting() {
    // Keyboard paste (submit=false) keeps an interior newline inside the markers and adds no trailing CR.
    assert_eq!(bracketed_paste("a\nb", false), b"\x1b[200~a\nb\x1b[201~");
    // The review path (submit=true) still submits once.
    assert!(bracketed_paste("a", true).ends_with(b"\r"));
}

fn panel_with_comments() -> Panel {
    let mut panel = Panel::from_rendered(
        "notes.txt".to_string(),
        plain("line 0\nline 1\nline 2\nline 3".to_string()),
        None,
        DiffOutcome::Unavailable,
    );
    panel.move_cursor(2);
    panel.author_note("tighten this".into());
    panel.agent_note(3, Some("and this".into()), Some("agent".into())).unwrap();
    panel.move_cursor(-2);
    panel.author_note("first line note".into());
    panel.move_cursor(1);
    panel.author_note("done already".into());
    panel
}

#[test]
fn assemble_review_locks_the_format() {
    let panel = panel_with_comments();
    let expected = format!(
        "[laura review · {}]\n\
         \n\
         overall body\n\
         \n\
         L1  line 0\n\
         \x20     > [user] first line note\n\
         \n\
         L2  line 1\n\
         \x20     > [user] done already\n\
         \n\
         L3  line 2\n\
         \x20     > [user] tighten this\n\
         \x20     > [agent] and this\n",
        panel.path
    );
    assert_eq!(panel.assemble_review("overall body"), expected);
    assert_eq!(panel.assemble_review("overall body"), expected);
}

#[test]
fn empty_overall_omits_the_overall_line() {
    let panel = panel_with_comments();
    let review = panel.assemble_review("");
    assert!(review.starts_with(&format!("[laura review · {}]\n\nL1  line 0\n", panel.path)));
    assert!(!review.contains("overall"));
}

#[test]
fn an_embedded_end_marker_cannot_close_the_paste_early() {
    let wrapped = bracketed_paste("a\x1b[201~\nb", false);
    assert_eq!(wrapped, "\x1b[200~a\u{241b}[201~\nb\x1b[201~".as_bytes());
    let end = b"\x1b[201~";
    let first_end = wrapped.windows(end.len()).position(|w| w == end).unwrap();
    assert_eq!(first_end, wrapped.len() - end.len(), "the only end marker is the closing one");
    assert!(!wrapped[first_end..].contains(&b'\n'), "no newline after the end marker");
}
