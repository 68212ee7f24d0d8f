//! Panel layout keeps line numbers factual: the gutter a user reads equals the review's `L<n>`,
//! cards sit with their line, wrapping never overflows, and the review lifecycle holds its notes.

use laura::gitdiff::DiffOutcome;
use laura::panel::{FileSig, Panel};
use laura::render::plain;

fn open_text(content: &str) -> Panel {
    Panel::from_rendered("notes.txt".to_string(), plain(content.to_string()), None, DiffOutcome::Unavailable)
}

fn sig(secs: u64, len: u64) -> FileSig {
    FileSig { after_epoch: true, secs, nanos: 0, len }
}

/// The front-end's reload step: re-read only when the signature moved and no notes pin the pane.
fn reload(panel: &mut Panel, s: FileSig, content: &str) -> bool {
    if panel.reload_needed(Some(s)) {
        panel.apply_reload(Some(s), plain(content.to_string()), DiffOutcome::Unavailable);
        true
    } else {
        false
    }
}

#[test]
fn layout_gutter_matches_line_numbers_and_review() {
    let mut panel = open_text("line 0\nline 1\nline 2");
    panel.move_cursor(1);
    panel.author_note("note".into());

    let layout = panel.layout(40);

    let mut expected_line = 0;
    for row in &layout.rows {
        if let Some(n) = row.gutter {
            assert_eq!(n, expected_line + 1, "gutter must be 1-based line number");
            expected_line += 1;
        }
    }
    assert_eq!(expected_line, 3, "one gutter number per source line");
    assert!(panel.assemble_review("").contains("L2  line 1"));

    for (i, &start) in layout.starts.iter().enumerate() {
        assert_eq!(layout.rows[start].gutter, Some(i + 1));
    }

    let card: Vec<_> = layout.rows.iter().filter(|r| r.comment).collect();
    assert!(!card.is_empty(), "expected comment card rows");
    assert!(card.iter().all(|r| r.line == 1), "card rows tag their line");
    assert!(card.iter().any(|r| r.text().contains("note")), "a card row holds the note body");
}

#[test]
fn card_labels_human_as_you_and_titlecases_unnamed_agent() {
    let mut panel = open_text("line 0\nline 1\nline 2");
    panel.move_cursor(1);
    panel.author_note("hi".into());
    panel.agent_note(1, Some("bot".into()), None).unwrap();
    panel.agent_note(3, Some("named".into()), Some("riley".into())).unwrap();

    let card = panel
        .layout(40)
        .rows
        .into_iter()
        .filter(|r| r.comment)
        .map(|r| r.text())
        .collect::<Vec<_>>()
        .join("\n");

    assert!(card.contains("You · hi"), "human labelled 'You': {card}");
    assert!(card.contains("Agent · bot"), "unnamed agent title-cased to 'Agent': {card}");
    assert!(card.contains("riley · named"), "named agent rendered verbatim: {card}");
}

#[test]
fn layout_carets_and_collapses_threads() {
    let mut panel = open_text("line 0\nline 1\nline 2");
    panel.move_cursor(1);
    panel.author_note("note".into());

    let layout = panel.layout(40);
    let body = layout.rows.iter().find(|r| r.gutter == Some(2)).expect("body row for line 1");
    assert_eq!(body.review, Some(false), "expanded");
    assert!(layout.rows.iter().any(|r| r.comment), "card is drawn");

    panel.toggle_collapsed(1);
    let layout = panel.layout(40);
    let body = layout.rows.iter().find(|r| r.gutter == Some(2)).expect("body row for line 1");
    assert_eq!(body.review, Some(true), "collapsed");
    assert!(!layout.rows.iter().any(|r| r.comment), "collapsed thread draws no card");
}

#[test]
fn thread_split_and_jump_track_the_cursor() {
    let mut panel = open_text("l0\nl1\nl2\nl3\nl4\nl5");
    panel.cursor = 1;
    panel.author_note("a".into());
    panel.cursor = 4;
    panel.author_note("b".into());

    panel.cursor = 0;
    assert_eq!(panel.thread_split(), (0, 2), "both threads below line 0");
    panel.cursor = 1;
    assert_eq!(panel.thread_split(), (1, 1), "on the first thread");
    panel.cursor = 5;
    assert_eq!(panel.thread_split(), (2, 0), "both at/above the last line");

    panel.cursor = 2;
    assert_eq!(panel.thread_jump(true), Some(4), "next thread forward");
    assert_eq!(panel.thread_jump(false), Some(1), "previous thread back");
    panel.cursor = 4;
    assert_eq!(panel.thread_jump(true), Some(1), "next past the last wraps to first");
    panel.cursor = 1;
    assert_eq!(panel.thread_jump(false), Some(4), "prev before the first wraps to last");
}

#[test]
fn layout_wraps_long_lines_within_width() {
    let panel = open_text("word ".repeat(40).trim());

    let inner_w = 20usize;
    let layout = panel.layout(inner_w);

    assert_eq!(layout.rows[0].gutter, Some(1));
    assert!(layout.rows.len() > 1, "long line should wrap to multiple rows");
    assert!(layout.rows[1..].iter().all(|r| r.gutter.is_none()));

    let budget = inner_w - (layout.gutter_width + 5);
    for r in &layout.rows {
        assert!(r.text().chars().count() <= budget, "row overflows: {:?}", r.text());
    }
}

#[test]
fn agent_comment_past_eof_is_dropped_not_misplaced() {
    let mut panel = open_text("l0\nl1\nl2");
    let err = panel.agent_note(99, Some("done".into()), Some("agent".into()));
    assert!(err.is_err(), "out-of-range comment must error, not clamp");
    assert_eq!(panel.thread_count(), 0, "out-of-range comment must not fork a stray thread");
}

#[test]
fn a_changed_file_freezes_the_pane_until_submit_or_refresh() {
    let mut panel = open_text("l0\nl1\nl2");
    assert!(reload(&mut panel, sig(1, 8), "l0\nl1\nl2"));
    panel.cursor = 1;
    panel.author_note("please fix".into());

    assert!(!reload(&mut panel, sig(2, 16), "l0\nCHANGED\nl2\nl3"), "frozen: no reload while notes open");
    assert!(panel.source_changed, "the freeze is flagged");
    assert!(
        !panel.layout(80).rows.iter().any(|r| r.text().contains("CHANGED")),
        "pane still shows the reviewed snapshot, not disk"
    );
    let mut review = String::new();
    panel
        .submit_review("", |r| {
            review = r.to_string();
            Ok::<(), String>(())
        })
        .unwrap();
    assert!(review.contains("please fix"), "note ships");
    assert!(review.contains("⚠ file changed"), "banner warns of the mismatch: {review}");
    assert_eq!(panel.thread_count(), 0, "submit clears the threads");

    assert!(reload(&mut panel, sig(2, 16), "l0\nCHANGED\nl2\nl3"), "catches up once notes clear");
    assert!(!panel.source_changed, "flag clears after catch-up");
    assert!(panel.layout(80).rows.iter().any(|r| r.text().contains("CHANGED")), "pane now reflects disk");
}

#[test]
fn ctrl_r_discards_pending_notes_and_refreshes_to_disk() {
    let mut panel = open_text("l0\nl1\nl2");
    assert!(reload(&mut panel, sig(1, 8), "l0\nl1\nl2"));
    panel.cursor = 1;
    panel.author_note("please fix".into());
    assert!(!reload(&mut panel, sig(2, 16), "l0\nCHANGED\nl2\nl3"), "frozen while notes open");

    panel.discard_notes();
    reload(&mut panel, sig(2, 16), "l0\nCHANGED\nl2\nl3");
    assert_eq!(panel.thread_count(), 0, "refresh discards the notes");
    assert!(!panel.source_changed, "flag cleared on refresh");
    assert!(panel.layout(80).rows.iter().any(|r| r.text().contains("CHANGED")), "pane refreshed to disk");
}

#[test]
fn submit_clears_the_threads_and_a_clean_submit_has_no_banner() {
    let mut panel = open_text("l0\nl1\nl2");
    panel.cursor = 1;
    panel.author_note("please fix".into());
    let mut review = String::new();
    panel
        .submit_review("overall", |r| {
            review = r.to_string();
            Ok::<(), String>(())
        })
        .unwrap();
    assert!(review.contains("please fix"), "the note ships in the review");
    assert!(!review.contains("⚠ file changed"), "clean submit carries no banner");
    assert_eq!(panel.thread_count(), 0, "the panel clears on submit");
}

#[test]
fn a_failed_send_keeps_the_threads_for_a_retry() {
    let mut panel = open_text("l0\nl1\nl2");
    panel.cursor = 1;
    panel.author_note("please fix".into());
    let failed = panel.submit_review("", |_| Err(std::io::Error::other("boom")));
    assert!(failed.is_err(), "the send error surfaces");
    assert_eq!(panel.thread_count(), 1, "a failed send keeps the note");

    let mut review = String::new();
    panel
        .submit_review("", |r| {
            review = r.to_string();
            Ok::<(), String>(())
        })
        .unwrap();
    assert!(review.contains("please fix"), "the retry ships the note");
    assert_eq!(panel.thread_count(), 0, "a sent review clears the note");
}

#[test]
fn empty_author_note_creates_no_thread() {
    let mut panel = open_text("l0\nl1");
    panel.begin_comment();
    panel.author_note(String::new());
    panel.author_note("   ".into());
    assert_eq!(panel.thread_count(), 0, "empty comment pushes no thread");
}

#[test]
fn clearing_your_comment_deletes_it() {
    let mut panel = open_text("l0\nl1\nl2");
    assert!(reload(&mut panel, sig(1, 8), "l0\nl1\nl2"));

    panel.author_note("mine".into());
    assert_eq!(panel.begin_comment(), "mine");
    panel.author_note(String::new());
    assert_eq!(panel.thread_count(), 0, "cleared root drops the thread");

    panel.cursor = 1;
    panel.agent_note(2, Some("q".into()), None).unwrap();
    panel.author_note("a".into());
    assert_eq!(panel.begin_comment(), "a");
    panel.author_note("  ".into());
    assert_eq!(panel.thread_count(), 1, "the agent's thread stays");
    assert!(panel.threads[0].replies.is_empty(), "your reply is gone");
    assert_eq!(panel.threads[0].root.body, "q");

    panel.cursor = 2;
    panel.author_note("keep".into());
    assert_eq!(panel.begin_comment(), "keep");
    assert_eq!(panel.begin_comment(), "keep", "no commit, no change");
    panel.author_note(String::new());
    assert_eq!(panel.thread_count(), 1);

    panel.cursor = 1;
    panel.discard_notes();
    reload(&mut panel, sig(1, 8), "l0\nl1\nl2");
    panel.author_note("only".into());
    assert!(!reload(&mut panel, sig(2, 16), "l0\nCHANGED\nl2\nl3"), "frozen while the comment is open");
    assert!(panel.source_changed);
    panel.begin_comment();
    panel.author_note(String::new());
    assert!(reload(&mut panel, sig(2, 16), "l0\nCHANGED\nl2\nl3"), "no comments left, so it reloads");
    assert!(!panel.source_changed, "the freeze is over");
    assert!(panel.layout(80).rows.iter().any(|r| r.text().contains("CHANGED")), "pane shows the new content");
}

#[test]
fn start_row_carries_first_source_line_and_caret() {
    let mut panel = open_text("a\nb\nc\nd");
    panel.cursor = 2;
    panel.author_note("x".into());
    let layout = panel.layout(30);
    for (i, &s) in layout.starts.iter().enumerate() {
        let row = &layout.rows[s];
        assert_eq!(row.line, i);
        assert_eq!(row.gutter, Some(i + 1));
        assert!(!row.comment);
        assert_eq!(row.review, if i == 2 { Some(false) } else { None });
    }
}
