//! The diff gutter's parser and folds, on canned `git diff --unified=0` output.

use laura::gitdiff::{line_changes, outcome, parse, removed_lines, ChangeKind, DiffOutcome, GitRun, Hunk};
use laura::panel::Panel;
use laura::render::plain;

#[test]
fn parses_and_folds_a_mixed_diff() {
    // A 5-line file: line 2 modified, a line added after 3, line 5 deleted.
    let diff = "\
diff --git a/f.rs b/f.rs
index 111..222 100644
--- a/f.rs
+++ b/f.rs
@@ -2,1 +2,1 @@
-old two
+new two
@@ -3,0 +4,1 @@
+added line
@@ -6,1 +6,0 @@
-gone
";
    let hunks = parse(diff);
    assert_eq!(
        hunks,
        vec![
            Hunk {
                new_start: 2,
                removed: vec!["old two".into()],
                added: vec!["new two".into()],
            },
            Hunk {
                new_start: 4,
                removed: vec![],
                added: vec!["added line".into()],
            },
            Hunk {
                new_start: 6,
                removed: vec!["gone".into()],
                added: vec![],
            },
        ]
    );

    // New file has 6 lines (5 - 1 deleted + 1 added = ... conceptually).
    let changes = line_changes(&hunks, 6);
    assert_eq!(changes[1], Some(ChangeKind::Modified)); // line 2
    assert_eq!(changes[3], Some(ChangeKind::Added)); // line 4
    assert_eq!(changes[5], Some(ChangeKind::Removed(1))); // gap above line 6
    assert_eq!(changes[0], None);
    assert_eq!(changes[2], None);
    assert_eq!(changes[4], None);
}

#[test]
fn removed_lines_key_to_the_line_below_the_gap() {
    let hunks = parse("@@ -2 +2 @@\n-old\n+new\n@@ -9,2 +7,0 @@\n-x\n-y\n@@ -1 +1,2 @@\n+a\n+b\n");
    let removed = removed_lines(&hunks, 5);
    assert_eq!(
        removed,
        vec![(1, vec!["old".to_string()]), (5, vec!["x".to_string(), "y".to_string()])]
    );
}

#[test]
fn eof_deletion_clamps_onto_the_last_line_and_empty_files_have_no_markers() {
    let hunks = parse("@@ -4,1 +3,0 @@\n-tail\n");
    assert_eq!(line_changes(&hunks, 2), vec![None, Some(ChangeKind::Removed(1))]);
    assert_eq!(line_changes(&hunks, 0), vec![]);
}

#[test]
fn headers_without_a_new_start_open_no_hunk() {
    assert_eq!(parse("@@ -1 +x @@\n+a\n"), vec![]);
    assert_eq!(parse("+stray before any header\r\n@@ -0,0 +0 @@\r\n+first\r\n"),
        vec![Hunk { new_start: 0, removed: vec![], added: vec!["first".into()] }]);
    assert_eq!(parse("@@ -1 ++12,3 @@ fn x\n"), vec![Hunk { new_start: 12, removed: vec![], added: vec![] }]);
}

#[test]
fn git_outcomes_classify() {
    match outcome(GitRun::Exited { success: true, stdout: "@@ -1 +1 @@\n-a\n+b\n".into() }) {
        DiffOutcome::Parsed(h) => assert_eq!(h.len(), 1),
        _ => panic!("expected parsed hunks"),
    }
    assert!(matches!(outcome(GitRun::Exited { success: false, stdout: String::new() }), DiffOutcome::Unavailable));
    assert!(matches!(outcome(GitRun::NotFound), DiffOutcome::NoGit));
    assert!(matches!(outcome(GitRun::Failed), DiffOutcome::Unavailable));
}

#[test]
fn untracked_file_has_no_markers() {
    // An untracked file: git has nothing to say about it, so the panel shows no markers.
    let panel = Panel::from_rendered("new.txt".to_string(), plain("brand new\n".to_string()), None, DiffOutcome::Unavailable);
    assert!(panel.changes.is_empty(), "untracked file, no markers");
}
