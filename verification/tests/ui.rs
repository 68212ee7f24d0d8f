//! The tab bar's window, pane-id entry, file names and drafts.

use laura::style::{Style, MOD_REVERSED};
use laura::ui::{base_name, draft_box, pane_id_ambiguous, pane_id_exact, scrollbar, tab_bar, tab_window, Draft};
use laura::Rect;

#[test]
fn pane_id_entry_resolves_1_versus_10() {
    let ids = [0u64, 1, 2, 10];
    assert!(pane_id_ambiguous(&ids, "1"));
    assert_eq!(pane_id_exact(&ids, "1"), Some(1));
    assert!(!pane_id_ambiguous(&ids, "10"));
    assert_eq!(pane_id_exact(&ids, "10"), Some(10));
    assert!(!pane_id_ambiguous(&ids, "2"));
    assert!(!pane_id_ambiguous(&ids, "0"));
    assert_eq!(pane_id_exact(&ids, "0"), Some(0));
    assert!(!pane_id_ambiguous(&ids, "7"));
    assert_eq!(pane_id_exact(&ids, "7"), None);
}

#[test]
fn window_shows_all_when_it_fits() {
    let labels = vec![" 1 ".to_string(), " 2 ".to_string(), " 3 ".to_string()];
    assert_eq!(tab_window(&labels, 0, 80), (0, 3));
}

#[test]
fn window_always_includes_active_and_fits_width() {
    let labels: Vec<String> = (1..=10).map(|i| format!(" {i} ")).collect();
    let (lo, hi) = tab_window(&labels, 9, 12);
    assert!(lo <= 9 && 9 < hi, "active tab is inside the window");
    let shown: usize = labels[lo..hi].iter().map(|s| s.chars().count()).sum();
    assert!(shown <= 12 - usize::from(lo > 0), "fits the width minus markers");
    assert!(hi == labels.len(), "the last (active) tab reaches the right edge");
}

#[test]
fn window_grows_right_then_left_around_the_active_tab() {
    let labels: Vec<String> = ["aaa", "bbb", "ccc", "ddd", "eee"].iter().map(|s| s.to_string()).collect();
    // 15 columns do not fit 10; from `ccc` the window takes `ddd` (6 of a budget of 8), then
    // neither neighbour fits.
    assert_eq!(tab_window(&labels, 2, 10), (2, 4));
    assert_eq!(tab_window(&labels, 2, 11), (2, 5));
    // An active label wider than the bar still shows alone.
    assert_eq!(tab_window(&labels, 0, 2), (0, 1));
}

#[test]
fn base_name_takes_the_last_segment() {
    assert_eq!(base_name("/a/b/c.txt"), "c.txt");
    assert_eq!(base_name("C:\\x\\y.md"), "y.md");
    assert_eq!(base_name("plain"), "plain");
    assert_eq!(base_name("dir/"), "");
}

#[test]
fn drafts_know_their_kind() {
    let mut d = Draft::Comment("a".into());
    d.body_mut().push('b');
    assert_eq!(d.body(), "ab");
    assert!(d.is_panel() && d.multiline());
    let r = Draft::Rename("t".into());
    assert!(!r.is_panel() && !r.multiline());
    assert!(Draft::Review(String::new()).is_panel());
}

#[test]
fn scrollbar_only_on_overflow_and_capped_at_three_views() {
    assert_eq!(scrollbar(10, 10, 0), None);
    assert_eq!(scrollbar(15, 10, 3), Some((5, 3)));
    // A long history: the range is capped at three views and the position scaled into it.
    assert_eq!(scrollbar(1010, 10, 0), Some((30, 0)));
    assert_eq!(scrollbar(1010, 10, 500), Some((30, 15)));
    assert_eq!(scrollbar(1010, 10, 1000), Some((30, 30)));
}

#[test]
fn draft_box_grows_then_scrolls() {
    let area = Rect::new(0, 10, 12, 20);
    let b = draft_box(area, "");
    assert_eq!(b.rows, vec![String::new()]);
    assert_eq!((b.area.y, b.area.height, b.scroll), (26, 4, 0));
    let b = draft_box(area, "one\ntwo\nthree");
    assert_eq!(b.rows, vec!["one", "two", "three"]);
    assert_eq!((b.area.y, b.area.height, b.scroll), (25, 5, 0));
    let b = draft_box(area, "a\nb\nc\nd\ne\nf\ng\nh");
    assert_eq!(b.rows.len(), 8);
    assert_eq!((b.area.y, b.area.height, b.scroll), (22, 8, 2));
    // Lines wrap to the width inside the border.
    let b = draft_box(area, "alpha beta gamma");
    assert_eq!(b.rows, vec!["alpha beta", "gamma"]);
    // A box taller than the pane is clipped to it.
    let b = draft_box(Rect::new(0, 0, 12, 3), "x");
    assert_eq!((b.area.y, b.area.height), (0, 3));
}

#[test]
fn tab_bar_marks_clipped_ends_and_reverses_the_active_tab() {
    let labels: Vec<String> = (1..=5).map(|i| format!(" {i} ")).collect();
    let all = tab_bar(&labels, 2, 80);
    let texts: Vec<&str> = all.spans.iter().map(|s| s.content.as_str()).collect();
    assert_eq!(texts, vec![" 1 ", " 2 ", " 3 ", " 4 ", " 5 "]);
    assert_eq!(all.spans[2].style, Style::modified(MOD_REVERSED));
    assert_eq!(all.spans[0].style, Style::plain());
    let clipped = tab_bar(&labels, 2, 8);
    let texts: Vec<&str> = clipped.spans.iter().map(|s| s.content.as_str()).collect();
    assert_eq!(texts, vec!["\u{2039}", " 3 ", " 4 ", "\u{203A}"]);
}
