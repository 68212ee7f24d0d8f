//! The row cosmetics and the two panel views: fenced code boxed into a rectangle, inline code
//! capped, deletion gaps above their line, the inline diff view, and scrolling.

use laura::gitdiff::{ChangeKind, DiffOutcome};
use laura::panel::Panel;
use laura::render::plain;
use laura::rows::{box_fenced, cap_inline, line_end_row, PanelLayout, PanelRow};
use laura::style::{Color, Span, Style};

fn code_style() -> Style {
    Style { fg: Some(Color::Rgb(180, 180, 180)), bg: Some(Color::Rgb(45, 45, 45)), underline_color: None, add_modifier: 0, sub_modifier: 0 }
}

fn row(line: usize, spans: Vec<Span>) -> PanelRow {
    PanelRow { line, gutter: None, spans, comment: false, change: None, review: None, nowrap: false }
}

fn text_of(r: &PanelRow) -> String {
    r.text()
}

fn open_text(content: &str) -> Panel {
    Panel::from_rendered("f.txt".to_string(), plain(content.to_string()), None, DiffOutcome::Unavailable)
}

#[test]
fn fenced_run_is_boxed_to_its_widest_row() {
    let mut rows = vec![
        row(0, vec![Span::raw("prose".into())]),
        row(1, vec![Span::styled("ab".into(), code_style())]),
        row(2, vec![Span::styled("abcdef".into(), code_style())]),
        row(3, vec![Span::raw("after".into())]),
    ];
    box_fenced(&mut rows);
    assert_eq!(text_of(&rows[0]), "prose");
    assert_eq!(text_of(&rows[1]), " ab     ");
    assert_eq!(text_of(&rows[2]), " abcdef ");
    assert_eq!(text_of(&rows[3]), "after");
    assert_eq!(rows[1].spans[0].style, code_style(), "padding carries the code style");
}

#[test]
fn card_rows_are_not_boxed() {
    let mut card = row(0, vec![Span::styled("chip".into(), code_style())]);
    card.comment = true;
    let mut rows = vec![card];
    box_fenced(&mut rows);
    assert_eq!(text_of(&rows[0]), "chip");
}

#[test]
fn inline_code_gets_full_cell_caps() {
    let mut rows = vec![row(
        0,
        vec![Span::raw("run ".into()), Span::styled("x".into(), code_style()), Span::raw(" now".into())],
    )];
    cap_inline(&mut rows);
    assert_eq!(text_of(&rows[0]), "run █x█ now");
    assert_eq!(rows[0].spans[1].style.fg, Some(Color::Rgb(45, 45, 45)));
    assert_eq!(rows[0].spans[1].style.bg, None);
}

#[test]
fn trailing_inline_code_is_closed_and_nowrap_rows_stay() {
    let mut rows = vec![row(0, vec![Span::raw("a ".into()), Span::styled("b".into(), code_style())])];
    let mut table = row(1, vec![Span::raw("│ ".into()), Span::styled("c".into(), code_style())]);
    table.nowrap = true;
    rows.push(table);
    cap_inline(&mut rows);
    assert_eq!(text_of(&rows[0]), "a █b█");
    assert_eq!(text_of(&rows[1]), "│ c");
}

#[test]
fn deletion_gap_sits_above_its_line() {
    let mut panel = open_text("a\nb\nc");
    panel.changes = vec![None, Some(ChangeKind::Removed(2)), None];
    let layout = panel.layout(30);
    // gutter width 1, text budget 30 - 6 = 24, label runs to 26 columns.
    let gap = &layout.rows[1];
    assert!(gap.comment);
    assert_eq!(gap.line, 1);
    assert_eq!(gap.gutter, None);
    assert!(text_of(gap).starts_with("── 2 lines removed "));
    assert_eq!(text_of(gap).chars().count(), 26);
    assert_eq!(layout.starts, vec![0, 2, 3]);
    assert_eq!(layout.rows[2].gutter, Some(2));
    assert_eq!(layout.rows[2].change, Some(ChangeKind::Removed(2)));
}

#[test]
fn single_deleted_line_reads_line() {
    let mut panel = open_text("a\nb");
    panel.changes = vec![Some(ChangeKind::Removed(1)), None];
    let layout = panel.layout(40);
    assert!(text_of(&layout.rows[0]).starts_with("── 1 line removed ─"));
}

#[test]
fn row_change_prefers_modified() {
    let mut panel = open_text("a\nb");
    panel.source = vec![(0, 2), (3, 3)];
    panel.changes = vec![Some(ChangeKind::Added), Some(ChangeKind::Modified), Some(ChangeKind::Removed(1)), None];
    assert_eq!(panel.row_change(0), Some(ChangeKind::Modified));
    assert_eq!(panel.row_change(1), None);
    assert_eq!(panel.removed_in_row(0), Some(1));
    assert_eq!(panel.removed_in_row(5), None);
}

#[test]
fn diff_view_shows_deleted_text_then_marked_lines() {
    let mut panel = open_text("keep\nnew");
    panel.changes = vec![None, Some(ChangeKind::Added)];
    panel.removed = vec![(1, vec!["old".to_string()])];
    panel.diff_view = true;
    let layout = panel.layout(40);
    let texts: Vec<String> = layout.rows.iter().map(text_of).collect();
    assert_eq!(texts, vec![" keep", "-old", "+new"]);
    assert_eq!(layout.starts, vec![0, 2]);
    assert_eq!(layout.rows[1].gutter, None);
    assert_eq!(layout.rows[1].spans[0].style.fg, Some(Color::Rgb(191, 97, 106)));
    assert_eq!(layout.rows[2].gutter, Some(2));
    assert_eq!(layout.rows[2].spans[0].style.fg, Some(Color::Rgb(163, 190, 140)));
}

#[test]
fn thematic_break_stretches_across_the_budget() {
    let mut panel = open_text("x");
    panel.styled[0].spans = vec![Span::styled("─".into(), Style::fg(Color::Rgb(90, 90, 90)))];
    let layout = panel.layout(16);
    assert_eq!(text_of(&layout.rows[0]), "─".repeat(10));
}

#[test]
fn line_end_row_scans_the_lines_rows() {
    let layout = PanelLayout {
        rows: vec![row(0, vec![]), row(0, vec![]), row(1, vec![]), row(1, vec![])],
        starts: vec![0, 2],
        gutter_width: 1,
    };
    assert_eq!(line_end_row(&layout, 0), Some(1));
    assert_eq!(line_end_row(&layout, 1), Some(3));
    assert_eq!(line_end_row(&layout, 2), None);
}

#[test]
fn scroll_keeps_the_cursor_line_and_centres_a_fresh_highlight() {
    let text: Vec<String> = (0..30).map(|i| format!("l{i}")).collect();
    let mut panel = open_text(&text.join("\n"));
    let layout = panel.layout(40);
    panel.cursor = 3;
    assert_eq!(panel.scroll_offset(&layout, 10), 0);
    panel.cursor = 20;
    assert_eq!(panel.scroll_offset(&layout, 10), 11);
    panel.set_highlight(15, 16);
    let layout = panel.layout(40);
    // rows 14..=15, span 2, margin (10 - 2) / 2 = 4.
    assert_eq!(panel.scroll_offset(&layout, 10), 10);
}
