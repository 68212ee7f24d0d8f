//! Markdown panels number their rows by the source file's lines: collapsed blocks carry their
//! source range, verbatim blocks map line by line, list items and table rows get their own
//! threads. Markdown is styled by `tui-markdown` slice by slice, as the front-end does.

use laura::code::render_code;
use laura::gitdiff::DiffOutcome;
use laura::layout::Rect;
use laura::markdown::{markdown_slices, render_markdown, render_markdown_raw};
use laura::panel::Panel;
use laura::protocol::{Dir, Message, Response, Side};
use laura::render::Rendered;
use laura::rows::PanelRow;
use laura::style::{Color as LColor, Span as LSpan, Style as LStyle, StyledLine};
use laura::tab::Tab;
use ratatui::style::{Color, Modifier, Style};
use tui_markdown::AlertKind;

#[derive(Clone)]
struct Sheet;

impl tui_markdown::StyleSheet for Sheet {
    fn heading(&self, level: u8) -> Style {
        let ramp = [Color::Rgb(96, 130, 246), Color::Rgb(82, 111, 209), Color::Rgb(69, 94, 177), Color::Rgb(60, 81, 153)];
        Style::default().fg(ramp[(level as usize).saturating_sub(1).min(3)]).add_modifier(Modifier::BOLD)
    }
    fn code(&self) -> Style {
        Style::default().fg(Color::Rgb(180, 180, 180)).bg(Color::Rgb(45, 45, 45))
    }
    fn link(&self) -> Style {
        Style::default().fg(Color::Rgb(120, 180, 240))
    }
    fn blockquote(&self) -> Style {
        Style::default().fg(Color::Rgb(150, 150, 150)).add_modifier(Modifier::ITALIC)
    }
    fn alert(&self, kind: AlertKind) -> Style {
        let c = match kind {
            AlertKind::Note => Color::Rgb(120, 150, 190),
            AlertKind::Tip => Color::Rgb(120, 180, 140),
            AlertKind::Important => Color::Rgb(160, 140, 190),
            AlertKind::Warning => Color::Rgb(200, 180, 120),
            AlertKind::Caution => Color::Rgb(200, 130, 120),
        };
        Style::default().fg(c)
    }
    fn table_header(&self) -> Style {
        Style::default().add_modifier(Modifier::BOLD)
    }
    fn code_block_fence(&self) -> &str {
        ""
    }
}

fn color(c: Color) -> LColor {
    match c {
        Color::Reset => LColor::Reset,
        Color::Black => LColor::Black,
        Color::Red => LColor::Red,
        Color::Green => LColor::Green,
        Color::Yellow => LColor::Yellow,
        Color::Blue => LColor::Blue,
        Color::Magenta => LColor::Magenta,
        Color::Cyan => LColor::Cyan,
        Color::Gray => LColor::Gray,
        Color::DarkGray => LColor::DarkGray,
        Color::LightRed => LColor::LightRed,
        Color::LightGreen => LColor::LightGreen,
        Color::LightYellow => LColor::LightYellow,
        Color::LightBlue => LColor::LightBlue,
        Color::LightMagenta => LColor::LightMagenta,
        Color::LightCyan => LColor::LightCyan,
        Color::White => LColor::White,
        Color::Rgb(r, g, b) => LColor::Rgb(r, g, b),
        Color::Indexed(i) => LColor::Indexed(i),
    }
}

fn style(s: Style) -> LStyle {
    LStyle {
        fg: s.fg.map(color),
        bg: s.bg.map(color),
        underline_color: None,
        add_modifier: s.add_modifier.bits(),
        sub_modifier: s.sub_modifier.bits(),
    }
}

fn owned_line(line: &ratatui::text::Line) -> StyledLine {
    StyledLine {
        spans: line.spans.iter().map(|s| LSpan::styled(s.content.to_string(), style(line.style.patch(s.style)))).collect(),
    }
}

/// Markdown rendered as the front-end renders it.
fn render_md(md: &str) -> Rendered {
    match markdown_slices(md) {
        Some(slices) => {
            let opts = tui_markdown::Options::new(Sheet);
            let rendered: Vec<Vec<StyledLine>> = slices
                .iter()
                .map(|s| tui_markdown::from_str_with_options(s, &opts).lines.iter().map(owned_line).collect())
                .collect();
            render_markdown(md, &rendered)
        }
        None => render_markdown_raw(md),
    }
}

/// A panel on the markdown `doc`.
fn open_md(doc: &str) -> Panel {
    Panel::from_rendered("doc.md".to_string(), render_md(doc), None, DiffOutcome::Unavailable)
}

fn area() -> Rect {
    Rect::new(0, 0, 120, 40)
}

/// A tab with `panel` opened in pane 1, unfocused.
fn tab_with(panel: Panel) -> (Tab, u64) {
    let mut tab = Tab::new("laura-1-0.sock".to_string(), "/data".to_string());
    let open = Message::Open {
        path: panel.path.clone(),
        split: None,
        dir: Dir::Horizontal,
        ratio: 50,
        side: Side::Second,
        focus: false,
        follow: false,
        dry_run: false,
        highlight: None,
        diff: false,
    };
    match tab.apply(open, area(), Some(panel)) {
        Response::Opened { pane, .. } => (tab, pane),
        other => panic!("expected Opened, got {other:?}"),
    }
}

fn highlight(tab: &mut Tab, id: u64, start: u32, end: Option<u32>) {
    let r = tab.apply(Message::Highlight { pane: Some(id), start, end }, area(), None);
    assert_eq!(r, Response::Done);
}

const DOC: &str = "# Title\n\npara line one\npara line two\n\n## Next\n";

#[test]
fn highlight_maps_source_line_into_the_collapsed_paragraph_row() {
    let (mut tab, id) = tab_with(open_md(DOC));
    let para_line = {
        let layout = tab.panels[&id].layout(80);
        let para = layout.rows.iter().find(|r| r.text().contains("para line one")).expect("paragraph row");
        assert!(para.text().contains("para line two"), "hand-wrapped paragraph collapses to one row: {:?}", para.text());
        assert_eq!(para.gutter, Some(3), "gutter shows the paragraph's source line");
        para.line
    };
    highlight(&mut tab, id, 4, None);
    assert_eq!(tab.panels[&id].highlight, Some((para_line, para_line)));
    highlight(&mut tab, id, 3, None);
    assert_eq!(tab.panels[&id].highlight, Some((para_line, para_line)));

    let gutter_of = |tab: &Tab, needle: &str| {
        tab.panels[&id].layout(80).rows.iter().find(|r| r.text().contains(needle)).and_then(|r| r.gutter)
    };
    highlight(&mut tab, id, 1, None);
    let (lo, _) = tab.panels[&id].highlight.unwrap();
    assert_eq!(gutter_of(&tab, "Title"), Some(1));
    assert_eq!(tab.panels[&id].layout(80).rows[lo].line, lo);
    highlight(&mut tab, id, 6, None);
    assert_eq!(gutter_of(&tab, "Next"), Some(6), "last heading keeps source L6");
}

#[test]
fn review_header_is_the_blocks_source_range() {
    let mut panel = open_md(DOC);
    let para_line = panel.layout(80).rows.iter().find(|r| r.text().contains("para line one")).expect("paragraph row").line;
    panel.move_cursor(para_line as isize);
    panel.author_note("tighten this".into());
    let review = panel.assemble_review("");
    assert!(review.contains("L3-4"), "collapsed block emits its source range, not a single line: {review}");
    assert!(!review.contains("L3  "), "single-line header would be wrong here: {review}");
}

const CODE_DOC: &str = "# Title\n\n```rust\nlet a = 1;\nlet b = 2;\nlet c = 3;\n```\n\n## Next\n";

fn gutter_of(panel: &Panel, needle: &str) -> Option<usize> {
    panel.layout(80).rows.iter().find(|r| r.text().contains(needle)).and_then(|r| r.gutter)
}

#[test]
fn fenced_code_maps_per_line() {
    let mut panel = open_md(CODE_DOC);
    assert_eq!(gutter_of(&panel, "let a = 1;"), Some(4));
    assert_eq!(gutter_of(&panel, "let b = 2;"), Some(5));
    assert_eq!(gutter_of(&panel, "let c = 3;"), Some(6));
    let mid = panel.layout(80).rows.iter().find(|r| r.text().contains("let b = 2;")).expect("code row").line;
    panel.move_cursor(mid as isize);
    panel.author_note("this one".into());
    let review = panel.assemble_review("");
    assert!(review.contains("L5  "), "single source line: {review}");
    assert!(!review.contains("L4-"), "not a block range: {review}");
}

#[test]
fn html_block_maps_per_line() {
    let mut panel = open_md("# Title\n\n<div>\n<span>x</span>\n</div>\n\n## Next\n");
    assert_eq!(gutter_of(&panel, "<div>"), Some(3));
    assert_eq!(gutter_of(&panel, "<span>x</span>"), Some(4));
    assert_eq!(gutter_of(&panel, "</div>"), Some(5));
    let mid = panel.layout(80).rows.iter().find(|r| r.text().contains("<span>x</span>")).expect("html row").line;
    panel.move_cursor(mid as isize);
    panel.author_note("nested".into());
    let review = panel.assemble_review("");
    assert!(review.contains("L4  "), "single source line: {review}");
    assert!(!review.contains("L3-"), "not a block range: {review}");
}

#[test]
fn table_maps_per_data_row() {
    let mut panel = open_md("# Title\n\n| a | b |\n|---|---|\n| 1 | 2 |\n| 3 | 4 |\n\n## Next\n");
    let data_row = |panel: &Panel, needle: char| {
        panel.layout(80).rows.iter().find(|r| {
            let t = r.text();
            t.contains(needle) && !t.contains("Title") && !t.contains("Next")
        }).map(|r| (r.gutter, r.line))
    };
    assert_eq!(data_row(&panel, '1').map(|d| d.0), Some(Some(5)), "first data row → L5");
    assert_eq!(data_row(&panel, '3').map(|d| d.0), Some(Some(6)), "second data row → L6");
    for needle in ['1', '3'] {
        let line = data_row(&panel, needle).expect("data row").1;
        panel.move_cursor(isize::MIN / 2);
        panel.move_cursor(line as isize);
        panel.author_note(format!("row {needle}"));
    }
    let review = panel.assemble_review("");
    assert!(review.contains("L5"), "first data row header: {review}");
    assert!(review.contains("L6"), "second data row header: {review}");
    assert!(!review.contains("L3-6"), "no longer one whole-block thread: {review}");
}

#[test]
fn list_items_get_their_own_threads() {
    let mut panel = open_md("- a\n- b\n- c\n");
    for needle in ['a', 'b'] {
        let line = panel.layout(80).rows.iter().find(|r| r.text().contains(needle)).expect("bullet row").line;
        panel.move_cursor(isize::MIN / 2);
        panel.move_cursor(line as isize);
        panel.author_note(format!("note {needle}"));
    }
    let review = panel.assemble_review("");
    assert!(review.contains("L1"), "first bullet is its own thread: {review}");
    assert!(review.contains("L2"), "second bullet is its own thread: {review}");
    assert!(!review.contains("L1-3"), "not one whole-list thread: {review}");
}

/// Move the cursor to the first row whose text contains `needle` and author a note there.
fn note_on(panel: &mut Panel, needle: &str) {
    let line = panel
        .layout(80)
        .rows
        .iter()
        .find(|r| !r.comment && r.text().contains(needle))
        .unwrap_or_else(|| panic!("row containing {needle:?}"))
        .line;
    panel.move_cursor(isize::MIN / 2);
    panel.move_cursor(line as isize);
    panel.author_note(format!("note {needle}"));
}

#[test]
fn nested_list_items_get_their_own_threads() {
    let mut panel = open_md("- parent\n  - child one\n  - child two\n- sibling\n");
    note_on(&mut panel, "child one");
    let review = panel.assemble_review("");
    assert!(review.contains("L2    - child one\n"), "child is its own line: {review}");
    assert!(!review.contains("L1-3"), "not the parent's range: {review}");
}

const LISTS: &str = "# Lists

- top one
- top two
  - nested a
  - nested b
- top three

1. first
2. second
   1. sub one
   2. sub two

- loose one

- loose two

> - quoted a
> - quoted b

> [!NOTE]
> - alert a
> - alert b
";

fn ranged_headers(review: &str) -> Vec<String> {
    review
        .lines()
        .filter_map(|l| l.split_whitespace().next())
        .filter(|w| w.starts_with('L') && w.contains('-'))
        .map(str::to_string)
        .collect()
}

#[test]
fn quoted_and_callout_list_items_get_their_own_threads() {
    let mut panel = open_md(LISTS);
    let needles = ["nested a", "nested b", "sub one", "sub two", "loose one", "loose two", "quoted a", "quoted b", "alert a", "alert b"];
    for needle in needles {
        note_on(&mut panel, needle);
    }
    let review = panel.assemble_review("");
    let src: Vec<&str> = LISTS.lines().collect();
    assert_eq!(src.len(), 23, "fixture line count");
    for needle in needles {
        let n = src.iter().position(|l| l.contains(needle)).expect("source line") + 1;
        let hdr = format!("\nL{n}  {}\n", src[n - 1]);
        assert!(review.contains(&hdr), "{needle} keys to {hdr:?}: {review}");
    }
    let ranged = ranged_headers(&review);
    assert!(ranged.is_empty(), "no range headers: {ranged:?}\n{review}");
}

#[test]
fn blank_separated_list_items_get_their_own_threads() {
    let fixtures: [(&str, &[&str]); 3] = [
        ("- a\n\n  - b\n  - c\n\n- d\n", &["a", "b", "c", "d"]),
        ("* a\n\n  * b\n\n  * c\n* d\n", &["a", "b", "c", "d"]),
        ("> - quoted a\n>\n> - quoted b\n", &["quoted a", "quoted b"]),
    ];
    for (doc, needles) in fixtures {
        let mut panel = open_md(doc);
        if doc.starts_with("- a") {
            let rows: Vec<String> =
                panel.layout(80).rows.iter().filter(|r| !r.comment).map(|r| r.text().trim_end().to_string()).collect();
            assert_eq!(rows, ["- a", "", "    - b", "    - c", "", "- d"]);
        }
        for needle in needles.iter() {
            note_on(&mut panel, &format!("- {needle}"));
        }
        let review = panel.assemble_review("");
        let src: Vec<&str> = doc.lines().collect();
        for needle in needles.iter() {
            let n = src.iter().position(|l| l.ends_with(&format!(" {needle}"))).expect("source line") + 1;
            let hdr = format!("\nL{n}  {}\n", src[n - 1]);
            assert!(review.contains(&hdr), "{needle} keys to {hdr:?}: {review}");
        }
        let ranged = ranged_headers(&review);
        assert!(ranged.is_empty(), "no range headers: {ranged:?}\n{review}");
    }
}

fn row_of(tab: &Tab, id: u64, needle: &str) -> usize {
    tab.panels[&id]
        .layout(80)
        .rows
        .iter()
        .find(|r| !r.comment && r.text().contains(needle))
        .unwrap_or_else(|| panic!("row containing {needle:?}"))
        .line
}

fn agent_comment(tab: &mut Tab, id: u64, line: u32) {
    let r = tab.apply(Message::Comment { pane: Some(id), line, body: Some("x".into()), author: None }, area(), None);
    assert_eq!(r, Response::Done);
}

#[test]
fn agent_comment_on_a_nested_item_keys_to_its_row() {
    let (mut tab, id) = tab_with(open_md(LISTS));
    agent_comment(&mut tab, id, 5);
    let panel = &tab.panels[&id];
    assert!(panel.thread_at(row_of(&tab, id, "nested a")).is_some(), "L5 keys to the nested item's own row");
    assert!(panel.thread_at(row_of(&tab, id, "top two")).is_none(), "not the parent item's row");
}

#[test]
fn agent_comment_on_a_loose_list_gap_keys_to_its_row() {
    let (mut tab, id) = tab_with(open_md(LISTS));
    agent_comment(&mut tab, id, 15);
    let gap = row_of(&tab, id, "loose one") + 1;
    let panel = &tab.panels[&id];
    assert!(panel.thread_at(gap).is_some(), "L15 keys to the blank row after `loose one`");
    let review = panel.assemble_review("");
    assert!(review.contains("\nL15  \n"), "header is L15: {review}");
}

#[test]
fn folded_block_card_draws_after_its_last_row() {
    let mut panel = open_md("> [!NOTE]\n> drafted\n> against main.\n");
    panel.author_note("on the callout".into());
    let rows = panel.layout(80).rows;
    let texts: Vec<String> = rows.iter().map(|r| r.text()).collect();
    let card = rows.iter().position(|r| r.comment).expect("card row");
    let body = rows.iter().position(|r| r.text().contains("drafted")).expect("callout body row");
    assert!(body > 0, "title and body are separate rows: {texts:?}");
    assert!(card > body, "card draws after the block's last row: {texts:?}");
}

#[test]
fn blank_line_before_heading_survives() {
    let panel = open_md("- a\n- b\n\n## H\n");
    let rows = panel.layout(80).rows;
    let b = rows.iter().position(|r| r.text().contains('b')).expect("list row b");
    let h = rows.iter().position(|r| r.text().contains('H')).expect("heading row");
    assert!(
        rows[b + 1..h].iter().any(|r| r.text().trim().is_empty()),
        "a blank row sits between the list and the heading: {:?}",
        rows.iter().map(|r| r.text()).collect::<Vec<_>>()
    );
}

const REFLOW_CODE_DOC: &str = "# Title\n\nword word word word word word word word word word word\nword word word word word word word word word word word\nword word word word word word word word word word word\nword word word word word word word word word word word\nword word word word word word word word word word word\nword word word word word word word word word word word\n\n```rust\nlet a = 1;\nlet b = 2;\n```\n";

#[test]
fn highlight_fenced_block_lands_on_code_rows_after_reflow() {
    let (mut tab, id) = tab_with(open_md(REFLOW_CODE_DOC));
    highlight(&mut tab, id, 11, Some(12));
    let panel = &tab.panels[&id];
    let (lo, hi) = panel.highlight.expect("highlight set");
    let layout = panel.layout(80);
    let text = |line: usize| layout.rows.iter().find(|r| r.line == line).unwrap().text();
    assert!(text(lo).contains("let a = 1;"), "highlight lo row is the first code line, got {:?}", text(lo));
    assert!(text(hi).contains("let b = 2;"), "highlight hi row is the second code line, got {:?}", text(hi));
}

#[test]
fn code_files_keep_identity_line_mapping() {
    let mut src = String::new();
    for i in 1..=6 {
        src.push_str(&format!("let x{i} = {i};\n"));
    }
    let syntaxes = laura::code::Highlighting::bundled();
    let r = render_code(&src, "rs", &syntaxes, "base16-ocean.dark");
    let (mut tab, id) = tab_with(Panel::from_rendered("x.rs".to_string(), r, None, DiffOutcome::Unavailable));
    highlight(&mut tab, id, 4, None);
    assert_eq!(tab.panels[&id].highlight, Some((3, 3)), "identity source→row");
    let row = tab.panels[&id].layout(80).rows.into_iter().find(|r| r.line == 3).unwrap();
    assert_eq!(row.gutter, Some(4), "gutter equals the source line for code");
}

fn row_width(r: &PanelRow) -> usize {
    r.spans.iter().map(|s| s.content.chars().count()).sum()
}

fn is_code_row(r: &PanelRow) -> bool {
    let mut nb = r.spans.iter().filter(|s| !s.content.trim().is_empty());
    nb.clone().next().is_some() && nb.all(|s| s.style.bg.is_some())
}

#[test]
fn fenced_block_renders_as_uniform_rectangle() {
    let panel = open_md("# T\n\n```rust\nlet a = 1;\nlet bb = 22;\nx\n```\n");
    let layout = panel.layout(80);
    let code: Vec<&PanelRow> = layout.rows.iter().filter(|r| is_code_row(r)).collect();
    assert_eq!(code.len(), 3, "the three code lines between the fences");
    let w0 = row_width(code[0]);
    for r in &code {
        assert_eq!(row_width(r), w0, "every code row padded to one width: {:?}", r.text());
        let first = r.spans.first().unwrap();
        assert_eq!(first.content, " ", "leading inner-pad space");
        assert!(first.style.bg.is_some(), "leading pad carries the code bg");
        let last = r.spans.last().unwrap();
        assert!(last.content.chars().all(|c| c == ' '), "trailing inner-pad is spaces: {:?}", last.content);
        assert!(last.style.bg.is_some(), "trailing pad carries the code bg");
    }
}

const CODE_BG: LColor = LColor::Rgb(45, 45, 45);

#[test]
fn inline_code_gets_half_cell_caps() {
    let layout = open_md("Text with `code` here.\n").layout(80);
    let row = layout.rows.iter().find(|r| r.text().contains("code")).expect("the prose row with inline code");
    let left = row.spans.iter().position(|s| s.content == "\u{2588}").expect("left cap █");
    let right = row.spans.iter().rposition(|s| s.content == "\u{2588}").expect("right cap █");
    assert!(left < right, "left cap precedes right cap");
    assert_eq!(row.spans[left].style.fg, Some(CODE_BG), "left cap fg is the code bg");
    assert_eq!(row.spans[right].style.fg, Some(CODE_BG), "right cap fg is the code bg");
    assert!(row.spans[left + 1..right].iter().any(|s| s.style.bg.is_some()), "a bg code chip sits between the caps");
}

#[test]
fn inline_code_chip_bg_is_contiguous_across_spaces() {
    let layout = open_md("Run `laura open x` now.\n").layout(80);
    let row = layout.rows.iter().find(|r| r.text().contains("laura open x")).expect("prose row with the multi-word chip");
    let caps: Vec<usize> =
        row.spans.iter().enumerate().filter(|(_, s)| s.content == "\u{2588}").map(|(i, _)| i).collect();
    assert_eq!(caps.len(), 2, "only the two outer caps, not one per word: {:?}", row.spans);
    for s in &row.spans[caps[0] + 1..caps[1]] {
        assert!(s.style.bg.is_some(), "every span inside the chip (spaces included) carries the code bg: {:?}", s.content);
    }
}

#[test]
fn highlight_collapsed_block_covers_all_its_rows() {
    let (mut tab, id) = tab_with(open_md("# Title\n\n| a | b |\n|---|---|\n| 1 | 2 |\n| 3 | 4 |\n\n## Next\n"));
    highlight(&mut tab, id, 3, Some(6));
    let panel = &tab.panels[&id];
    let (lo, hi) = panel.highlight.expect("highlight set");
    assert!(hi > lo, "collapsed table spans multiple lit rows, not one: ({lo}, {hi})");
    let layout = panel.layout(80);
    for i in lo..=hi {
        let g = layout.rows[i].gutter.expect("table row has a gutter");
        assert!((3..=6).contains(&g), "row {i} is part of the highlighted table block (L3-6), got L{g}: {:?}", layout.rows[i].text());
    }
}

#[test]
fn trailing_blank_row_is_reachable() {
    for doc in ["> [!NOTE]\n> - a\n>\n> - b\n>\n", "- one\n\n- two\n\n\n"] {
        let mut panel = open_md(doc);
        let last = panel.layout(80).rows.iter().map(|r| r.line).max().expect("rows");
        let n = doc.lines().count() as u32;
        panel.agent_note(n, Some("x".into()), None).unwrap();
        panel.move_cursor(isize::MAX / 2);
        assert_eq!(panel.cursor, last, "cursor reaches the last row: {doc:?}");
        assert!(panel.cursor_thread().is_some(), "thread on last line is reachable: {doc:?}");
    }
}

/// A panel on `body` as a file with `suffix` opens: markdown styled, code highlighted.
fn open(suffix: &str, body: &str) -> Panel {
    if suffix == ".md" {
        return open_md(body);
    }
    let syntaxes = laura::code::Highlighting::bundled();
    let ext = suffix.trim_start_matches('.');
    let r = render_code(body, ext, &syntaxes, "base16-ocean.dark");
    Panel::from_rendered(format!("fixture{suffix}"), r, None, DiffOutcome::Unavailable)
}

/// Visual rows of the rendered line whose plain text contains `needle`.
fn rows_for(panel: &Panel, width: usize, needle: &str) -> usize {
    let idx = panel
        .content
        .lines()
        .position(|l| l.contains(needle))
        .unwrap_or_else(|| panic!("no source line contains {needle:?}"));
    panel.layout(width).rows.iter().filter(|r| r.line == idx).count()
}

#[test]
fn code_long_line_clips_scrolls_and_marks() {
    let long = "let x = \"aaaaaaaaaaaaaaaaaaaaaaaaaaaaaaaaaaaaaaaaaaaaaaaa\";";
    let panel = open(".rs", &format!("fn main() {{\n    {long}\n}}\n"));
    assert_eq!(rows_for(&panel, 24, "aaaa"), 1, "a wide code line must clip to one row, not wrap");
    let idx = panel.content.lines().position(|l| l.contains("aaaa")).unwrap();
    let row = |p: &Panel| p.layout(24).rows.iter().find(|r| r.line == idx).expect("the wide line's row").text();
    assert!(row(&panel).contains('\u{203A}'), "a clipped line marks the right margin with ›: {:?}", row(&panel));
    assert!(row(&panel).starts_with("    let x"), "un-scrolled window starts at column 0: {:?}", row(&panel));
    let mut p = panel;
    for _ in 0..12 {
        p.scroll_h(1);
    }
    assert!(p.h_offset > 0, "scroll_h advances the offset");
    assert!(!row(&p).starts_with("    let x"), "after scrolling, the left of the line has moved off: {:?}", row(&p));
}

#[test]
fn markdown_fence_scrolls_prose_wraps() {
    let md = "This is ordinary prose that is quite long and must wrap across a narrow panel width.\n\n```rust\nlet very_long_variable_name = some_function_call(argument_one, argument_two);\n```\n";
    let panel = open(".md", md);
    assert_eq!(rows_for(&panel, 30, "very_long_variable_name"), 1, "a fenced code line clips to one row");
    assert!(rows_for(&panel, 30, "ordinary prose") > 1, "long prose still wraps");
}

#[test]
fn markdown_table_row_stays_one_row() {
    let panel = open(".md", "| fruit | qty |\n|-------|-----|\n| apple | 3 |\n");
    assert_eq!(rows_for(&panel, 30, "apple"), 1, "a table row clips to one row rather than wrapping");
}

#[test]
fn inline_code_in_prose_still_wraps() {
    let panel = open(".md", "Prose with an `inline` code span and enough trailing words to force a wrap here now.\n");
    assert!(rows_for(&panel, 24, "Prose with") > 1, "a prose line with inline code still wraps");
}

#[test]
fn alert_block_stays_wrapped() {
    let panel = open(".md", "> [!NOTE]\n> This is an alert body long enough that it must wrap across a narrow panel.\n");
    assert!(rows_for(&panel, 24, "alert body") > 1, "an alert body is prose and must wrap, not clip");
}

#[test]
fn html_block_stays_one_row() {
    let panel = open(".md", "<div class=\"card\" data-attr=\"a very long attribute value that would wrap\">\ncontent\n</div>\n");
    assert_eq!(rows_for(&panel, 24, "<div"), 1, "an HTML block line clips to one row");
}

#[test]
fn markdown_content_is_plain_text() {
    let content = open(".md", "# Title\n\nsome **bold** text").content;
    assert!(content.contains("Title"), "missing heading text: {content:?}");
    assert!(content.contains("bold"), "missing bold text: {content:?}");
    assert!(!content.contains("**"), "raw emphasis leaked: {content:?}");
    assert!(!content.contains("<h1>"), "html leaked: {content:?}");
}

#[test]
fn table_rows_stay_aligned_with_inline_code() {
    let rows = open(".md", "# T\n\n| key | action |\n|-----|--------|\n| `Ctrl+P` | open |\n").layout(80).rows;
    assert!(!rows.iter().any(|r| r.spans.iter().any(|s| s.content == "\u{2588}")), "no `█` caps on pre-formatted table rows");
    let width = |needle: &str| {
        rows.iter()
            .find(|r| r.text().contains(needle))
            .map(|r| r.text().chars().count())
            .unwrap_or_else(|| panic!("row containing {needle:?}"))
    };
    assert_eq!(width("Ctrl+P"), width("\u{2500}"), "content row width matches the border row (no cap widening)");
}

#[test]
fn comment_on_folded_block_row_joins_one_thread() {
    let mut panel = open(".md", "# Title\n\n| a | b |\n|---|---|\n| 1 | 2 |\n| 3 | 4 |\n\n## Next\n");
    let block: Vec<usize> = panel.layout(80).rows.iter().filter(|r| r.gutter == Some(3)).map(|r| r.line).collect();
    assert!(block.len() > 1, "table folds to multiple rendered rows: {block:?}");
    let non_first = *block.last().unwrap();
    assert_ne!(non_first, block[0], "cursor lands off the block's first row");
    panel.move_cursor(non_first as isize);
    panel.author_note("human here".into());
    panel.agent_note(3, Some("agent reply".into()), Some("agent".into())).unwrap();
    assert_eq!(panel.thread_count(), 1, "one shared thread, no fork");
    let review = panel.assemble_review("");
    assert!(review.contains("L3"), "one folded-unit header: {review}");
    assert!(review.contains("human here") && review.contains("agent reply"), "both notes under one thread: {review}");
}

#[test]
fn review_header_carries_raw_source_not_rendered_glyphs() {
    let mut panel = open(".md", "# T\n\n| a | b |\n|---|---|\n| 1 | 2 |\n");
    panel.agent_note(5, Some("check".into()), Some("agent".into())).unwrap();
    let review = panel.assemble_review("");
    assert!(review.contains("| 1 | 2 |"), "header carries raw source: {review}");
    assert!(!review.contains('\u{2502}'), "no rendered box glyphs in the header: {review}");
}
