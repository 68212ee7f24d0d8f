//! Markdown is sliced into top-level blocks whose rows map back to the file's own lines.

use laura::markdown::{assemble_markdown, classify_line, markdown_slices, refine_line, render_markdown};
use laura::style::{Color, Span, Style, StyledLine};

fn line(texts: &[&str]) -> StyledLine {
    StyledLine { spans: texts.iter().map(|t| Span::raw(t.to_string())).collect() }
}

fn text(l: &StyledLine) -> String {
    l.spans.iter().map(|s| s.content.as_str()).collect()
}

const DOC: &str = "# T\n\npara one\npara two\n\n```rust\nlet x;\n```\n";

#[test]
fn blocks_become_one_slice_each() {
    let slices = markdown_slices(DOC).expect("sliceable");
    assert_eq!(slices.len(), 3);
    assert!(slices[0].starts_with("# T"));
    assert!(slices[1].starts_with("para one\npara two"));
    assert!(slices[2].starts_with("```rust\nlet x;\n```"));
}

#[test]
fn rows_map_back_to_source_lines_with_gaps_filled() {
    let slices = vec![vec![line(&["T"])], vec![line(&["para one"]), line(&["para two"])], vec![line(&["let x;"])]];
    let (styled, source) = assemble_markdown(DOC, &slices);
    let texts: Vec<String> = styled.iter().map(text).collect();
    assert_eq!(texts, vec!["T", "", "para one", "para two", "", "let x;"]);
    assert_eq!(source, vec![(0, 0), (1, 1), (2, 2), (3, 3), (4, 4), (6, 6)]);
}

#[test]
fn a_reflowed_paragraph_tags_every_row_with_the_block() {
    let slices = vec![vec![line(&["T"])], vec![line(&["para one para two"])], vec![line(&["let x;"])]];
    let (_styled, source) = assemble_markdown(DOC, &slices);
    assert_eq!(source[2], (2, 3));
}

#[test]
fn mismatched_slices_show_the_raw_text() {
    let r = render_markdown(DOC, &vec![]);
    assert_eq!(r.styled.len(), 8);
    assert_eq!(r.source[5], (5, 5));
    assert_eq!(text(&r.styled[5]), "```rust");
    assert_eq!(r.content, "# T\n\npara one\npara two\n\n```rust\nlet x;\n```");
}

#[test]
fn list_items_are_sliced_one_by_one() {
    let md = "- a\n- b\n";
    let slices = markdown_slices(md).expect("sliceable");
    assert_eq!(slices, vec!["- a".to_string(), "- b".to_string()]);
    let (_styled, source) = assemble_markdown(md, &vec![vec![line(&["• a"])], vec![line(&["• b"])]]);
    assert_eq!(source, vec![(0, 0), (1, 1)]);
}

#[test]
fn refine_drops_the_quote_gutter_and_marks_rules() {
    let q = refine_line(&line(&[">", " ", "quoted"]));
    assert_eq!(text(&q), "quoted");
    let r = refine_line(&line(&["---"]));
    assert_eq!(text(&r), "─");
    assert_eq!(r.spans[0].style.fg, Some(Color::Rgb(90, 90, 90)));
    let n = refine_line(&StyledLine { spans: vec![Span::styled("1. ".into(), Style::fg(Color::LightBlue))] });
    assert_eq!(n.spans[0].style.fg, None);
}

#[test]
fn code_tables_and_html_are_preformatted() {
    let code = Style { bg: Some(Color::Rgb(45, 45, 45)), ..Style::plain() };
    assert!(classify_line(&StyledLine { spans: vec![Span::styled("let x;".into(), code)] }));
    assert!(classify_line(&line(&["┌───┐"])));
    assert!(!classify_line(&line(&["plain prose"])));
    let dim = Style { add_modifier: 0x0002, ..Style::plain() };
    assert!(classify_line(&StyledLine { spans: vec![Span::styled("<div>".into(), dim)] }));
    assert!(!classify_line(&line(&[""])));
    assert!(classify_line(&StyledLine { spans: vec![Span::styled("".into(), code)] }));
}

#[test]
fn reference_definitions_are_written_as_lines() {
    let defs = vec![
        ("a".to_string(), "https://x.example".to_string()),
        ("b".to_string(), "/local".to_string()),
    ];
    let text: String = laura::markdown::defs_text(&defs).into_iter().collect();
    assert_eq!(text, "\n\n[a]: https://x.example\n\n[b]: /local");
    assert!(laura::markdown::defs_text(&vec![]).is_empty());
}

#[test]
fn every_slice_carries_every_reference_definition() {
    let md = "See [a] and [b].\n\n[a]: /one\n[b]: /two\n\n# Next\n\nMore [a].\n";
    let texts = markdown_slices(md).expect("sliceable");
    assert!(texts.len() >= 2);
    let defs_ab = "\n\n[a]: /one\n\n[b]: /two";
    let defs_ba = "\n\n[b]: /two\n\n[a]: /one";
    for t in &texts {
        assert!(t.ends_with(defs_ab) || t.ends_with(defs_ba), "{t:?}");
    }
}
