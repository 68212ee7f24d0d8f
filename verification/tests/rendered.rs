//! The plain-text projection and rows of rendered files: code and plain text stay verbatim,
//! diffs are coloured by line prefix, unknown extensions stay raw.

use laura::code::{render_code, Highlighting};
use laura::gitdiff::DiffOutcome;
use laura::panel::Panel;
use laura::render::{file_kind, render_diff, FileKind};
use laura::style::Color;


/// A panel on `body` as a file with `suffix` would open, markdown aside.
fn open(suffix: &str, body: &str) -> Panel {
    let path = format!("fixture{suffix}");
    let syntaxes = Highlighting::bundled();
    let theme = "base16-ocean.dark";
    let rendered = match file_kind(&path) {
        FileKind::Code(ext) => render_code(body, &ext, &syntaxes, theme),
        FileKind::Diff => render_diff(body),
        FileKind::Markdown => panic!("markdown is not rendered here"),
    };
    Panel::from_rendered(path, rendered, None, DiffOutcome::Unavailable)
}

#[test]
fn html_is_kept_verbatim() {
    let panel = open(".html", "<h1>Title</h1>\n<p>body text</p>\n");
    assert_eq!(
        panel.content, "<h1>Title</h1>\n<p>body text</p>\n",
        "source must be preserved verbatim: {:?}",
        panel.content
    );
}

#[test]
fn plain_text_stays_raw() {
    let content = open(".txt", "# not a heading\n**not bold**").content;
    assert_eq!(content, "# not a heading\n**not bold**");
}

#[test]
fn code_file_is_kept_verbatim() {
    let panel = open(".rs", "fn main() {\n    let x = 1;\n}\n");
    assert_eq!(
        panel.content, "fn main() {\n    let x = 1;\n}\n",
        "source must be preserved verbatim: {:?}",
        panel.content
    );
}

#[test]
fn leading_indentation_survives_wrapping() {
    let panel = open(".rs", "fn main() {\n    let x = 1;\n}\n");
    let indented = panel
        .layout(80)
        .rows
        .iter()
        .find(|r| r.text().contains("let x"))
        .map(|r| r.text())
        .expect("the indented body line");
    assert!(indented.starts_with("    let x"), "leading indent should be preserved: {indented:?}");
}

#[test]
fn diff_projection_is_verbatim_and_colored() {
    let src = "@@ -1 +1 @@\n-    old = 1\n+    new = 2\n";
    let panel = open(".diff", src);
    assert_eq!(panel.content, src, "diff source must be verbatim");
    let rows = panel.layout(80).rows;
    let color = |needle: &str| {
        rows.iter()
            .find(|r| r.text().contains(needle))
            .and_then(|r| r.spans.iter().find(|s| !s.content.trim().is_empty()))
            .and_then(|s| s.style.fg)
    };
    assert_eq!(color("new = 2"), Some(Color::Rgb(163, 190, 140)), "addition is green");
    assert_eq!(color("old = 1"), Some(Color::Rgb(191, 97, 106)), "removal is red");
}

#[test]
fn unknown_extension_stays_raw() {
    let panel = open(".zzz", "keyword fn let const");
    assert_eq!(panel.content, "keyword fn let const");
    assert_eq!(panel.layout(80).rows[0].spans[0].style.fg, None);
}

#[test]
fn file_kind_goes_by_the_last_extension_any_case() {
    assert_eq!(file_kind("notes.MD"), FileKind::Markdown);
    assert_eq!(file_kind("a.b/readme.markdown"), FileKind::Markdown);
    assert_eq!(file_kind("fix.Patch"), FileKind::Diff);
    assert_eq!(file_kind("x.diff"), FileKind::Diff);
    assert_eq!(file_kind("main.RS"), FileKind::Code("rs".to_string()));
    assert_eq!(file_kind("Makefile"), FileKind::Code("makefile".to_string()));
    assert_eq!(file_kind("trailing."), FileKind::Code(String::new()));
}

#[test]
fn highlighted_code_keeps_each_line_and_is_preformatted() {
    let syntaxes = Highlighting::bundled();
    let theme = "base16-ocean.dark";
    let src = "fn main() {\r\n    let x = 1;\n}";
    let r = render_code(src, "rs", &syntaxes, theme);
    assert_eq!(r.nowrap, vec![true, true, true]);
    let texts: Vec<String> = r
        .styled
        .iter()
        .map(|l| l.spans.iter().map(|s| s.content.as_str()).collect::<String>())
        .collect();
    assert_eq!(texts, vec!["fn main() {", "    let x = 1;", "}"]);
    assert!(r.styled.iter().flat_map(|l| l.spans.iter()).all(|s| !s.content.is_empty()));
    assert!(r.styled[0].spans.iter().all(|s| matches!(s.style.fg, Some(Color::Rgb(..)))));
    assert_eq!(r.source, vec![(0, 0), (1, 1), (2, 2)]);
    let plain = render_code(src, "zzz", &syntaxes, theme);
    assert_eq!(plain.nowrap, vec![false, false, false]);
}

#[test]
fn an_unknown_theme_leaves_code_plain() {
    let h = Highlighting::bundled();
    let r = render_code("fn main() {}\n", "rs", &h, "no-such-theme");
    assert_eq!(r.nowrap, vec![false]);
    let coloured = render_code("fn main() {}\n", "rs", &h, "base16-ocean.dark");
    assert_eq!(coloured.nowrap, vec![true]);
}
