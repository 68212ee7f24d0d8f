//! Greedy word wrapping.

use laura::panel::wrap_spans;
use laura::style::Span;
use laura::wrap_line;

#[test]
fn wrap_line_covers_edges() {
    assert_eq!(wrap_line("abc de", 10), vec!["abc de"]); // fits on one row
    assert_eq!(wrap_line("abc def ghi", 7), vec!["abc def", "ghi"]); // word boundary
    assert_eq!(wrap_line("abcdefgh", 3), vec!["abc", "def", "gh"]); // over-long word splits
    assert_eq!(wrap_line("", 5), vec![""]); // blank source line still holds a row
    assert_eq!(wrap_line("    abcd ef", 8), vec!["    abcd", "ef"]); // indent narrows row 0
    for row in wrap_line("the quick brown fox jumped over", 8) {
        assert!(row.chars().count() <= 8, "row too wide: {row:?}");
    }
}

#[test]
fn wrap_line_keeps_multibyte_and_double_spaces() {
    assert_eq!(wrap_line("héllo wörld", 5), vec!["héllo", "wörld"]);
    assert_eq!(wrap_line("a  b", 10), vec!["a  b"]);
    assert_eq!(wrap_line("ab cdefgh", 4), vec!["ab", "cdef", "gh"]);
}

#[test]
fn styled_wrap_matches_wrap_line() {
    for (text, width) in [("    abcd ef", 8usize), ("abc def ghi", 7), ("  x yy zzz wwww", 5), ("abcdefgh", 3)] {
        let rows = wrap_spans(&vec![Span::raw(text.to_string())], width);
        let texts: Vec<String> =
            rows.iter().map(|r| r.iter().map(|s| s.content.as_str()).collect::<String>()).collect();
        assert_eq!(texts, wrap_line(text, width), "{text:?} at {width}");
    }
}
