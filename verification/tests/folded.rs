use debian_copyright::error::ErrorKind;
use debian_copyright::folded::clean_multiline;

#[test]
fn blank_line_escape() {
    let (rest, lines) = clean_multiline("0\n  a\n    .\n  b").unwrap();
    assert_eq!(lines, vec!["0\n", "a\n", "\n", "b"]);
    assert_eq!(rest, "");
}

#[test]
fn single_line_is_returned_unchanged() {
    let (rest, lines) = clean_multiline("only line\n").unwrap();
    assert_eq!(lines, vec!["only line\n"]);
    assert_eq!(rest, "");
    let (_, lines) = clean_multiline("no terminator").unwrap();
    assert_eq!(lines, vec!["no terminator"]);
    let (_, lines) = clean_multiline("").unwrap();
    assert_eq!(lines, vec![""]);
    let (_, lines) = clean_multiline("\n").unwrap();
    assert_eq!(lines, vec!["\n"]);
}

#[test]
fn first_line_is_kept_as_it_is() {
    let (_, lines) = clean_multiline("  . \n x\n").unwrap();
    assert_eq!(lines, vec!["  . \n", "x\n"]);
}

#[test]
fn shallow_indent_cleans_like_nominal_indent() {
    let (_, nominal) = clean_multiline("0\n    a\n    text\n").unwrap();
    let (_, one) = clean_multiline("0\n    a\n text\n").unwrap();
    let (_, three) = clean_multiline("0\n    a\n   text\n").unwrap();
    assert_eq!(nominal, vec!["0\n", "a\n", "text\n"]);
    assert_eq!(one, nominal);
    assert_eq!(three, nominal);
}

#[test]
fn deep_indent_keeps_the_excess() {
    let (_, lines) = clean_multiline("0\n  a\n     b\n  \tc\n").unwrap();
    assert_eq!(lines, vec!["0\n", "a\n", "   b\n", "\tc\n"]);
}

#[test]
fn indent_is_taken_from_first_continuation_line() {
    let (_, lines) = clean_multiline("0\n a\n   b\n").unwrap();
    assert_eq!(lines, vec!["0\n", "a\n", "  b\n"]);
}

#[test]
fn indent_of_tabs_comes_off_where_it_matches() {
    let (_, lines) = clean_multiline("0\n\t a\n\t b\n  c\n").unwrap();
    assert_eq!(lines, vec!["0\n", "a\n", "b\n", "c\n"]);
}

#[test]
fn escape_works_behind_any_blanks_and_with_crlf() {
    let (_, lines) = clean_multiline("0\r\n  a\r\n \t .\r\n  .").unwrap();
    assert_eq!(lines, vec!["0\r\n", "a\r\n", "\r\n", ""]);
}

#[test]
fn dot_with_text_behind_it_is_no_escape() {
    let (_, lines) = clean_multiline("0\n  .a\n  ..\n  . \n").unwrap();
    assert_eq!(lines, vec!["0\n", ".a\n", "..\n", ". \n"]);
}

#[test]
fn blank_only_continuation_line_loses_its_indent() {
    let (_, lines) = clean_multiline("0\n  a\n  \n    \n").unwrap();
    assert_eq!(lines, vec!["0\n", "a\n", "\n", "  \n"]);
}

#[test]
fn unindented_line_is_an_indentation_error() {
    let e = clean_multiline("0\n  a\nb\n").unwrap_err();
    assert_eq!(e.kind, ErrorKind::IndentationError);
    assert_eq!(e.offset, 6);
    let e = clean_multiline("0\nb\n").unwrap_err();
    assert_eq!(e.kind, ErrorKind::IndentationError);
    assert_eq!(e.offset, 2);
    let e = clean_multiline("0\n  a\n\n  b\n").unwrap_err();
    assert_eq!(e.kind, ErrorKind::IndentationError);
    assert_eq!(e.offset, 6);
}

#[test]
fn tab_that_is_not_the_indent_is_an_indentation_error() {
    let e = clean_multiline("0\n  a\n\tb\n").unwrap_err();
    assert_eq!(e.kind, ErrorKind::IndentationError);
    assert_eq!(e.offset, 6);
}

#[test]
fn lone_carriage_return_is_reported_where_it_stands() {
    let e = clean_multiline("0\rx\n  a\n").unwrap_err();
    assert_eq!(e.kind, ErrorKind::TrailingContent);
    assert_eq!(e.offset, 1);
    let e = clean_multiline("0\n  a\rb\n").unwrap_err();
    assert_eq!(e.kind, ErrorKind::TrailingContent);
    assert_eq!(e.offset, 5);
}

#[test]
fn non_ascii_text_is_kept() {
    let (_, lines) = clean_multiline("\u{a9} 2020\n  Jos\u{e9}\n  \u{4e2d}\u{6587}\n").unwrap();
    assert_eq!(lines, vec!["\u{a9} 2020\n", "Jos\u{e9}\n", "\u{4e2d}\u{6587}\n"]);
}
