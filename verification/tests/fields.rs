use debian_copyright::copyright_file::fields::{
    parse_field_with_trimmed_list, to_list, to_text, Comment, Copyright, Disclaimer, Files,
    Format, License, ParseField, Source, UpstreamContact, UpstreamName,
};
use debian_copyright::copyright_file::upstream_name;
use debian_copyright::error::ErrorKind;

#[test]
fn fields_test_format() {
    let (_i, o) = Format::parse(
        "Format: http://www.debian.org/doc/packaging-manuals/copyright-format/1.0/",
    )
    .expect("this is valid");
    assert_eq!(
        o,
        Format("http://www.debian.org/doc/packaging-manuals/copyright-format/1.0/".to_string())
    )
}

#[test]
fn single_line_fields_drop_the_terminator() {
    let (_, o) = Format::parse("Format: 1.0 \t\n").unwrap();
    assert_eq!(o, Format("1.0".to_string()));
    let (i, o) = Format::parse("Format: 1.0\nSource: x\n").unwrap();
    assert_eq!(o, Format("1.0".to_string()));
    assert_eq!(i, "Source: x\n");
    let (_, o) = UpstreamName::parse("Upstream-Name: foo\r\n").unwrap();
    assert_eq!(o, UpstreamName("foo".to_string()));
    let (_, o) = UpstreamContact::parse("Upstream-Contact: Jo <jo@example.org>\n").unwrap();
    assert_eq!(o, UpstreamContact("Jo <jo@example.org>".to_string()));
    let (_, o) = Source::parse("Source: https://example.org/\n").unwrap();
    assert_eq!(o, Source("https://example.org/".to_string()));
    let (_, o) = upstream_name("Upstream-Name: bar").unwrap();
    assert_eq!(o, UpstreamName("bar".to_string()));
}

#[test]
fn single_line_fields_leave_continuation_lines() {
    let (i, o) = Source::parse("Source: a\n b\n").unwrap();
    assert_eq!(o, Source("a".to_string()));
    assert_eq!(i, " b\n");
}

#[test]
fn folded_text_fields_keep_inner_lines_raw() {
    let (i, o) = Comment::parse("Comment: first\n second\n  .\n third\nNext: x\n").unwrap();
    assert_eq!(o, Comment("first\n second\n  .\n third".to_string()));
    assert_eq!(i, "Next: x\n");
    let (_, o) = Disclaimer::parse("Disclaimer: none").unwrap();
    assert_eq!(o, Disclaimer("none".to_string()));
    let (_, o) = License::parse("License: GPL-2+\n").unwrap();
    assert_eq!(o, License("GPL-2+".to_string()));
}

#[test]
fn list_fields_trim_each_line_and_drop_empty_ones() {
    let (i, o) = Files::parse("Files: a/*\n   b/c  \n \t \n d\nCopyright: x\n").unwrap();
    assert_eq!(
        o,
        Files(vec!["a/*".to_string(), "b/c".to_string(), "d".to_string()])
    );
    assert_eq!(i, "Copyright: x\n");
    let (_, o) = Copyright::parse("Copyright:\n 2020 A\n 2021 B\n 2020 A\n").unwrap();
    assert_eq!(
        o,
        Copyright(vec![
            "2020 A".to_string(),
            "2021 B".to_string(),
            "2020 A".to_string()
        ])
    );
}

#[test]
fn list_of_an_empty_value_is_empty() {
    let (_, o) = Files::parse("Files:\n").unwrap();
    assert_eq!(o, Files(vec![]));
    let (_, o) = Files::parse("Files:").unwrap();
    assert_eq!(o, Files(vec![]));
}

#[test]
fn list_entries_lose_unicode_white_space() {
    let (_, list) =
        parse_field_with_trimmed_list::<Files>("Files: \u{a0}a b\u{2003}\r\n \u{3000}\n c\n")
            .unwrap();
    assert_eq!(list, vec!["a b".to_string(), "c".to_string()]);
}

#[test]
fn parse_reports_other_field() {
    let e = Format::parse("Source: x\n").unwrap_err();
    assert_eq!(e.kind, ErrorKind::UnrecognizedField);
    assert_eq!(e.offset, 0);
    let e = Files::parse("Copyright: x\n").unwrap_err();
    assert_eq!(e.kind, ErrorKind::UnrecognizedField);
}

#[test]
fn to_text_drops_white_space_at_the_end() {
    assert_eq!(to_text("abc\n"), "abc");
    assert_eq!(to_text("abc\r\n"), "abc");
    assert_eq!(to_text("abc \t\n\n"), "abc");
    assert_eq!(to_text("abc\u{a0}"), "abc");
    assert_eq!(to_text(" abc"), " abc");
    assert_eq!(to_text("a\n b\n"), "a\n b");
    assert_eq!(to_text("\n x"), "\n x");
    assert_eq!(to_text("\n"), "");
    assert_eq!(to_text(""), "");
    assert_eq!(to_text("\u{e9}\n"), "\u{e9}");
}

#[test]
fn to_list_splits_at_line_feeds() {
    assert_eq!(to_list("a\n b \n\n  \nc"), vec!["a", "b", "c"]);
    assert_eq!(to_list(""), Vec::<String>::new());
    assert_eq!(to_list(" \n \n"), Vec::<String>::new());
    assert_eq!(to_list("x y\tz"), vec!["x y\tz"]);
}

#[test]
fn from_string_wraps_the_string() {
    assert_eq!(Format::from("a".to_string()), Format("a".to_string()));
    assert_eq!(UpstreamName::from("b".to_string()), UpstreamName("b".to_string()));
    assert_eq!(
        UpstreamContact::from("c".to_string()),
        UpstreamContact("c".to_string())
    );
    assert_eq!(Source::from("d".to_string()), Source("d".to_string()));
}
