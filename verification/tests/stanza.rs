use debian_copyright::error::{ErrorKind, ParseError};
use debian_copyright::stanza::{find_rule, is_stanza_end, stanza_fields, FieldRule};
use debian_copyright::text::{byte_len, consumed, same_bytes, scan, starts_with, take_run, ByteClass};

fn rules() -> Vec<FieldRule> {
    vec![
        FieldRule { name: "One", folded: false, mandatory: true },
        FieldRule { name: "Two", folded: true, mandatory: false },
        FieldRule { name: "Three", folded: true, mandatory: true },
    ]
}

#[test]
fn stanza_fields_come_in_the_order_of_the_rules() {
    let (rest, slots) = stanza_fields("Three: c\n d\nOne: a\n\nTwo: b\n", &rules()).unwrap();
    assert_eq!(slots, vec![Some("a\n"), None, Some("c\n d\n")]);
    assert_eq!(rest, "\nTwo: b\n");
}

#[test]
fn stanza_fields_in_both_orders_are_equal() {
    let (_, a) = stanza_fields("One: a\nTwo: b\nThree: c\n", &rules()).unwrap();
    let (_, b) = stanza_fields("Three: c\nTwo: b\nOne: a\n", &rules()).unwrap();
    assert_eq!(a, b);
    assert_eq!(a, vec![Some("a\n"), Some("b\n"), Some("c\n")]);
}

#[test]
fn stanza_without_mandatory_field() {
    let e = stanza_fields("One: a\nTwo: b\n", &rules()).unwrap_err();
    assert_eq!(e, ParseError { kind: ErrorKind::MissingMandatoryField, offset: 14 });
    let e = stanza_fields("", &rules()).unwrap_err();
    assert_eq!(e, ParseError { kind: ErrorKind::MissingMandatoryField, offset: 0 });
}

#[test]
fn stanza_refusals() {
    let e = stanza_fields("One: a\nFour: b\n", &rules()).unwrap_err();
    assert_eq!(e, ParseError { kind: ErrorKind::UnrecognizedField, offset: 7 });
    let e = stanza_fields("One: a\nThree: x\nOne: b\n", &rules()).unwrap_err();
    assert_eq!(e, ParseError { kind: ErrorKind::TrailingContent, offset: 16 });
    let e = stanza_fields("One: a\n: b\n", &rules()).unwrap_err();
    assert_eq!(e, ParseError { kind: ErrorKind::MalformedFieldName, offset: 7 });
    let e = stanza_fields("One: a\nThr", &rules()).unwrap_err();
    assert_eq!(e, ParseError { kind: ErrorKind::UnexpectedEndOfInput, offset: 10 });
    let e = stanza_fields("One: a\nTwo: x\ry\n", &rules()).unwrap_err();
    assert_eq!(e, ParseError { kind: ErrorKind::TrailingContent, offset: 13 });
}

#[test]
fn refusal_comes_before_missing_field() {
    let e = stanza_fields("One: a\nFour: b\n", &rules()).unwrap_err();
    assert_eq!(e.kind, ErrorKind::UnrecognizedField);
}

#[test]
fn stanza_with_no_rules_is_empty() {
    let (rest, slots) = stanza_fields("\nOne: a\n", &[]).unwrap();
    assert!(slots.is_empty());
    assert_eq!(rest, "\nOne: a\n");
    let e = stanza_fields("One: a\n", &[]).unwrap_err();
    assert_eq!(e.kind, ErrorKind::UnrecognizedField);
}

#[test]
fn first_rule_of_a_name_wins() {
    let twice = vec![
        FieldRule { name: "A", folded: false, mandatory: false },
        FieldRule { name: "A", folded: true, mandatory: false },
    ];
    assert_eq!(find_rule(&twice, "A"), Some(0));
    assert_eq!(find_rule(&twice, "B"), None);
    assert_eq!(find_rule(&rules(), "Three"), Some(2));
    assert_eq!(find_rule(&rules(), "three"), None);
}

#[test]
fn stanza_ends_at_end_of_input_and_at_blank_lines() {
    assert!(is_stanza_end(""));
    assert!(is_stanza_end("\n"));
    assert!(is_stanza_end("\r\nx"));
    assert!(is_stanza_end(" \t \nx"));
    assert!(is_stanza_end("   "));
    assert!(!is_stanza_end("x"));
    assert!(!is_stanza_end("  x\n"));
    assert!(!is_stanza_end("\rx"));
}

#[test]
fn byte_classes() {
    for b in 0u8..=255 {
        let c = b as char;
        assert_eq!(ByteClass::Alnum.holds(b), c.is_ascii_alphanumeric());
        assert_eq!(ByteClass::Name.holds(b), c.is_ascii_alphanumeric() || c == '-');
        assert_eq!(ByteClass::Blank.holds(b), c == ' ' || c == '\t');
        assert_eq!(ByteClass::Space.holds(b), c == ' ');
        assert_eq!(ByteClass::Text.holds(b), c != '\n' && c != '\r');
        assert_eq!(ByteClass::Line.holds(b), c != '\n');
    }
}

#[test]
fn scanning_and_cutting() {
    assert_eq!(scan(b"ab  cd", 2, ByteClass::Blank), 4);
    assert_eq!(scan(b"ab  cd", 0, ByteClass::Blank), 0);
    assert_eq!(scan(b"ab", 2, ByteClass::Alnum), 2);
    assert_eq!(take_run(" \t x", ByteClass::Blank), ("x", " \t "));
    assert_eq!(take_run("\u{e9}t\u{e9}\nx", ByteClass::Text), ("\nx", "\u{e9}t\u{e9}"));
    assert_eq!(take_run("ab-1\u{e9}", ByteClass::Name), ("\u{e9}", "ab-1"));
    let input = "head and tail";
    assert_eq!(consumed(input, &input[5..]), "head ");
    assert_eq!(byte_len("\u{e9}"), 2);
    assert!(starts_with(b"abc", b"ab"));
    assert!(starts_with(b"abc", b""));
    assert!(!starts_with(b"abc", b"abcd"));
    assert!(!starts_with(b"abc", b"ac"));
    assert!(same_bytes(b"abc", b"abc"));
    assert!(!same_bytes(b"abc", b"ab"));
    assert!(!same_bytes(b"abc", b"abd"));
}

#[test]
fn errors_shift_with_their_input() {
    let e = ParseError::new(ErrorKind::TrailingContent, 3).shifted(4);
    assert_eq!(e, ParseError { kind: ErrorKind::TrailingContent, offset: 7 });
}

#[test]
fn failure_is_found_by_line() {
    let input = "Format: 1.0\n\nFiles: a\nBogus: b\n";
    let e = debian_copyright::copyright_file::copyright_file(input).unwrap_err();
    assert_eq!(e, ParseError { kind: ErrorKind::UnrecognizedField, offset: 22 });
    assert_eq!(e.line_in(input), 3);
    assert_eq!(ParseError::new(ErrorKind::TrailingContent, 0).line_in(input), 0);
    assert_eq!(ParseError::new(ErrorKind::TrailingContent, 12).line_in(input), 1);
    assert_eq!(ParseError::new(ErrorKind::TrailingContent, 11).line_in(input), 0);
    assert_eq!(ParseError::new(ErrorKind::TrailingContent, 1000).line_in(input), 4);
    assert_eq!(ParseError::new(ErrorKind::TrailingContent, 0).line_in(""), 0);
}
