use debian_copyright::copyright_file::fields::{Comment, Copyright, Files, Format, License};
use debian_copyright::copyright_file::{
    body_paragraph, copyright_file, files_paragraph, header_paragraph, license_detail_paragraph,
    BodyParagraph, FilesParagraph, LicenseDetailParagraph,
};
use debian_copyright::error::ErrorKind;

#[test]
fn mod_test_format() {
    let (_i, _o) = copyright_file(
        r#"
Format: https://www.debian.org/doc/packaging-manuals/copyright-format/1.0/

Files: CONTRIBUTING.md
Copyright: 2018-2019 Collabora, Ltd.
    and License for this CONTRIBUTING.md file
License: CC-BY-4.0

Files: README.md
Copyright: 2018-2020, Collabora, Ltd.
License: CC-BY-4.0

Files: doc/CHANGELOG.md
Copyright: 2020 Collabora, Ltd. and the Monado contributors
License: CC0-1.0

Files: doc/changes/*
Copyright: 2020 Collabora, Ltd. and the Proclamation contributors
License: CC0-1.0

Files: doc/changes/auxiliary/*
    doc/changes/big/*
    doc/changes/compositor/*
    doc/changes/drivers/*
    doc/changes/ipc/*
    doc/changes/misc_features/*
    doc/changes/misc_fixes/*
    doc/changes/state_trackers/*
    doc/changes/xrt/*
Copyright: 2020-2021, Collabora, Ltd. and the Monado contributors
License: CC0-1.0

Files: doc/conventions.md
    doc/frame-timing.md
    doc/howto-release.md
    doc/implementing-extensions.md
    doc/ipc.md
    doc/tracing.md
Copyright: 2021, Collabora, Ltd. and the Monado contributors
License: BSL-1.0
            "#,
    )
    .expect("this is valid");
}

#[test]
fn document_from_the_format_description() {
    let (rest, file) = copyright_file(
        "Format: https://www.debian.org/doc/packaging-manuals/copyright-format/1.0/\n\nFiles: README.md\nCopyright: 2020, Example Org.\nLicense: MIT\n",
    )
    .unwrap();
    assert_eq!(rest, "");
    assert_eq!(
        file.header_paragraph.format,
        Format("https://www.debian.org/doc/packaging-manuals/copyright-format/1.0/".to_string())
    );
    assert_eq!(file.header_paragraph.upstream_name, None);
    assert_eq!(file.header_paragraph.license, None);
    assert_eq!(
        file.body_paragraphs,
        vec![BodyParagraph::Files(FilesParagraph {
            files: Files(vec!["README.md".to_string()]),
            copyright: Copyright(vec!["2020, Example Org.".to_string()]),
            license: License("MIT".to_string()),
            comment: None,
        })]
    );
}

#[test]
fn document_with_blanks_behind_its_last_line() {
    let (rest, file) = copyright_file(
        "\nFormat: 1.0\n\nFiles: README.md\nCopyright: 2020, Example Org.\nLicense: MIT\n        ",
    )
    .unwrap();
    assert_eq!(rest, "");
    assert_eq!(
        file.body_paragraphs,
        vec![BodyParagraph::Files(FilesParagraph {
            files: Files(vec!["README.md".to_string()]),
            copyright: Copyright(vec!["2020, Example Org.".to_string()]),
            license: License("MIT".to_string()),
            comment: None,
        })]
    );
}

#[test]
fn document_keeps_order_of_body_stanzas() {
    let (_, file) = copyright_file(
        "Format: 1\n\nLicense: A\n text a\n\nFiles: x\nCopyright: c\nLicense: A\n\n\nLicense: B\n text b\n",
    )
    .unwrap();
    assert_eq!(file.body_paragraphs.len(), 3);
    assert_eq!(
        file.body_paragraphs[0],
        BodyParagraph::LicenseDetail(LicenseDetailParagraph {
            name: "A".to_string(),
            text: "text a".to_string()
        })
    );
    assert!(matches!(file.body_paragraphs[1], BodyParagraph::Files(_)));
    assert_eq!(
        file.body_paragraphs[2],
        BodyParagraph::LicenseDetail(LicenseDetailParagraph {
            name: "B".to_string(),
            text: "text b".to_string()
        })
    );
}

#[test]
fn empty_input_lacks_format() {
    let e = copyright_file("").unwrap_err();
    assert_eq!(e.kind, ErrorKind::MissingMandatoryField);
    assert_eq!(e.offset, 0);
    let e = header_paragraph("").unwrap_err();
    assert_eq!(e.kind, ErrorKind::MissingMandatoryField);
    let e = copyright_file("\n  \n\n").unwrap_err();
    assert_eq!(e.kind, ErrorKind::MissingMandatoryField);
    assert_eq!(e.offset, 5);
}

#[test]
fn files_stanza_without_license_lacks_mandatory_field() {
    let e = files_paragraph("Files: a\nCopyright: b\n").unwrap_err();
    assert_eq!(e.kind, ErrorKind::MissingMandatoryField);
    assert_eq!(e.offset, 22);
    let e = files_paragraph("Files: a\nCopyright: b\n\nLicense: MIT\n").unwrap_err();
    assert_eq!(e.kind, ErrorKind::MissingMandatoryField);
    assert_eq!(e.offset, 22);
}

#[test]
fn header_only_document_has_no_bodies() {
    let (rest, file) = copyright_file("Format: 1.0\n").unwrap();
    assert_eq!(rest, "");
    assert_eq!(file.header_paragraph.format, Format("1.0".to_string()));
    assert!(file.body_paragraphs.is_empty());
    let (_, file) = copyright_file("\n\nFormat: 1.0\nUpstream-Name: x\n\n  \n   ").unwrap();
    assert!(file.body_paragraphs.is_empty());
    let (_, file) = copyright_file("Format: 1.0").unwrap();
    assert!(file.body_paragraphs.is_empty());
}

#[test]
fn header_fields_in_any_order_give_the_same_header() {
    let (_, a) = header_paragraph(
        "Format: 1.0\nUpstream-Name: n\nUpstream-Contact: c\nSource: s\nDisclaimer: d\n d2\nComment: k\nLicense: MIT\nCopyright: 2020 x\n 2021 y\n",
    )
    .unwrap();
    let (_, b) = header_paragraph(
        "Copyright: 2020 x\n 2021 y\nLicense: MIT\nComment: k\nDisclaimer: d\n d2\nSource: s\nUpstream-Contact: c\nUpstream-Name: n\nFormat: 1.0\n",
    )
    .unwrap();
    assert_eq!(a, b);
    assert_eq!(a.format, Format("1.0".to_string()));
    assert_eq!(a.copyright, Some(Copyright(vec!["2020 x".to_string(), "2021 y".to_string()])));
    assert_eq!(a.license, Some(License("MIT".to_string())));
    assert_eq!(a.comment, Some(Comment("k".to_string())));
}

#[test]
fn header_stops_at_blank_line() {
    let (rest, header) = header_paragraph("Format: 1.0\nSource: s\n\nFiles: x\n").unwrap();
    assert_eq!(rest, "\nFiles: x\n");
    assert_eq!(header.format, Format("1.0".to_string()));
    let (rest, _) = header_paragraph("Format: 1.0\n \t\nFiles: x\n").unwrap();
    assert_eq!(rest, " \t\nFiles: x\n");
}

#[test]
fn header_with_unknown_field_is_refused() {
    let e = header_paragraph("Format: 1.0\nFiles: x\n").unwrap_err();
    assert_eq!(e.kind, ErrorKind::UnrecognizedField);
    assert_eq!(e.offset, 12);
    let e = copyright_file("\nFormat: 1.0\nBogus: x\n").unwrap_err();
    assert_eq!(e.kind, ErrorKind::UnrecognizedField);
    assert_eq!(e.offset, 13);
}

#[test]
fn header_with_repeated_field_is_refused() {
    let e = header_paragraph("Format: 1.0\nSource: a\nSource: b\n").unwrap_err();
    assert_eq!(e.kind, ErrorKind::TrailingContent);
    assert_eq!(e.offset, 22);
}

#[test]
fn header_with_continuation_of_single_line_field_is_refused() {
    let e = header_paragraph("Format: 1.0\n more\n").unwrap_err();
    assert_eq!(e.kind, ErrorKind::MalformedFieldName);
    assert_eq!(e.offset, 12);
}

#[test]
fn header_cut_short_inside_a_field_name() {
    let e = header_paragraph("Format: 1.0\nSour").unwrap_err();
    assert_eq!(e.kind, ErrorKind::UnexpectedEndOfInput);
    assert_eq!(e.offset, 16);
    let e = copyright_file("Form").unwrap_err();
    assert_eq!(e.kind, ErrorKind::UnexpectedEndOfInput);
    assert_eq!(e.offset, 4);
}

#[test]
fn header_with_lone_carriage_return_in_value() {
    let e = header_paragraph("Format: 1\r.0\n").unwrap_err();
    assert_eq!(e.kind, ErrorKind::TrailingContent);
    assert_eq!(e.offset, 9);
}

#[test]
fn files_paragraph_in_any_order() {
    let (rest, p) =
        files_paragraph("License: MIT\nComment: c\nCopyright: 2020 a\nFiles: *\n b\n\nrest")
            .unwrap();
    assert_eq!(rest, "\nrest");
    assert_eq!(
        p,
        FilesParagraph {
            files: Files(vec!["*".to_string(), "b".to_string()]),
            copyright: Copyright(vec!["2020 a".to_string()]),
            license: License("MIT".to_string()),
            comment: Some(Comment("c".to_string())),
        }
    );
}

#[test]
fn license_detail_paragraph_cleans_the_text() {
    let (rest, p) = license_detail_paragraph(
        "License: MIT\n Permission is hereby granted,   \n .\n   free of charge\n\nFiles: x\n",
    )
    .unwrap();
    assert_eq!(rest, "\nFiles: x\n");
    assert_eq!(p.name, "MIT");
    assert_eq!(p.text, "Permission is hereby granted,\n\n  free of charge");
}

#[test]
fn license_detail_paragraph_without_text() {
    let (_, p) = license_detail_paragraph("License: MIT").unwrap();
    assert_eq!(
        p,
        LicenseDetailParagraph {
            name: "MIT".to_string(),
            text: "".to_string()
        }
    );
    let (_, p) = license_detail_paragraph("License: MIT\r\n a\r\n").unwrap();
    assert_eq!(p.name, "MIT");
    assert_eq!(p.text, "a");
}

#[test]
fn license_detail_paragraph_with_other_field_is_refused() {
    let e = license_detail_paragraph("License: MIT\nComment: x\n").unwrap_err();
    assert_eq!(e.kind, ErrorKind::UnrecognizedField);
    assert_eq!(e.offset, 13);
    let e = license_detail_paragraph("Comment: x\n").unwrap_err();
    assert_eq!(e.kind, ErrorKind::UnrecognizedField);
    assert_eq!(e.offset, 0);
}

#[test]
fn license_detail_paragraph_with_mixed_indent_is_refused() {
    let e = license_detail_paragraph("License: MIT\n  a\n\tb\n").unwrap_err();
    assert_eq!(e.kind, ErrorKind::IndentationError);
    assert_eq!(e.offset, 17);
}

#[test]
fn body_paragraph_prefers_files_then_license() {
    let (_, p) = body_paragraph("\n \nFiles: a\nCopyright: b\nLicense: MIT\n").unwrap();
    assert!(matches!(p, BodyParagraph::Files(_)));
    let (_, p) = body_paragraph("License: MIT\n text\n").unwrap();
    assert!(matches!(p, BodyParagraph::LicenseDetail(_)));
}

#[test]
fn body_paragraph_of_neither_shape() {
    let e = body_paragraph("\n\nFormat: 1.0\n").unwrap_err();
    assert_eq!(e.kind, ErrorKind::NoMatchingParagraphType);
    assert_eq!(e.offset, 2);
    let e = body_paragraph("").unwrap_err();
    assert_eq!(e.kind, ErrorKind::NoMatchingParagraphType);
    assert_eq!(e.offset, 0);
    let e = body_paragraph("Copyright: b\nLicense: MIT\n").unwrap_err();
    assert_eq!(e.kind, ErrorKind::NoMatchingParagraphType);
    let e = body_paragraph("License: MIT\nComment: c\n").unwrap_err();
    assert_eq!(e.kind, ErrorKind::NoMatchingParagraphType);
    assert_eq!(e.offset, 0);
}

#[test]
fn stanza_with_files_field_fails_as_files_stanza() {
    let e = body_paragraph("\nFiles: a\nCopyright: b\n").unwrap_err();
    assert_eq!(e.kind, ErrorKind::MissingMandatoryField);
    assert_eq!(e.offset, 23);
    let e = copyright_file("Format: 1.0\n\nFiles: a\nCopyright: b\n").unwrap_err();
    assert_eq!(e.kind, ErrorKind::MissingMandatoryField);
    assert_eq!(e.offset, 35);
    let e = copyright_file("Format: 1.0\n\nCopyright: b\nFiles: a\n\nLicense: MIT\n").unwrap_err();
    assert_eq!(e.kind, ErrorKind::MissingMandatoryField);
    assert_eq!(e.offset, 35);
    let e = body_paragraph("Files: a\nBogus: b\n").unwrap_err();
    assert_eq!(e.kind, ErrorKind::UnrecognizedField);
    assert_eq!(e.offset, 9);
}

#[test]
fn stanza_of_one_license_field_fails_as_license_stanza() {
    let e = body_paragraph("\nLicense: MIT\n  a\n\tb\n").unwrap_err();
    assert_eq!(e.kind, ErrorKind::IndentationError);
    assert_eq!(e.offset, 18);
    let e = copyright_file("Format: 1.0\n\nLicense: MIT\n  a\n\tb\n").unwrap_err();
    assert_eq!(e.kind, ErrorKind::IndentationError);
    assert_eq!(e.offset, 30);
}

#[test]
fn document_with_second_header_is_refused() {
    let e = copyright_file("Format: 1.0\n\nFormat: 1.0\n").unwrap_err();
    assert_eq!(e.kind, ErrorKind::NoMatchingParagraphType);
    assert_eq!(e.offset, 13);
}

#[test]
fn document_with_crlf_line_ends() {
    let (rest, file) = copyright_file(
        "Format: 1.0\r\nUpstream-Name: n\r\n\r\nFiles: a\r\n b\r\nCopyright: c\r\nLicense: MIT\r\n\r\nLicense: MIT\r\n one\r\n .\r\n two\r\n",
    )
    .unwrap();
    assert_eq!(rest, "");
    assert_eq!(file.header_paragraph.format, Format("1.0".to_string()));
    assert_eq!(
        file.body_paragraphs,
        vec![
            BodyParagraph::Files(FilesParagraph {
                files: Files(vec!["a".to_string(), "b".to_string()]),
                copyright: Copyright(vec!["c".to_string()]),
                license: License("MIT".to_string()),
                comment: None,
            }),
            BodyParagraph::LicenseDetail(LicenseDetailParagraph {
                name: "MIT".to_string(),
                text: "one\n\ntwo".to_string(),
            }),
        ]
    );
}

#[test]
fn document_with_text_beyond_ascii() {
    let (_, file) = copyright_file(
        "Format: 1.0\nUpstream-Contact: Jos\u{e9} <j@example.org>\n\nFiles: docs/\u{4e2d}\u{6587}/*\nCopyright: \u{a9} 2020 Zo\u{eb}\nLicense: MIT\n",
    )
    .unwrap();
    assert_eq!(
        file.header_paragraph.upstream_contact.unwrap().0,
        "Jos\u{e9} <j@example.org>"
    );
    assert_eq!(
        file.body_paragraphs,
        vec![BodyParagraph::Files(FilesParagraph {
            files: Files(vec!["docs/\u{4e2d}\u{6587}/*".to_string()]),
            copyright: Copyright(vec!["\u{a9} 2020 Zo\u{eb}".to_string()]),
            license: License("MIT".to_string()),
            comment: None,
        })]
    );
}

#[test]
fn fields_with_empty_values() {
    let (_, header) = header_paragraph("Format:\nSource:   \nComment:\n").unwrap();
    assert_eq!(header.format, Format("".to_string()));
    assert_eq!(header.source.unwrap().0, "");
    assert_eq!(header.comment, Some(Comment("".to_string())));
}

#[test]
fn folded_field_takes_blank_looking_continuation_lines() {
    let (rest, header) = header_paragraph("Format: 1.0\nComment: a\n   \n b\n\nrest").unwrap();
    assert_eq!(header.comment, Some(Comment("a\n   \n b".to_string())));
    assert_eq!(rest, "\nrest");
}
