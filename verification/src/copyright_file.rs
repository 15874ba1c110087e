//! The stanzas of a `copyright` file and the document they form: one header
//! stanza, then files stanzas and license stanzas in any number and order.

pub mod fields;

use vstd::prelude::*;
use vstd::string::*;
use vstd::utf8::*;
use crate::control_file::{FieldExtent, FieldName, end_of_line_or_string, eol_len,
    named_field_extent};
use crate::copyright_file::fields::{Comment, Copyright, Disclaimer, Files, Format, License,
    ParseField, Source, UpstreamContact, UpstreamName, list_of, text_of, to_list, to_text};
use crate::error::{ErrorKind, Mismatch, ParseError};
use crate::field_order::{field_set, flat, lemma_field_order_is_irrelevant};
use crate::folded::{clean_multiline, cleaned, lemma_cleaned_within};
use crate::stanza::{FieldRule, Slots, holds_field, lemma_empty_stanza, lemma_stanza, raw_slots,
    stanza, stanza_fields, stanza_holds};
use crate::text::{ByteClass, byte_len, bytes_of, lemma_run_len, run_len, take_run, trimmed_end};

verus! {

/// The text that a slot stands for, if the slot is filled.
pub open spec fn text_in(slot: Option<Seq<u8>>) -> Option<Seq<char>> {
    match slot {
        Some(raw) => Some(text_of(raw)),
        None => None,
    }
}

/// The list that a slot stands for, if the slot is filled.
pub open spec fn list_in(slot: Option<Seq<u8>>) -> Option<Seq<Seq<char>>> {
    match slot {
        Some(raw) => Some(list_of(raw)),
        None => None,
    }
}

/// The first stanza of a file: what the file as a whole is about.
#[derive(Debug, Clone, PartialEq)]
pub struct HeaderParagraph {
    pub format: Format,
    pub upstream_name: Option<UpstreamName>,
    pub upstream_contact: Option<UpstreamContact>,
    pub source: Option<Source>,
    pub disclaimer: Option<Disclaimer>,
    pub comment: Option<Comment>,
    pub license: Option<License>,
    pub copyright: Option<Copyright>,
}

/// What a [`HeaderParagraph`] holds.
pub struct HeaderParagraphView {
    pub format: Seq<char>,
    pub upstream_name: Option<Seq<char>>,
    pub upstream_contact: Option<Seq<char>>,
    pub source: Option<Seq<char>>,
    pub disclaimer: Option<Seq<char>>,
    pub comment: Option<Seq<char>>,
    pub license: Option<Seq<char>>,
    pub copyright: Option<Seq<Seq<char>>>,
}

impl View for HeaderParagraph {
    type V = HeaderParagraphView;

    open spec fn view(&self) -> HeaderParagraphView {
        HeaderParagraphView {
            format: self.format@,
            upstream_name: match self.upstream_name {
                Some(v) => Some(v@),
                None => None,
            },
            upstream_contact: match self.upstream_contact {
                Some(v) => Some(v@),
                None => None,
            },
            source: match self.source {
                Some(v) => Some(v@),
                None => None,
            },
            disclaimer: match self.disclaimer {
                Some(v) => Some(v@),
                None => None,
            },
            comment: match self.comment {
                Some(v) => Some(v@),
                None => None,
            },
            license: match self.license {
                Some(v) => Some(v@),
                None => None,
            },
            copyright: match self.copyright {
                Some(v) => Some(v@),
                None => None,
            },
        }
    }
}

/// The fields of a header stanza: `Format` is mandatory, the others are not.
pub open spec fn header_rules() -> Seq<FieldRule> {
    seq![
        FieldRule { name: Format::NAME, folded: false, mandatory: true },
        FieldRule { name: UpstreamName::NAME, folded: false, mandatory: false },
        FieldRule { name: UpstreamContact::NAME, folded: false, mandatory: false },
        FieldRule { name: Source::NAME, folded: false, mandatory: false },
        FieldRule { name: Disclaimer::NAME, folded: true, mandatory: false },
        FieldRule { name: Comment::NAME, folded: true, mandatory: false },
        FieldRule { name: License::NAME, folded: true, mandatory: false },
        FieldRule { name: Copyright::NAME, folded: true, mandatory: false },
    ]
}

/// The header that the raw values `slots`, in the order of
/// [`header_rules`], stand for.
pub open spec fn header_of(slots: Slots) -> HeaderParagraphView {
    HeaderParagraphView {
        format: text_of(slots[0]->Some_0),
        upstream_name: text_in(slots[1]),
        upstream_contact: text_in(slots[2]),
        source: text_in(slots[3]),
        disclaimer: text_in(slots[4]),
        comment: text_in(slots[5]),
        license: text_in(slots[6]),
        copyright: list_in(slots[7]),
    }
}

/// The table of [`header_rules`].
pub fn header_table() -> (rules: Vec<FieldRule>)
    ensures
        rules@ == header_rules(),
{
    let rules: Vec<FieldRule> = vec![
        FieldRule { name: Format::NAME, folded: false, mandatory: true },
        FieldRule { name: UpstreamName::NAME, folded: false, mandatory: false },
        FieldRule { name: UpstreamContact::NAME, folded: false, mandatory: false },
        FieldRule { name: Source::NAME, folded: false, mandatory: false },
        FieldRule { name: Disclaimer::NAME, folded: true, mandatory: false },
        FieldRule { name: Comment::NAME, folded: true, mandatory: false },
        FieldRule { name: License::NAME, folded: true, mandatory: false },
        FieldRule { name: Copyright::NAME, folded: true, mandatory: false },
    ];
    proof {
        assert(rules@ =~= header_rules());
    }
    rules
}

/// The header stanza at the head of `s`, and its length.
pub open spec fn header_stanza(s: Seq<u8>) -> Result<(HeaderParagraphView, nat), Mismatch> {
    match stanza(s, header_rules()) {
        Ok((slots, n)) => Ok((header_of(slots), n)),
        Err(m) => Err(m),
    }
}

/// The header stanza at the head of `input`: its fields in any order, up to
/// the end of input or the next line that holds nothing but blanks.
pub fn header_paragraph(input: &str) -> (r: Result<(&str, HeaderParagraph), ParseError>)
    ensures
        match r {
            Ok((rest, header)) => header_stanza(input.spec_bytes()) matches Ok((v, n)) && header@
                == v && rest.spec_bytes() == input.spec_bytes().skip(n as int),
            Err(e) => header_stanza(input.spec_bytes()) == Err::<
                (HeaderParagraphView, nat),
                Mismatch,
            >(e@),
        },
{
    let rules = header_table();
    match stanza_fields(input, rules.as_slice()) {
        Err(e) => Err(e),
        Ok((rest, slots)) => {
            proof {
                lemma_stanza(input.spec_bytes(), header_rules());
                assert(header_rules()[0].mandatory);
                assert(slots@.len() == raw_slots(slots@).len());
            }
            let header = HeaderParagraph {
                format: Format(to_text(slots[0].unwrap())),
                upstream_name: match slots[1] {
                    Some(v) => Some(UpstreamName(to_text(v))),
                    None => None,
                },
                upstream_contact: match slots[2] {
                    Some(v) => Some(UpstreamContact(to_text(v))),
                    None => None,
                },
                source: match slots[3] {
                    Some(v) => Some(Source(to_text(v))),
                    None => None,
                },
                disclaimer: match slots[4] {
                    Some(v) => Some(Disclaimer(to_text(v))),
                    None => None,
                },
                comment: match slots[5] {
                    Some(v) => Some(Comment(to_text(v))),
                    None => None,
                },
                license: match slots[6] {
                    Some(v) => Some(License(to_text(v))),
                    None => None,
                },
                copyright: match slots[7] {
                    Some(v) => Some(Copyright(to_list(v))),
                    None => None,
                },
            };
            Ok((rest, header))
        },
    }
}

/// The order of the fields in a header stanza does not matter: the same
/// fields, each written out whole and none twice, give the same header in
/// any order; and if the header lacks `Format` in one order, it does in any.
/// Nothing else can fail in a stanza of such fields.
pub proof fn lemma_header_field_order_is_irrelevant(a: Seq<Seq<u8>>, b: Seq<Seq<u8>>)
    requires
        field_set(a, header_rules()),
        a.to_multiset() == b.to_multiset(),
    ensures
        header_stanza(flat(a)) == header_stanza(flat(b)),
        header_stanza(flat(a)) matches Err(m) ==> m.kind == ErrorKind::MissingMandatoryField,
{
    lemma_field_order_is_irrelevant(a, b, header_rules());
}

/// A stanza that says who holds the copyright in some files, and under which
/// license.
#[derive(Debug, Clone, PartialEq)]
pub struct FilesParagraph {
    pub files: Files,
    pub copyright: Copyright,
    pub license: License,
    pub comment: Option<Comment>,
}

/// What a [`FilesParagraph`] holds.
pub struct FilesParagraphView {
    pub files: Seq<Seq<char>>,
    pub copyright: Seq<Seq<char>>,
    pub license: Seq<char>,
    pub comment: Option<Seq<char>>,
}

impl View for FilesParagraph {
    type V = FilesParagraphView;

    open spec fn view(&self) -> FilesParagraphView {
        FilesParagraphView {
            files: self.files@,
            copyright: self.copyright@,
            license: self.license@,
            comment: match self.comment {
                Some(v) => Some(v@),
                None => None,
            },
        }
    }
}

/// The fields of a files stanza: `Files`, `Copyright` and `License` are
/// mandatory, `Comment` is not.
pub open spec fn files_rules() -> Seq<FieldRule> {
    seq![
        FieldRule { name: Files::NAME, folded: true, mandatory: true },
        FieldRule { name: Copyright::NAME, folded: true, mandatory: true },
        FieldRule { name: License::NAME, folded: true, mandatory: true },
        FieldRule { name: Comment::NAME, folded: true, mandatory: false },
    ]
}

/// The files stanza that the raw values `slots`, in the order of
/// [`files_rules`], stand for.
pub open spec fn files_of(slots: Slots) -> FilesParagraphView {
    FilesParagraphView {
        files: list_of(slots[0]->Some_0),
        copyright: list_of(slots[1]->Some_0),
        license: text_of(slots[2]->Some_0),
        comment: text_in(slots[3]),
    }
}

/// The table of [`files_rules`].
pub fn files_table() -> (rules: Vec<FieldRule>)
    ensures
        rules@ == files_rules(),
{
    let rules: Vec<FieldRule> = vec![
        FieldRule { name: Files::NAME, folded: true, mandatory: true },
        FieldRule { name: Copyright::NAME, folded: true, mandatory: true },
        FieldRule { name: License::NAME, folded: true, mandatory: true },
        FieldRule { name: Comment::NAME, folded: true, mandatory: false },
    ];
    proof {
        assert(rules@ =~= files_rules());
    }
    rules
}

/// The files stanza at the head of `s`, and its length.
pub open spec fn files_stanza(s: Seq<u8>) -> Result<(FilesParagraphView, nat), Mismatch> {
    match stanza(s, files_rules()) {
        Ok((slots, n)) => Ok((files_of(slots), n)),
        Err(m) => Err(m),
    }
}

/// The files stanza at the head of `input`: its fields in any order, up to
/// the end of input or the next line that holds nothing but blanks.
pub fn files_paragraph(input: &str) -> (r: Result<(&str, FilesParagraph), ParseError>)
    ensures
        match r {
            Ok((rest, files)) => files_stanza(input.spec_bytes()) matches Ok((v, n)) && files@ == v
                && rest.spec_bytes() == input.spec_bytes().skip(n as int),
            Err(e) => files_stanza(input.spec_bytes()) == Err::<(FilesParagraphView, nat), Mismatch>(
                e@,
            ),
        },
{
    let rules = files_table();
    match stanza_fields(input, rules.as_slice()) {
        Err(e) => Err(e),
        Ok((rest, slots)) => {
            proof {
                lemma_stanza(input.spec_bytes(), files_rules());
                assert(files_rules()[0].mandatory);
                assert(files_rules()[1].mandatory);
                assert(files_rules()[2].mandatory);
                assert(slots@.len() == raw_slots(slots@).len());
            }
            let files = FilesParagraph {
                files: Files(to_list(slots[0].unwrap())),
                copyright: Copyright(to_list(slots[1].unwrap())),
                license: License(to_text(slots[2].unwrap())),
                comment: match slots[3] {
                    Some(v) => Some(Comment(to_text(v))),
                    None => None,
                },
            };
            Ok((rest, files))
        },
    }
}

/// The order of the fields in a files stanza does not matter: the same
/// fields, each written out whole and none twice, give the same stanza in
/// any order; and if a mandatory field is missing in one order, it is in any.
/// Nothing else can fail in a stanza of such fields.
pub proof fn lemma_files_field_order_is_irrelevant(a: Seq<Seq<u8>>, b: Seq<Seq<u8>>)
    requires
        field_set(a, files_rules()),
        a.to_multiset() == b.to_multiset(),
    ensures
        files_stanza(flat(a)) == files_stanza(flat(b)),
        files_stanza(flat(a)) matches Err(m) ==> m.kind == ErrorKind::MissingMandatoryField,
{
    lemma_field_order_is_irrelevant(a, b, files_rules());
}

/// A stanza that gives the text of a license under the short name by which
/// other stanzas refer to it.
#[derive(Debug, Clone, PartialEq)]
pub struct LicenseDetailParagraph {
    pub name: String,
    pub text: String,
}

/// What a [`LicenseDetailParagraph`] holds.
pub struct LicenseDetailParagraphView {
    pub name: Seq<char>,
    pub text: Seq<char>,
}

impl View for LicenseDetailParagraph {
    type V = LicenseDetailParagraphView;

    open spec fn view(&self) -> LicenseDetailParagraphView {
        LicenseDetailParagraphView { name: self.name@, text: self.text@ }
    }
}

/// The one field of a license stanza.
pub open spec fn license_rules() -> Seq<FieldRule> {
    seq![FieldRule { name: License::NAME, folded: true, mandatory: true }]
}

/// The table of [`license_rules`].
pub fn license_table() -> (rules: Vec<FieldRule>)
    ensures
        rules@ == license_rules(),
{
    let rules: Vec<FieldRule> = vec![FieldRule { name: License::NAME, folded: true, mandatory: true }];
    proof {
        assert(rules@ =~= license_rules());
    }
    rules
}

/// `lines` with a line feed between each two of them.
pub open spec fn joined(lines: Seq<Seq<char>>) -> Seq<char>
    decreases lines.len(),
{
    if lines.len() == 0 {
        Seq::empty()
    } else if lines.len() == 1 {
        lines[0]
    } else {
        joined(lines.drop_last()) + seq!['\n'] + lines.last()
    }
}

/// The text of the logical lines `lines`, each without the white space at
/// its end, its terminator included.
pub open spec fn right_trimmed(lines: Seq<Seq<u8>>) -> Seq<Seq<char>> {
    Seq::new(lines.len(), |i: int| trimmed_end(decode_utf8(lines[i])))
}

/// The license that the logical lines of a `License` field stand for: the
/// first line is the short name, the others are the text.
pub open spec fn detail_of(lines: Seq<Seq<u8>>) -> LicenseDetailParagraphView {
    LicenseDetailParagraphView {
        name: text_of(lines[0]),
        text: joined(right_trimmed(lines.skip(1))),
    }
}

/// The license stanza at the head of `s`, and its length: a stanza of one
/// `License` field, whose value is cleaned of its folding.
pub open spec fn license_detail_stanza(s: Seq<u8>) -> Result<
    (LicenseDetailParagraphView, nat),
    Mismatch,
> {
    match stanza(s, license_rules()) {
        Err(m) => Err(m),
        Ok((slots, n)) => {
            let raw = slots[0]->Some_0;
            match cleaned(raw) {
                Err(m) => Err(m.shift(n - raw.len())),
                Ok(lines) => Ok((detail_of(lines), n)),
            }
        },
    }
}

/// The lines from the second on, each without the white space at its end,
/// with a line feed between each two of them.
fn join_text(lines: &Vec<&str>) -> (text: String)
    requires
        lines@.len() >= 1,
    ensures
        text@ == joined(right_trimmed(bytes_of(lines@).skip(1))),
{
    let ghost all = right_trimmed(bytes_of(lines@).skip(1));
    let mut text = String::new();
    let mut i: usize = 1;
    proof {
        assert(all.take(0) =~= Seq::<Seq<char>>::empty());
    }
    while i < lines.len()
        invariant
            1 <= i <= lines@.len(),
            all == right_trimmed(bytes_of(lines@).skip(1)),
            text@ == joined(all.take(i - 1)),
        decreases lines@.len() - i,
    {
        let line = lines[i].trim_end();
        proof {
            reveal_strlit("\n");
            encode_utf8_decode_utf8(lines@[i as int]@);
            assert(all.take(i as int).drop_last() =~= all.take(i - 1));
            assert(all.take(i as int).last() == line@);
            assert(("\n")@ =~= seq!['\n']);
        }
        if i > 1 {
            text.append("\n");
        } else {
            proof {
                assert(Seq::<char>::empty() + line@ =~= line@);
            }
        }
        text.append(line);
        i = i + 1;
    }
    proof {
        assert(all.take(i - 1) =~= all);
    }
    text
}

/// The license stanza at the head of `input`: one folded `License` field and
/// no other, up to the end of input or the next line that holds nothing but
/// blanks. The first line of the field is the license's short name; the
/// other lines, cleaned of their folding and of the white space at their
/// ends, are its text.
pub fn license_detail_paragraph(input: &str) -> (r: Result<
    (&str, LicenseDetailParagraph),
    ParseError,
>)
    ensures
        match r {
            Ok((rest, detail)) => license_detail_stanza(input.spec_bytes()) matches Ok((v, n))
                && detail@ == v && rest.spec_bytes() == input.spec_bytes().skip(n as int),
            Err(e) => license_detail_stanza(input.spec_bytes()) == Err::<
                (LicenseDetailParagraphView, nat),
                Mismatch,
            >(e@),
        },
{
    let rules = license_table();
    match stanza_fields(input, rules.as_slice()) {
        Err(e) => Err(e),
        Ok((rest, slots)) => {
            proof {
                lemma_stanza(input.spec_bytes(), license_rules());
                assert(license_rules()[0].mandatory);
                assert(slots@.len() == raw_slots(slots@).len());
            }
            let raw = slots[0].unwrap();
            let at = byte_len(input) - byte_len(rest) - byte_len(raw);
            match clean_multiline(raw) {
                Err(e) => {
                    proof {
                        lemma_cleaned_within(raw.spec_bytes());
                    }
                    Err(e.shifted(at))
                },
                Ok((_, lines)) => {
                    proof {
                        assert(bytes_of(lines@).len() == lines@.len());
                        assert(bytes_of(lines@)[0] == lines@[0].spec_bytes());
                    }
                    let detail = LicenseDetailParagraph {
                        name: to_text(lines[0]),
                        text: join_text(&lines),
                    };
                    Ok((rest, detail))
                },
            }
        },
    }
}

/// A stanza behind the header: about files, or about a license.
#[derive(Debug, Clone, PartialEq)]
pub enum BodyParagraph {
    Files(FilesParagraph),
    LicenseDetail(LicenseDetailParagraph),
}

/// What a [`BodyParagraph`] holds.
pub enum BodyParagraphView {
    Files(FilesParagraphView),
    LicenseDetail(LicenseDetailParagraphView),
}

impl View for BodyParagraph {
    type V = BodyParagraphView;

    open spec fn view(&self) -> BodyParagraphView {
        match self {
            BodyParagraph::Files(p) => BodyParagraphView::Files(p@),
            BodyParagraph::LicenseDetail(p) => BodyParagraphView::LicenseDetail(p@),
        }
    }
}

/// The length of the separating line at the head of `s`: blanks, then a line
/// terminator. 0 where no such line stands.
pub open spec fn blank_line_len(s: Seq<u8>) -> nat {
    let k = run_len(s, ByteClass::Blank);
    match eol_len(s.skip(k as int)) {
        Ok(e) => if e > 0 {
            k + e
        } else {
            0
        },
        Err(_) => 0,
    }
}

/// The total length of the separating lines at the head of `s`.
pub open spec fn blank_lines_len(s: Seq<u8>) -> nat
    decreases s.len(),
{
    let n = blank_line_len(s);
    proof {
        lemma_run_len(s, ByteClass::Blank);
    }
    if n > 0 {
        n + blank_lines_len(s.skip(n as int))
    } else {
        0
    }
}

/// The separating lines lie within the text.
pub proof fn lemma_blank_lines_len(s: Seq<u8>)
    ensures
        blank_lines_len(s) <= s.len(),
    decreases s.len(),
{
    lemma_run_len(s, ByteClass::Blank);
    if blank_line_len(s) > 0 {
        lemma_blank_lines_len(s.skip(blank_line_len(s) as int));
    }
}

/// What is left of `input` behind the separating lines at its head.
pub fn skip_blank_lines(input: &str) -> (rest: &str)
    ensures
        rest.spec_bytes() == input.spec_bytes().skip(blank_lines_len(input.spec_bytes()) as int),
{
    let ghost s = input.spec_bytes();
    let mut cur: &str = input;
    let ghost mut k: int = 0;
    proof {
        assert(s.skip(0) =~= s);
    }
    loop
        invariant
            0 <= k <= s.len(),
            cur.spec_bytes() == s.skip(k),
            blank_lines_len(s) == k + blank_lines_len(cur.spec_bytes()),
        ensures
            cur.spec_bytes() == s.skip(k),
            blank_lines_len(s) == k,
        decreases cur.spec_bytes().len(),
    {
        let ghost c = cur.spec_bytes();
        let (tail, _) = take_run(cur, ByteClass::Blank);
        proof {
            lemma_run_len(c, ByteClass::Blank);
        }
        match end_of_line_or_string(tail) {
            Err(_) => {
                break ;
            },
            Ok((next, eol)) => {
                if byte_len(eol) == 0 {
                    break ;
                }
                proof {
                    let n = blank_line_len(c) as int;
                    assert(next.spec_bytes() =~= c.skip(n));
                    assert(next.spec_bytes() =~= s.skip(k + n));
                    k = k + n;
                }
                cur = next;
            },
        }
    }
    cur
}

/// The body stanza at the head of `s`, behind any separating lines, and the
/// length of both.
///
/// The stanza is a files stanza if it is a well-formed one; if it is none
/// but holds a `Files` field, it fails as a files stanza. Else it is a license
/// stanza if it is a well-formed one; if it is none but consists of one
/// `License` field, it fails as a license stanza. Any other stanza is of no
/// known type.
pub open spec fn body_stanza(s: Seq<u8>) -> Result<(BodyParagraphView, nat), Mismatch> {
    let b = blank_lines_len(s);
    let t = s.skip(b as int);
    match files_stanza(t) {
        Ok((files, n)) => Ok((BodyParagraphView::Files(files), b + n)),
        Err(m) => if stanza_holds(t, files_rules(), 0) {
            Err(m.shift(b as int))
        } else {
            match license_detail_stanza(t) {
                Ok((detail, n)) => Ok((BodyParagraphView::LicenseDetail(detail), b + n)),
                Err(m) => if stanza(t, license_rules()) is Ok {
                    Err(m.shift(b as int))
                } else {
                    Err(Mismatch { kind: ErrorKind::NoMatchingParagraphType, at: b as int })
                },
            }
        },
    }
}

/// A failure of a license stanza lies within the text.
pub proof fn lemma_license_detail_stanza(s: Seq<u8>)
    ensures
        match license_detail_stanza(s) {
            Ok((_, n)) => 0 < n <= s.len(),
            Err(m) => 0 <= m.at <= s.len(),
        },
{
    lemma_stanza(s, license_rules());
    assert(license_rules()[0].mandatory);
    if let Ok((slots, n)) = stanza(s, license_rules()) {
        lemma_cleaned_within(slots[0]->Some_0);
    }
}

/// A body stanza is not empty, and lies within the text; so does the place
/// of a failure.
pub proof fn lemma_body_stanza(s: Seq<u8>)
    ensures
        match body_stanza(s) {
            Ok((_, n)) => 0 < n <= s.len(),
            Err(m) => 0 <= m.at <= s.len(),
        },
{
    let b = blank_lines_len(s);
    let t = s.skip(b as int);
    lemma_blank_lines_len(s);
    lemma_stanza(t, files_rules());
    lemma_license_detail_stanza(t);
    assert(files_rules()[0].mandatory);
}

/// The body stanza at the head of `input`, behind any separating lines: a
/// files stanza or a license stanza. A stanza that holds a `Files` field
/// fails as a files stanza fails, one that consists of one `License` field as
/// a license stanza fails, any other as a stanza of no known type.
pub fn body_paragraph(input: &str) -> (r: Result<(&str, BodyParagraph), ParseError>)
    ensures
        match r {
            Ok((rest, body)) => body_stanza(input.spec_bytes()) matches Ok((v, n)) && body@ == v
                && rest.spec_bytes() == input.spec_bytes().skip(n as int),
            Err(e) => body_stanza(input.spec_bytes()) == Err::<(BodyParagraphView, nat), Mismatch>(
                e@,
            ),
        },
{
    let ghost s = input.spec_bytes();
    let start = skip_blank_lines(input);
    proof {
        lemma_blank_lines_len(s);
        lemma_stanza(start.spec_bytes(), files_rules());
        lemma_license_detail_stanza(start.spec_bytes());
    }
    let skipped = byte_len(input) - byte_len(start);
    let files_failure = match files_paragraph(start) {
        Ok((rest, files)) => {
            proof {
                let n = files_stanza(start.spec_bytes())->Ok_0.1;
                assert(rest.spec_bytes() =~= s.skip((blank_lines_len(s) + n) as int));
            }
            return Ok((rest, BodyParagraph::Files(files)));
        },
        Err(e) => e,
    };
    let files_table = files_table();
    if holds_field(start, files_table.as_slice(), 0) {
        return Err(files_failure.shifted(skipped));
    }
    let license_failure = match license_detail_paragraph(start) {
        Ok((rest, detail)) => {
            proof {
                let n = license_detail_stanza(start.spec_bytes())->Ok_0.1;
                assert(rest.spec_bytes() =~= s.skip((blank_lines_len(s) + n) as int));
            }
            return Ok((rest, BodyParagraph::LicenseDetail(detail)));
        },
        Err(e) => e,
    };
    let license_table = license_table();
    if stanza_fields(start, license_table.as_slice()).is_ok() {
        Err(license_failure.shifted(skipped))
    } else {
        Err(ParseError::new(ErrorKind::NoMatchingParagraphType, skipped))
    }
}

/// A whole `copyright` file.
#[derive(Debug, Clone, PartialEq)]
pub struct CopyrightFile {
    pub header_paragraph: HeaderParagraph,
    pub body_paragraphs: Vec<BodyParagraph>,
}

/// What a [`CopyrightFile`] holds.
pub struct CopyrightFileView {
    pub header_paragraph: HeaderParagraphView,
    pub body_paragraphs: Seq<BodyParagraphView>,
}

/// What each of `bodies` holds.
pub open spec fn body_views(bodies: Seq<BodyParagraph>) -> Seq<BodyParagraphView> {
    Seq::new(bodies.len(), |i: int| bodies[i]@)
}

impl View for CopyrightFile {
    type V = CopyrightFileView;

    open spec fn view(&self) -> CopyrightFileView {
        CopyrightFileView {
            header_paragraph: self.header_paragraph@,
            body_paragraphs: body_views(self.body_paragraphs@),
        }
    }
}

/// Whether nothing but separating lines and blanks is left in `s`.
pub open spec fn only_blank(s: Seq<u8>) -> bool {
    let t = s.skip(blank_lines_len(s) as int);
    run_len(t, ByteClass::Blank) == t.len()
}

/// The body stanzas that `s` holds up to its end, in their order.
pub open spec fn body_stanzas(s: Seq<u8>) -> Result<Seq<BodyParagraphView>, Mismatch>
    decreases s.len(),
{
    if only_blank(s) {
        Ok(Seq::empty())
    } else {
        match body_stanza(s) {
            Err(m) => Err(m),
            Ok((body, n)) => {
                proof {
                    lemma_body_stanza(s);
                }
                match body_stanzas(s.skip(n as int)) {
                    Err(m) => Err(m.shift(n as int)),
                    Ok(more) => Ok(seq![body] + more),
                }
            },
        }
    }
}

/// A failure among the body stanzas lies within the text.
pub proof fn lemma_body_stanzas_within(s: Seq<u8>)
    ensures
        body_stanzas(s) matches Err(m) ==> 0 <= m.at <= s.len(),
    decreases s.len(),
{
    if !only_blank(s) {
        lemma_body_stanza(s);
        if let Ok((_, n)) = body_stanza(s) {
            lemma_body_stanzas_within(s.skip(n as int));
        }
    }
}

/// The document that `s` holds: separating lines, a header stanza, then body
/// stanzas, each behind separating lines, and nothing but blank lines behind
/// the last stanza.
pub open spec fn document(s: Seq<u8>) -> Result<CopyrightFileView, Mismatch> {
    let b = blank_lines_len(s);
    match header_stanza(s.skip(b as int)) {
        Err(m) => Err(m.shift(b as int)),
        Ok((header, n)) => match body_stanzas(s.skip((b + n) as int)) {
            Err(m) => Err(m.shift((b + n) as int)),
            Ok(bodies) => Ok(
                CopyrightFileView { header_paragraph: header, body_paragraphs: bodies },
            ),
        },
    }
}

/// A text of blank lines alone is no document: it lacks the header's
/// `Format`. The empty text is such a text.
pub proof fn lemma_document_without_header(s: Seq<u8>)
    requires
        only_blank(s),
    ensures
        document(s) == Err::<CopyrightFileView, Mismatch>(
            Mismatch { kind: ErrorKind::MissingMandatoryField, at: blank_lines_len(s) as int },
        ),
{
    let t = s.skip(blank_lines_len(s) as int);
    assert(t.skip(t.len() as int) =~= Seq::<u8>::empty());
    assert(header_rules()[0].mandatory);
    lemma_empty_stanza(t, header_rules());
}

/// A document that ends behind its header stanza, but for blank lines, holds
/// that header and no body stanza.
pub proof fn lemma_header_only_document(s: Seq<u8>)
    requires
        header_stanza(s.skip(blank_lines_len(s) as int)) matches Ok((_, n)) && only_blank(
            s.skip((blank_lines_len(s) + n) as int),
        ),
    ensures
        document(s) == Ok::<CopyrightFileView, Mismatch>(
            CopyrightFileView {
                header_paragraph: header_stanza(s.skip(blank_lines_len(s) as int))->Ok_0.0,
                body_paragraphs: Seq::empty(),
            },
        ),
{
}

/// Whether nothing but separating lines and blanks is left in `input`;
/// returns the empty end of `input` then.
fn blank_end(input: &str) -> (r: Option<&str>)
    ensures
        match r {
            Some(rest) => only_blank(input.spec_bytes()) && rest.spec_bytes().len() == 0,
            None => !only_blank(input.spec_bytes()),
        },
{
    let start = skip_blank_lines(input);
    let (rest, _) = take_run(start, ByteClass::Blank);
    proof {
        lemma_run_len(start.spec_bytes(), ByteClass::Blank);
    }
    if byte_len(rest) == 0 {
        Some(rest)
    } else {
        None
    }
}

/// The body stanzas that `input` holds up to its end, in their order. On
/// success nothing is left of the input.
pub fn body_paragraphs(input: &str) -> (r: Result<(&str, Vec<BodyParagraph>), ParseError>)
    ensures
        match r {
            Ok((rest, bodies)) => body_stanzas(input.spec_bytes()) == Ok::<
                Seq<BodyParagraphView>,
                Mismatch,
            >(body_views(bodies@)) && rest.spec_bytes().len() == 0,
            Err(e) => body_stanzas(input.spec_bytes()) == Err::<Seq<BodyParagraphView>, Mismatch>(
                e@,
            ),
        },
{
    let ghost s = input.spec_bytes();
    let total = byte_len(input);
    let mut bodies: Vec<BodyParagraph> = Vec::new();
    let mut cur: &str = input;
    let ghost mut k: int = 0;
    proof {
        assert(s.skip(0) =~= s);
        assert(body_views(bodies@) =~= Seq::<BodyParagraphView>::empty());
    }
    loop
        invariant
            s == input.spec_bytes(),
            total == s.len(),
            0 <= k <= s.len(),
            cur.spec_bytes() == s.skip(k),
            body_stanzas(s) == match body_stanzas(cur.spec_bytes()) {
                Ok(more) => Ok::<Seq<BodyParagraphView>, Mismatch>(body_views(bodies@) + more),
                Err(m) => Err(m.shift(k)),
            },
        decreases cur.spec_bytes().len(),
    {
        let ghost c = cur.spec_bytes();
        let ghost before = body_views(bodies@);
        if let Some(rest) = blank_end(cur) {
            proof {
                assert(before + Seq::<BodyParagraphView>::empty() =~= before);
            }
            return Ok((rest, bodies));
        }
        proof {
            lemma_body_stanza(c);
        }
        match body_paragraph(cur) {
            Err(e) => {
                return Err(e.shifted(total - byte_len(cur)));
            },
            Ok((next, body)) => {
                let ghost n = body_stanza(c)->Ok_0.1 as int;
                bodies.push(body);
                proof {
                    assert(body_views(bodies@) =~= before.push(body@));
                    assert(next.spec_bytes() =~= s.skip(k + n));
                    match body_stanzas(next.spec_bytes()) {
                        Ok(more) => {
                            assert(before + (seq![body@] + more) =~= body_views(bodies@) + more);
                        },
                        Err(_) => {},
                    }
                    k = k + n;
                }
                cur = next;
            },
        }
    }
}

/// A whole `copyright` file: a header stanza, then any number of files
/// stanzas and license stanzas, in the order in which they stand. Blank
/// lines may come first, separate the stanzas, and come last. On success
/// nothing is left of the input.
pub fn copyright_file(input: &str) -> (r: Result<(&str, CopyrightFile), ParseError>)
    ensures
        match r {
            Ok((rest, file)) => document(input.spec_bytes()) == Ok::<CopyrightFileView, Mismatch>(
                file@,
            ) && rest.spec_bytes().len() == 0,
            Err(e) => document(input.spec_bytes()) == Err::<CopyrightFileView, Mismatch>(e@),
        },
{
    let ghost s = input.spec_bytes();
    let total = byte_len(input);
    let start = skip_blank_lines(input);
    let ghost b = blank_lines_len(s) as int;
    proof {
        lemma_blank_lines_len(s);
        lemma_stanza(start.spec_bytes(), header_rules());
    }
    let (after, header) = match header_paragraph(start) {
        Ok(x) => x,
        Err(e) => {
            return Err(e.shifted(total - byte_len(start)));
        },
    };
    proof {
        let h = header_stanza(s.skip(b))->Ok_0.1 as int;
        assert(after.spec_bytes() =~= s.skip(b + h));
        lemma_body_stanzas_within(after.spec_bytes());
    }
    match body_paragraphs(after) {
        Err(e) => Err(e.shifted(total - byte_len(after))),
        Ok((rest, bodies)) => Ok(
            (rest, CopyrightFile { header_paragraph: header, body_paragraphs: bodies }),
        ),
    }
}

/// The `Format` field at the head of `input`.
pub fn format(input: &str) -> (r: Result<(&str, Format), ParseError>)
    ensures
        match r {
            Ok((rest, field)) => named_field_extent(
                input.spec_bytes(),
                Format::NAME.spec_bytes(),
                false,
            ) matches Ok(x) && rest.spec_bytes() == input.spec_bytes().skip(x.end as int) && field@
                == text_of(input.spec_bytes().subrange(x.value as int, x.end as int)),
            Err(e) => named_field_extent(input.spec_bytes(), Format::NAME.spec_bytes(), false)
                == Err::<FieldExtent, Mismatch>(e@),
        },
{
    Format::parse(input)
}

/// The `Upstream-Name` field at the head of `input`.
pub fn upstream_name(input: &str) -> (r: Result<(&str, UpstreamName), ParseError>)
    ensures
        match r {
            Ok((rest, field)) => named_field_extent(
                input.spec_bytes(),
                UpstreamName::NAME.spec_bytes(),
                false,
            ) matches Ok(x) && rest.spec_bytes() == input.spec_bytes().skip(x.end as int) && field@
                == text_of(input.spec_bytes().subrange(x.value as int, x.end as int)),
            Err(e) => named_field_extent(input.spec_bytes(), UpstreamName::NAME.spec_bytes(), false)
                == Err::<FieldExtent, Mismatch>(e@),
        },
{
    UpstreamName::parse(input)
}

} // verus!
