//! The typed fields of a `copyright` file, and how the raw value of a field
//! becomes the text or the list that the field stands for.

use vstd::prelude::*;
use vstd::string::*;
use vstd::utf8::*;
use crate::control_file::{FieldExtent, FieldName, named_field_extent, named_multi_line_field,
    named_single_line_field, yields_value};
use crate::error::{Mismatch, ParseError};
use crate::text::{ByteClass, byte_len, is_white_space, lemma_boundary_after_ascii, lemma_run_len,
    lemma_str_bytes_valid, lemma_trimmed, run_len, scan, trimmed, trimmed_end};

verus! {

/// The text that the raw value of a field stands for: the value without the
/// white space at its end, its final line terminator included. The raw value
/// of a folded field keeps the terminators and the indentation of its inner
/// lines.
pub open spec fn text_of(raw: Seq<u8>) -> Seq<char> {
    trimmed_end(decode_utf8(raw))
}

/// The length of the first line of `s` as a list is split: up to and with
/// the first line feed, or all of `s` where it holds none.
pub open spec fn entry_len(s: Seq<u8>) -> nat {
    let n = run_len(s, ByteClass::Line);
    if n < s.len() {
        n + 1
    } else {
        n
    }
}

/// The list that the raw value of a field stands for: each of its lines
/// without the white space around it, and without the lines that are empty
/// then. Order and duplicates stay.
pub open spec fn list_of(raw: Seq<u8>) -> Seq<Seq<char>>
    decreases raw.len(),
{
    if raw.len() == 0 {
        Seq::empty()
    } else {
        let n = entry_len(raw) as int;
        let entry = trimmed(decode_utf8(raw.take(n)));
        proof {
            lemma_run_len(raw, ByteClass::Line);
        }
        if entry.len() > 0 {
            seq![entry] + list_of(raw.skip(n))
        } else {
            list_of(raw.skip(n))
        }
    }
}

/// Whether `entry` can stand in a list: it is not empty, and no white space
/// stands at its start or at its end.
pub open spec fn is_entry(entry: Seq<char>) -> bool {
    entry.len() > 0 && !is_white_space(entry[0]) && !is_white_space(entry.last())
}

/// Every entry of a list is one: none is empty, none has white space around
/// it.
pub proof fn lemma_list_of(raw: Seq<u8>)
    ensures
        forall|i: int| 0 <= i < list_of(raw).len() ==> is_entry(#[trigger] list_of(raw)[i]),
    decreases raw.len(),
{
    if raw.len() > 0 {
        let n = entry_len(raw) as int;
        lemma_run_len(raw, ByteClass::Line);
        let entry = trimmed(decode_utf8(raw.take(n)));
        let more = list_of(raw.skip(n));
        lemma_trimmed(decode_utf8(raw.take(n)));
        lemma_list_of(raw.skip(n));
        assert forall|i: int| 0 <= i < list_of(raw).len() implies is_entry(
            #[trigger] list_of(raw)[i],
        ) by {
            if entry.len() > 0 && i > 0 {
                assert(list_of(raw)[i] == more[i - 1]);
            }
        }
    }
}

/// The text that a raw value stands for does not end with white space.
pub proof fn lemma_text_of(raw: Seq<u8>)
    ensures
        text_of(raw).len() == 0 || !is_white_space(text_of(raw).last()),
{
    lemma_trimmed(decode_utf8(raw));
}

/// The text that the raw value `value` stands for.
pub fn to_text(value: &str) -> (r: String)
    ensures
        r@ == text_of(value.spec_bytes()),
{
    proof {
        encode_utf8_decode_utf8(value@);
    }
    value.trim_end().to_owned()
}

/// The list that the raw value `value` stands for.
pub fn to_list(value: &str) -> (r: Vec<String>)
    ensures
        r.deep_view() == list_of(value.spec_bytes()),
{
    let ghost s = value.spec_bytes();
    let mut items: Vec<String> = Vec::new();
    let mut cur: &str = value;
    proof {
        assert(items.deep_view() =~= Seq::<Seq<char>>::empty());
    }
    while byte_len(cur) > 0
        invariant
            list_of(s) == items.deep_view() + list_of(cur.spec_bytes()),
        decreases cur.spec_bytes().len(),
    {
        let ghost c = cur.spec_bytes();
        let ghost before = items.deep_view();
        let bytes = cur.as_bytes();
        let stop = scan(bytes, 0, ByteClass::Line);
        let n = if stop < bytes.len() {
            stop + 1
        } else {
            stop
        };
        proof {
            assert(c.skip(0) =~= c);
            lemma_run_len(c, ByteClass::Line);
            lemma_str_bytes_valid(cur);
            if stop < c.len() {
                lemma_boundary_after_ascii(c, n as int);
            } else {
                is_char_boundary_start_end_of_seq(c);
            }
        }
        let (entry, next) = cur.split_at(n);
        proof {
            encode_utf8_decode_utf8(entry@);
        }
        let item = entry.trim();
        if !item.is_empty() {
            items.push(item.to_owned());
            proof {
                assert(items.deep_view() =~= before.push(item@));
                assert(before + (seq![item@] + list_of(next.spec_bytes())) =~= items.deep_view()
                    + list_of(next.spec_bytes()));
            }
        }
        cur = next;
    }
    proof {
        assert(items.deep_view() + Seq::<Seq<char>>::empty() =~= items.deep_view());
    }
    items
}

/// A field type that parses itself: the field called `NAME`, whose value is
/// folded or not, and stands for a text or a list.
pub trait ParseField: Sized + FieldName + View {
    /// Whether the field's value may run on in continuation lines.
    spec fn folded() -> bool;

    /// What the raw value `raw` stands for.
    spec fn value_of(raw: Seq<u8>) -> Self::V;

    /// The field at the head of `input`: returns what is left behind it, and
    /// the field with what its raw value stands for.
    fn parse(input: &str) -> (r: Result<(&str, Self), ParseError>)
        ensures
            match r {
                Ok((rest, field)) => named_field_extent(
                    input.spec_bytes(),
                    Self::NAME.spec_bytes(),
                    Self::folded(),
                ) matches Ok(x) && rest.spec_bytes() == input.spec_bytes().skip(x.end as int)
                    && field@ == Self::value_of(
                    input.spec_bytes().subrange(x.value as int, x.end as int),
                ),
                Err(e) => named_field_extent(
                    input.spec_bytes(),
                    Self::NAME.spec_bytes(),
                    Self::folded(),
                ) == Err::<FieldExtent, Mismatch>(e@),
            },
    ;
}

/// A field whose value ends with its line.
pub trait SingleLineField: FieldName {

}

/// The folded field of type `T`: returns its raw value.
pub fn multi_line_field<T: FieldName>(input: &str) -> (r: Result<(&str, &str), ParseError>)
    ensures
        yields_value(
            input.spec_bytes(),
            named_field_extent(input.spec_bytes(), T::NAME.spec_bytes(), true),
            r,
        ),
{
    named_multi_line_field(T::NAME, input)
}

/// The field of type `T` whose value is a text: returns the text.
fn parse_text<T: FieldName>(input: &str, folded: bool) -> (r: Result<(&str, String), ParseError>)
    ensures
        match r {
            Ok((rest, text)) => named_field_extent(
                input.spec_bytes(),
                T::NAME.spec_bytes(),
                folded,
            ) matches Ok(x) && rest.spec_bytes() == input.spec_bytes().skip(x.end as int) && text@
                == text_of(input.spec_bytes().subrange(x.value as int, x.end as int)),
            Err(e) => named_field_extent(input.spec_bytes(), T::NAME.spec_bytes(), folded) == Err::<
                FieldExtent,
                Mismatch,
            >(e@),
        },
{
    let r = if folded {
        named_multi_line_field(T::NAME, input)
    } else {
        named_single_line_field(T::NAME, input)
    };
    match r {
        Ok((rest, value)) => Ok((rest, to_text(value))),
        Err(e) => Err(e),
    }
}

/// The field of type `T` whose value is a list: a folded field, of which
/// each line is an entry. Returns the entries without the white space around
/// them, the empty ones left out.
pub fn parse_field_with_trimmed_list<T: FieldName>(input: &str) -> (r: Result<
    (&str, Vec<String>),
    ParseError,
>)
    ensures
        match r {
            Ok((rest, list)) => named_field_extent(
                input.spec_bytes(),
                T::NAME.spec_bytes(),
                true,
            ) matches Ok(x) && rest.spec_bytes() == input.spec_bytes().skip(x.end as int)
                && list.deep_view() == list_of(
                input.spec_bytes().subrange(x.value as int, x.end as int),
            ),
            Err(e) => named_field_extent(input.spec_bytes(), T::NAME.spec_bytes(), true) == Err::<
                FieldExtent,
                Mismatch,
            >(e@),
        },
{
    match multi_line_field::<T>(input) {
        Ok((rest, value)) => Ok((rest, to_list(value))),
        Err(e) => Err(e),
    }
}

/// The version of the format that the file follows, most often a URL.
#[derive(Debug, Clone, PartialEq)]
pub struct Format(pub String);

impl View for Format {
    type V = Seq<char>;

    open spec fn view(&self) -> Seq<char> {
        self.0@
    }
}

impl FieldName for Format {
    const NAME: &'static str = "Format";
}

impl SingleLineField for Format {

}

impl From<String> for Format {
    fn from(v: String) -> (r: Self) {
        Self(v)
    }
}

impl vstd::std_specs::convert::FromSpecImpl<String> for Format {
    open spec fn obeys_from_spec() -> bool {
        true
    }

    open spec fn from_spec(v: String) -> Self {
        Format(v)
    }
}

impl ParseField for Format {
    open spec fn folded() -> bool {
        false
    }

    open spec fn value_of(raw: Seq<u8>) -> Seq<char> {
        text_of(raw)
    }

    fn parse(input: &str) -> (r: Result<(&str, Self), ParseError>) {
        match parse_text::<Self>(input, false) {
            Ok((rest, text)) => Ok((rest, Format(text))),
            Err(e) => Err(e),
        }
    }
}

/// The name that upstream gives the software.
#[derive(Debug, Clone, PartialEq)]
pub struct UpstreamName(pub String);

impl View for UpstreamName {
    type V = Seq<char>;

    open spec fn view(&self) -> Seq<char> {
        self.0@
    }
}

impl FieldName for UpstreamName {
    const NAME: &'static str = "Upstream-Name";
}

impl SingleLineField for UpstreamName {

}

impl From<String> for UpstreamName {
    fn from(v: String) -> (r: Self) {
        Self(v)
    }
}

impl vstd::std_specs::convert::FromSpecImpl<String> for UpstreamName {
    open spec fn obeys_from_spec() -> bool {
        true
    }

    open spec fn from_spec(v: String) -> Self {
        UpstreamName(v)
    }
}

impl ParseField for UpstreamName {
    open spec fn folded() -> bool {
        false
    }

    open spec fn value_of(raw: Seq<u8>) -> Seq<char> {
        text_of(raw)
    }

    fn parse(input: &str) -> (r: Result<(&str, Self), ParseError>) {
        match parse_text::<Self>(input, false) {
            Ok((rest, text)) => Ok((rest, UpstreamName(text))),
            Err(e) => Err(e),
        }
    }
}

/// Where to reach upstream.
#[derive(Debug, Clone, PartialEq)]
pub struct UpstreamContact(pub String);

impl View for UpstreamContact {
    type V = Seq<char>;

    open spec fn view(&self) -> Seq<char> {
        self.0@
    }
}

impl FieldName for UpstreamContact {
    const NAME: &'static str = "Upstream-Contact";
}

impl SingleLineField for UpstreamContact {

}

impl From<String> for UpstreamContact {
    fn from(v: String) -> (r: Self) {
        Self(v)
    }
}

impl vstd::std_specs::convert::FromSpecImpl<String> for UpstreamContact {
    open spec fn obeys_from_spec() -> bool {
        true
    }

    open spec fn from_spec(v: String) -> Self {
        UpstreamContact(v)
    }
}

impl ParseField for UpstreamContact {
    open spec fn folded() -> bool {
        false
    }

    open spec fn value_of(raw: Seq<u8>) -> Seq<char> {
        text_of(raw)
    }

    fn parse(input: &str) -> (r: Result<(&str, Self), ParseError>) {
        match parse_text::<Self>(input, false) {
            Ok((rest, text)) => Ok((rest, UpstreamContact(text))),
            Err(e) => Err(e),
        }
    }
}

/// Where the upstream source was taken from.
#[derive(Debug, Clone, PartialEq)]
pub struct Source(pub String);

impl View for Source {
    type V = Seq<char>;

    open spec fn view(&self) -> Seq<char> {
        self.0@
    }
}

impl FieldName for Source {
    const NAME: &'static str = "Source";
}

impl SingleLineField for Source {

}

impl From<String> for Source {
    fn from(v: String) -> (r: Self) {
        Self(v)
    }
}

impl vstd::std_specs::convert::FromSpecImpl<String> for Source {
    open spec fn obeys_from_spec() -> bool {
        true
    }

    open spec fn from_spec(v: String) -> Self {
        Source(v)
    }
}

impl ParseField for Source {
    open spec fn folded() -> bool {
        false
    }

    open spec fn value_of(raw: Seq<u8>) -> Seq<char> {
        text_of(raw)
    }

    fn parse(input: &str) -> (r: Result<(&str, Self), ParseError>) {
        match parse_text::<Self>(input, false) {
            Ok((rest, text)) => Ok((rest, Source(text))),
            Err(e) => Err(e),
        }
    }
}

/// Why a package is not part of the distribution proper.
#[derive(Debug, Clone, PartialEq)]
pub struct Disclaimer(pub String);

impl View for Disclaimer {
    type V = Seq<char>;

    open spec fn view(&self) -> Seq<char> {
        self.0@
    }
}

impl FieldName for Disclaimer {
    const NAME: &'static str = "Disclaimer";
}

impl ParseField for Disclaimer {
    open spec fn folded() -> bool {
        true
    }

    open spec fn value_of(raw: Seq<u8>) -> Seq<char> {
        text_of(raw)
    }

    fn parse(input: &str) -> (r: Result<(&str, Self), ParseError>) {
        match parse_text::<Self>(input, true) {
            Ok((rest, text)) => Ok((rest, Disclaimer(text))),
            Err(e) => Err(e),
        }
    }
}

/// Free-form remarks.
#[derive(Debug, Clone, PartialEq)]
pub struct Comment(pub String);

impl View for Comment {
    type V = Seq<char>;

    open spec fn view(&self) -> Seq<char> {
        self.0@
    }
}

impl FieldName for Comment {
    const NAME: &'static str = "Comment";
}

impl ParseField for Comment {
    open spec fn folded() -> bool {
        true
    }

    open spec fn value_of(raw: Seq<u8>) -> Seq<char> {
        text_of(raw)
    }

    fn parse(input: &str) -> (r: Result<(&str, Self), ParseError>) {
        match parse_text::<Self>(input, true) {
            Ok((rest, text)) => Ok((rest, Comment(text))),
            Err(e) => Err(e),
        }
    }
}

/// A license: its short name or expression on the first line, and its text, if
/// given, on the continuation lines.
#[derive(Debug, Clone, PartialEq)]
pub struct License(pub String);

impl View for License {
    type V = Seq<char>;

    open spec fn view(&self) -> Seq<char> {
        self.0@
    }
}

impl FieldName for License {
    const NAME: &'static str = "License";
}

impl ParseField for License {
    open spec fn folded() -> bool {
        true
    }

    open spec fn value_of(raw: Seq<u8>) -> Seq<char> {
        text_of(raw)
    }

    fn parse(input: &str) -> (r: Result<(&str, Self), ParseError>) {
        match parse_text::<Self>(input, true) {
            Ok((rest, text)) => Ok((rest, License(text))),
            Err(e) => Err(e),
        }
    }
}

/// The copyright statements, one for each line.
#[derive(Debug, Clone, PartialEq)]
pub struct Copyright(pub Vec<String>);

impl View for Copyright {
    type V = Seq<Seq<char>>;

    open spec fn view(&self) -> Seq<Seq<char>> {
        self.0.deep_view()
    }
}

impl FieldName for Copyright {
    const NAME: &'static str = "Copyright";
}

impl ParseField for Copyright {
    open spec fn folded() -> bool {
        true
    }

    open spec fn value_of(raw: Seq<u8>) -> Seq<Seq<char>> {
        list_of(raw)
    }

    fn parse(input: &str) -> (r: Result<(&str, Self), ParseError>) {
        match parse_field_with_trimmed_list::<Self>(input) {
            Ok((rest, list)) => Ok((rest, Copyright(list))),
            Err(e) => Err(e),
        }
    }
}

/// The patterns of the files that a stanza speaks of, one for each line. Their
/// order decides which stanza wins for a file.
#[derive(Debug, Clone, PartialEq)]
pub struct Files(pub Vec<String>);

impl View for Files {
    type V = Seq<Seq<char>>;

    open spec fn view(&self) -> Seq<Seq<char>> {
        self.0.deep_view()
    }
}

impl FieldName for Files {
    const NAME: &'static str = "Files";
}

impl ParseField for Files {
    open spec fn folded() -> bool {
        true
    }

    open spec fn value_of(raw: Seq<u8>) -> Seq<Seq<char>> {
        list_of(raw)
    }

    fn parse(input: &str) -> (r: Result<(&str, Self), ParseError>) {
        match parse_field_with_trimmed_list::<Self>(input) {
            Ok((rest, list)) => Ok((rest, Files(list))),
            Err(e) => Err(e),
        }
    }
}

/// The names of the fields as they stand in a file.
pub proof fn lemma_field_names()
    ensures
        Format::NAME@ == "Format"@,
        UpstreamName::NAME@ == "Upstream-Name"@,
        UpstreamContact::NAME@ == "Upstream-Contact"@,
        Source::NAME@ == "Source"@,
        Disclaimer::NAME@ == "Disclaimer"@,
        Comment::NAME@ == "Comment"@,
        License::NAME@ == "License"@,
        Copyright::NAME@ == "Copyright"@,
        Files::NAME@ == "Files"@,
{
}

} // verus!
