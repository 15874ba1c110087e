//! The grammar that all Debian control files share: lines, field names,
//! single-line and folded field values, and stanzas.
//!
//! Each parser takes the text that is left and returns, on a match, what is
//! left after it and what it matched. The contracts speak of the UTF-8 bytes
//! of the input: a spec function says how many bytes the parser takes.

use vstd::prelude::*;
use vstd::string::*;
pub use crate::folded::clean_multiline;
use crate::error::{ErrorKind, Mismatch, ParseError};
use crate::text::{ByteClass, COLON, CR, LF, SPACE, byte_len, bytes_of, consumed, is_alnum,
    lemma_boundary_after_ascii, lemma_run_len, lemma_run_len_is, lemma_str_bytes_valid, run_len,
    same_bytes, take_run};

verus! {

/// A field type's name, as it stands in front of the colon.
pub trait FieldName {
    const NAME: &'static str;
}

/// What a parser that cuts a head off its input returned, against the length
/// that the grammar gives the head: on success the head holds the first `n`
/// bytes and the rest the others; on failure the grammar fails alike.
pub open spec fn cuts(s: Seq<u8>, len: Result<nat, Mismatch>, r: Result<(&str, &str), ParseError>)
    -> bool {
    match r {
        Ok((rest, head)) => len matches Ok(n) && head.spec_bytes() == s.take(n as int)
            && rest.spec_bytes() == s.skip(n as int),
        Err(e) => len == Err::<nat, Mismatch>(e@),
    }
}

/// The length of the line terminator at the head of `s`: 0 at the end of
/// input, 1 for a line feed, 2 for a carriage return and a line feed. Anything
/// else, a carriage return alone too, is no terminator.
pub open spec fn eol_len(s: Seq<u8>) -> Result<nat, Mismatch> {
    if s.len() == 0 {
        Ok(0)
    } else if s[0] == LF {
        Ok(1)
    } else if s.len() >= 2 && s[0] == CR && s[1] == LF {
        Ok(2)
    } else {
        Err(Mismatch { kind: ErrorKind::TrailingContent, at: 0 })
    }
}

/// The length of the first line of `s`, its terminator included: the bytes up
/// to the first line feed or carriage return, then the terminator.
pub open spec fn line_len(s: Seq<u8>) -> Result<nat, Mismatch> {
    let n = run_len(s, ByteClass::Text);
    match eol_len(s.skip(n as int)) {
        Ok(e) => Ok(n + e),
        Err(m) => Err(m.shift(n as int)),
    }
}

/// A line lies within its input, and is empty only where the input is.
pub proof fn lemma_line_len(s: Seq<u8>)
    ensures
        line_len(s) matches Ok(n) ==> n <= s.len() && (n == 0 ==> s.len() == 0),
        line_len(s) matches Err(m) ==> 0 <= m.at < s.len() && m.kind == ErrorKind::TrailingContent,
{
    lemma_run_len(s, ByteClass::Text);
}

/// The text up to the first line feed or carriage return. Never fails.
pub fn my_non_line_ending(input: &str) -> (r: Result<(&str, &str), ParseError>)
    ensures
        cuts(input.spec_bytes(), Ok(run_len(input.spec_bytes(), ByteClass::Text)), r),
{
    Ok(take_run(input, ByteClass::Text))
}

/// A line terminator, or the end of input.
pub fn end_of_line_or_string(input: &str) -> (r: Result<(&str, &str), ParseError>)
    ensures
        cuts(input.spec_bytes(), eol_len(input.spec_bytes()), r),
{
    let bytes = input.as_bytes();
    let n: usize = if bytes.len() == 0 {
        0
    } else if bytes[0] == LF {
        1
    } else if bytes.len() >= 2 && bytes[0] == CR && bytes[1] == LF {
        2
    } else {
        return Err(ParseError::new(ErrorKind::TrailingContent, 0));
    };
    proof {
        lemma_str_bytes_valid(input);
        if n == 0 {
            vstd::utf8::is_char_boundary_start_end_of_seq(input.spec_bytes());
        } else {
            lemma_boundary_after_ascii(input.spec_bytes(), n as int);
        }
    }
    let (eol, rest) = input.split_at(n);
    Ok((rest, eol))
}

/// One line with its terminator.
pub fn line(input: &str) -> (r: Result<(&str, &str), ParseError>)
    ensures
        cuts(input.spec_bytes(), line_len(input.spec_bytes()), r),
{
    let (tail, text) = take_run(input, ByteClass::Text);
    let ghost s = input.spec_bytes();
    let ghost n = run_len(s, ByteClass::Text) as int;
    proof {
        lemma_run_len(s, ByteClass::Text);
    }
    match end_of_line_or_string(tail) {
        Ok((rest, eol)) => {
            proof {
                assert(rest.spec_bytes() =~= s.skip(n + eol.spec_bytes().len()));
            }
            let whole = consumed(input, rest);
            Ok((rest, whole))
        },
        Err(e) => Err(e.shifted(byte_len(text))),
    }
}

/// The rest of the current line, which may be empty, with its terminator.
pub fn rest_of_line(input: &str) -> (r: Result<(&str, &str), ParseError>)
    ensures
        cuts(input.spec_bytes(), line_len(input.spec_bytes()), r),
{
    line(input)
}

/// The length of the continuation line at the head of `s`: a line that
/// starts with a space or a tab.
pub open spec fn continuation_len(s: Seq<u8>) -> Result<nat, Mismatch> {
    if s.len() > 0 && ByteClass::Blank.has(s[0]) {
        line_len(s)
    } else {
        Err(Mismatch { kind: ErrorKind::IndentationError, at: 0 })
    }
}

/// One continuation line with its terminator.
pub fn continuation_line(input: &str) -> (r: Result<(&str, &str), ParseError>)
    ensures
        cuts(input.spec_bytes(), continuation_len(input.spec_bytes()), r),
{
    let bytes = input.as_bytes();
    if bytes.len() > 0 && ByteClass::Blank.holds(bytes[0]) {
        line(input)
    } else {
        Err(ParseError::new(ErrorKind::IndentationError, 0))
    }
}

/// The total length of the continuation lines at the head of `s`.
pub open spec fn continuation_run(s: Seq<u8>) -> nat
    decreases s.len(),
{
    match continuation_len(s) {
        Ok(n) => {
            proof {
                lemma_line_len(s);
            }
            n + continuation_run(s.skip(n as int))
        },
        Err(_) => 0,
    }
}

/// The continuation lines lie within their input.
pub proof fn lemma_continuation_run(s: Seq<u8>)
    ensures
        continuation_run(s) <= s.len(),
    decreases s.len(),
{
    if let Ok(n) = continuation_len(s) {
        lemma_line_len(s);
        lemma_continuation_run(s.skip(n as int));
    }
}

/// All continuation lines at the head of the input, as one slice. Never
/// fails: without such a line the slice is empty.
pub fn continuation_lines(input: &str) -> (r: Result<(&str, &str), ParseError>)
    ensures
        cuts(input.spec_bytes(), Ok(continuation_run(input.spec_bytes())), r),
{
    let ghost s = input.spec_bytes();
    let mut cur: &str = input;
    let ghost mut k: int = 0;
    proof {
        assert(s.skip(0) =~= s);
    }
    loop
        invariant
            s == input.spec_bytes(),
            0 <= k <= s.len(),
            cur.spec_bytes() == s.skip(k),
            continuation_run(s) == k + continuation_run(cur.spec_bytes()),
        ensures
            0 <= k <= s.len(),
            cur.spec_bytes() == s.skip(k),
            continuation_run(s) == k,
        decreases cur.spec_bytes().len(),
    {
        match continuation_line(cur) {
            Ok((next, _)) => {
                proof {
                    let n = continuation_len(cur.spec_bytes())->Ok_0 as int;
                    lemma_line_len(cur.spec_bytes());
                    assert(next.spec_bytes() =~= s.skip(k + n));
                    k = k + n;
                }
                cur = next;
            },
            Err(_) => {
                break ;
            },
        }
    }
    let lines = consumed(input, cur);
    Ok((cur, lines))
}

/// The length of a field's value at the head of `s`: the rest of the line
/// and, if the field is folded, the continuation lines that follow it.
pub open spec fn value_len(s: Seq<u8>, folded: bool) -> Result<nat, Mismatch> {
    match line_len(s) {
        Ok(n) => Ok(
            if folded {
                n + continuation_run(s.skip(n as int))
            } else {
                n
            },
        ),
        Err(m) => Err(m),
    }
}

/// The value of a field, from behind the blanks that follow its colon: the
/// rest of the line and, if `folded`, all continuation lines, uncleaned.
pub fn field_value(input: &str, folded: bool) -> (r: Result<(&str, &str), ParseError>)
    ensures
        cuts(input.spec_bytes(), value_len(input.spec_bytes(), folded), r),
{
    match line(input) {
        Ok((rest, first)) => {
            if folded {
                match continuation_lines(rest) {
                    Ok((rest, more)) => {
                        proof {
                            let s = input.spec_bytes();
                            let n = line_len(s)->Ok_0 as int;
                            lemma_line_len(s);
                            lemma_continuation_run(s.skip(n));
                            assert(rest.spec_bytes() =~= s.skip(n + continuation_run(s.skip(n))));
                        }
                        let value = consumed(input, rest);
                        Ok((rest, value))
                    },
                    Err(e) => Err(e),
                }
            } else {
                Ok((rest, first))
            }
        },
        Err(e) => Err(e),
    }
}

/// The length of the field name at the head of `s`: a letter or digit, then
/// letters, digits and hyphens, with a colon behind them.
pub open spec fn field_name_len(s: Seq<u8>) -> Result<nat, Mismatch> {
    let n = if s.len() > 0 && is_alnum(s[0]) {
        run_len(s, ByteClass::Name)
    } else {
        0
    };
    if n >= s.len() {
        Err(Mismatch { kind: ErrorKind::UnexpectedEndOfInput, at: s.len() as int })
    } else if n == 0 || s[n as int] != COLON {
        Err(Mismatch { kind: ErrorKind::MalformedFieldName, at: n as int })
    } else {
        Ok(n)
    }
}

/// A field name and the colon behind it: returns what follows the colon,
/// then the name.
pub fn field_name(input: &str) -> (r: Result<(&str, &str), ParseError>)
    ensures
        match r {
            Ok((rest, name)) => field_name_len(input.spec_bytes()) matches Ok(n)
                && name.spec_bytes() == input.spec_bytes().take(n as int) && rest.spec_bytes()
                == input.spec_bytes().skip(n + 1int),
            Err(e) => field_name_len(input.spec_bytes()) == Err::<nat, Mismatch>(e@),
        },
{
    let ghost s = input.spec_bytes();
    let bytes = input.as_bytes();
    proof {
        lemma_run_len(s, ByteClass::Name);
    }
    if bytes.len() == 0 || !ByteClass::Alnum.holds(bytes[0]) {
        return Err(
            ParseError::new(
                if bytes.len() == 0 {
                    ErrorKind::UnexpectedEndOfInput
                } else {
                    ErrorKind::MalformedFieldName
                },
                0,
            ),
        );
    }
    let (tail, name) = take_run(input, ByteClass::Name);
    let n = byte_len(name);
    let tail_bytes = tail.as_bytes();
    if tail_bytes.len() == 0 {
        return Err(ParseError::new(ErrorKind::UnexpectedEndOfInput, n));
    }
    if tail_bytes[0] != COLON {
        return Err(ParseError::new(ErrorKind::MalformedFieldName, n));
    }
    proof {
        lemma_str_bytes_valid(tail);
        lemma_boundary_after_ascii(tail.spec_bytes(), 1);
    }
    let (_, rest) = tail.split_at(1);
    proof {
        assert(rest.spec_bytes() =~= s.skip(n + 1));
    }
    Ok((rest, name))
}

/// Where the parts of the field at the head of a text lie: the length of its
/// name, where its value starts, and where the field ends.
pub struct FieldExtent {
    pub name: nat,
    pub value: nat,
    pub end: nat,
}

/// The extent of the field at the head of `s`: a name and its colon, blanks,
/// then the value, which runs to the end of the line or, if `folded`, to the
/// end of the continuation lines behind it.
pub open spec fn field_extent(s: Seq<u8>, folded: bool) -> Result<FieldExtent, Mismatch> {
    match field_name_len(s) {
        Err(m) => Err(m),
        Ok(n) => {
            let v = n + 1 + run_len(s.skip(n + 1int), ByteClass::Blank);
            match value_len(s.skip(v as int), folded) {
                Err(m) => Err(m.shift(v as int)),
                Ok(l) => Ok(FieldExtent { name: n, value: v, end: v + l }),
            }
        },
    }
}

/// As [`field_extent`], for the field called `name` only.
pub open spec fn named_field_extent(s: Seq<u8>, name: Seq<u8>, folded: bool) -> Result<
    FieldExtent,
    Mismatch,
> {
    match field_name_len(s) {
        Err(m) => Err(m),
        Ok(n) => if s.take(n as int) == name {
            field_extent(s, folded)
        } else {
            Err(Mismatch { kind: ErrorKind::UnrecognizedField, at: 0 })
        },
    }
}

/// A field's parts lie in order within the text, and a failure lies within it.
pub proof fn lemma_field_extent(s: Seq<u8>, folded: bool)
    ensures
        field_extent(s, folded) matches Ok(x) ==> 0 < x.name < x.value <= x.end <= s.len()
            && field_name_len(s) == Ok::<nat, Mismatch>(x.name),
        field_extent(s, folded) matches Err(m) ==> 0 <= m.at <= s.len(),
{
    lemma_run_len(s, ByteClass::Name);
    if let Ok(n) = field_name_len(s) {
        let t = s.skip(n + 1int);
        lemma_run_len(t, ByteClass::Blank);
        let v = n + 1 + run_len(t, ByteClass::Blank);
        let u = s.skip(v as int);
        lemma_line_len(u);
        if let Ok(l) = line_len(u) {
            lemma_continuation_run(u.skip(l as int));
        }
    }
}

/// What a field parser returned, against the extent that the grammar gives
/// the field: the value and what is left behind the field.
pub open spec fn yields_value(
    s: Seq<u8>,
    extent: Result<FieldExtent, Mismatch>,
    r: Result<(&str, &str), ParseError>,
) -> bool {
    match r {
        Ok((rest, value)) => extent matches Ok(x) && value.spec_bytes() == s.subrange(
            x.value as int,
            x.end as int,
        ) && rest.spec_bytes() == s.skip(x.end as int),
        Err(e) => extent == Err::<FieldExtent, Mismatch>(e@),
    }
}

/// The value of the field whose name and colon were read off `input`, with
/// `after` left behind them.
pub(crate) fn value_behind_name<'a>(input: &'a str, after: &'a str, folded: bool) -> (r: Result<
    (&'a str, &'a str),
    ParseError,
>)
    requires
        field_name_len(input.spec_bytes()) matches Ok(n) && after.spec_bytes()
            == input.spec_bytes().skip(n + 1int),
    ensures
        yields_value(input.spec_bytes(), field_extent(input.spec_bytes(), folded), r),
{
    let ghost s = input.spec_bytes();
    let ghost n = field_name_len(s)->Ok_0;
    let (start, blanks) = take_run(after, ByteClass::Blank);
    proof {
        lemma_field_extent(s, folded);
        lemma_run_len(s, ByteClass::Name);
        lemma_run_len(after.spec_bytes(), ByteClass::Blank);
        assert(start.spec_bytes() =~= s.skip(n + 1int + blanks.spec_bytes().len()));
    }
    let at = byte_len(input) - byte_len(start);
    match field_value(start, folded) {
        Err(e) => {
            proof {
                lemma_line_len(start.spec_bytes());
            }
            Err(e.shifted(at))
        },
        Ok((rest, value)) => {
            proof {
                let l = value_len(start.spec_bytes(), folded)->Ok_0 as int;
                assert(rest.spec_bytes() =~= s.skip(at + l));
                assert(value.spec_bytes() =~= s.subrange(at as int, at + l));
            }
            Ok((rest, value))
        },
    }
}

/// A field of any name with a folded value: returns what is left, then the
/// name and the raw value.
pub fn field_pair(input: &str) -> (r: Result<(&str, (&str, &str)), ParseError>)
    ensures
        match r {
            Ok((rest, (name, value))) => field_extent(input.spec_bytes(), true) matches Ok(x)
                && name.spec_bytes() == input.spec_bytes().take(x.name as int)
                && value.spec_bytes() == input.spec_bytes().subrange(x.value as int, x.end as int)
                && rest.spec_bytes() == input.spec_bytes().skip(x.end as int),
            Err(e) => field_extent(input.spec_bytes(), true) == Err::<FieldExtent, Mismatch>(e@),
        },
{
    match field_name(input) {
        Err(e) => Err(e),
        Ok((after, name)) => match value_behind_name(input, after, true) {
            Err(e) => Err(e),
            Ok((rest, value)) => Ok((rest, (name, value))),
        },
    }
}

/// A field of any name with a folded value, as one slice.
pub fn field_string(input: &str) -> (r: Result<(&str, &str), ParseError>)
    ensures
        match r {
            Ok((rest, whole)) => field_extent(input.spec_bytes(), true) matches Ok(x)
                && whole.spec_bytes() == input.spec_bytes().take(x.end as int)
                && rest.spec_bytes() == input.spec_bytes().skip(x.end as int),
            Err(e) => field_extent(input.spec_bytes(), true) == Err::<FieldExtent, Mismatch>(e@),
        },
{
    match field_pair(input) {
        Err(e) => Err(e),
        Ok((rest, _)) => {
            proof {
                lemma_field_extent(input.spec_bytes(), true);
            }
            Ok((rest, consumed(input, rest)))
        },
    }
}

/// A field: its name and its raw value.
#[derive(Debug, Clone, Copy, PartialEq, Eq)]
pub struct Field<'a> {
    pub field_name: &'a str,
    pub value: &'a str,
}

impl<'a> Field<'a> {
    /// Whether the field is one that a text can hold: its name is a field
    /// name, and its value is one line and behind it nothing but continuation
    /// lines.
    pub open spec fn well_formed(&self) -> bool {
        &&& is_field_name(self.field_name.spec_bytes())
        &&& value_len(self.value.spec_bytes(), true) == Ok::<nat, Mismatch>(
            self.value.spec_bytes().len(),
        )
    }
}

/// The first line of a text is the first line of each head of the text that
/// holds it.
proof fn lemma_line_of_head(u: Seq<u8>, m: int)
    requires
        line_len(u) matches Ok(l) && l <= m <= u.len(),
    ensures
        line_len(u.take(m)) == line_len(u),
{
    let r = run_len(u, ByteClass::Text) as int;
    let head = u.take(m);
    lemma_run_len(u, ByteClass::Text);
    if r < m {
        lemma_run_len_is(head, ByteClass::Text, r);
        assert(head.skip(r)[0] == u.skip(r)[0]);
        if u[r] != LF {
            assert(head.skip(r)[1] == u.skip(r)[1]);
        }
    } else {
        assert(head =~= u);
    }
}

/// The continuation lines at the head of a text are, taken alone, nothing
/// but continuation lines.
proof fn lemma_continuation_of_head(w: Seq<u8>)
    ensures
        continuation_run(w.take(continuation_run(w) as int)) == continuation_run(w),
    decreases w.len(),
{
    let c = continuation_run(w) as int;
    let head = w.take(c);
    lemma_continuation_run(w);
    if let Ok(n) = continuation_len(w) {
        lemma_line_len(w);
        let rest = w.skip(n as int);
        lemma_continuation_run(rest);
        lemma_line_of_head(w, c);
        assert(head[0] == w[0]);
        assert(head.skip(n as int) =~= rest.take(continuation_run(rest) as int));
        lemma_continuation_of_head(rest);
    }
}

/// The parts of a field are well formed: the name is a field name, and the
/// value, taken alone, is one line and its continuation lines.
pub proof fn lemma_field_parts(s: Seq<u8>)
    ensures
        field_extent(s, true) matches Ok(x) ==> is_field_name(s.take(x.name as int)) && value_len(
            s.subrange(x.value as int, x.end as int),
            true,
        ) == Ok::<nat, Mismatch>((x.end - x.value) as nat),
{
    if let Ok(x) = field_extent(s, true) {
        lemma_field_extent(s, true);
        lemma_run_len(s, ByteClass::Name);
        let u = s.skip(x.value as int);
        let l = line_len(u)->Ok_0 as int;
        let w = u.skip(l);
        let c = continuation_run(w) as int;
        let value = s.subrange(x.value as int, x.end as int);
        lemma_line_len(u);
        lemma_continuation_run(w);
        assert(value =~= u.take(l + c));
        lemma_line_of_head(u, l + c);
        assert(value.skip(l) =~= w.take(c));
        lemma_continuation_of_head(w);
    }
}

/// A field of any name with a folded value, as a [`Field`].
pub fn field(input: &str) -> (r: Result<(&str, Field<'_>), ParseError>)
    ensures
        match r {
            Ok((rest, f)) => field_extent(input.spec_bytes(), true) matches Ok(x)
                && f.field_name.spec_bytes() == input.spec_bytes().take(x.name as int)
                && f.value.spec_bytes() == input.spec_bytes().subrange(
                x.value as int,
                x.end as int,
            ) && rest.spec_bytes() == input.spec_bytes().skip(x.end as int) && f.well_formed(),
            Err(e) => field_extent(input.spec_bytes(), true) == Err::<FieldExtent, Mismatch>(e@),
        },
{
    match field_pair(input) {
        Err(e) => Err(e),
        Ok((rest, (field_name, value))) => {
            proof {
                lemma_field_extent(input.spec_bytes(), true);
                lemma_field_parts(input.spec_bytes());
            }
            Ok((rest, Field { field_name, value }))
        },
    }
}

/// The value of the field called `name` at the head of `input`.
fn named_field<'a>(name: &str, input: &'a str, folded: bool) -> (r: Result<
    (&'a str, &'a str),
    ParseError,
>)
    ensures
        yields_value(
            input.spec_bytes(),
            named_field_extent(input.spec_bytes(), name.spec_bytes(), folded),
            r,
        ),
{
    match field_name(input) {
        Err(e) => Err(e),
        Ok((after, found)) => {
            if same_bytes(found.as_bytes(), name.as_bytes()) {
                value_behind_name(input, after, folded)
            } else {
                Err(ParseError::new(ErrorKind::UnrecognizedField, 0))
            }
        },
    }
}

/// The single-line field called `name`: returns its value, the line
/// terminator included. Continuation lines are left in the input.
pub fn named_single_line_field<'a>(name: &str, input: &'a str) -> (r: Result<
    (&'a str, &'a str),
    ParseError,
>)
    ensures
        yields_value(
            input.spec_bytes(),
            named_field_extent(input.spec_bytes(), name.spec_bytes(), false),
            r,
        ),
{
    named_field(name, input, false)
}

/// The folded field called `name`: returns its raw value, that is the rest of
/// its first line and every continuation line, with their terminators and
/// leading blanks.
pub fn named_multi_line_field<'a>(name: &str, input: &'a str) -> (r: Result<
    (&'a str, &'a str),
    ParseError,
>)
    ensures
        yields_value(
            input.spec_bytes(),
            named_field_extent(input.spec_bytes(), name.spec_bytes(), true),
            r,
        ),
{
    named_field(name, input, true)
}

/// Whether `name` can stand in front of a field's colon: a letter or digit,
/// then letters, digits and hyphens.
pub open spec fn is_field_name(name: Seq<u8>) -> bool {
    name.len() > 0 && is_alnum(name[0]) && forall|i: int|
        0 <= i < name.len() ==> ByteClass::Name.has(#[trigger] name[i])
}

/// A single-line field that is written as its name, a colon, a space, its
/// value and a line feed parses to the value with the line feed, and nothing
/// is left of it. The value holds no line terminator and does not start with
/// a blank, which would be skipped with the space behind the colon.
pub proof fn lemma_single_line_round_trip(name: Seq<u8>, value: Seq<u8>)
    requires
        is_field_name(name),
        forall|i: int| 0 <= i < value.len() ==> ByteClass::Text.has(#[trigger] value[i]),
        value.len() == 0 || !ByteClass::Blank.has(value[0]),
    ensures
        ({
            let s = name + seq![COLON, SPACE] + value + seq![LF];
            &&& named_field_extent(s, name, false) == Ok::<FieldExtent, Mismatch>(
                FieldExtent { name: name.len(), value: name.len() + 2, end: s.len() },
            )
            &&& s.subrange(name.len() + 2int, s.len() as int) == value + seq![LF]
            &&& s.skip(s.len() as int) == Seq::<u8>::empty()
        }),
{
    let s = name + seq![COLON, SPACE] + value + seq![LF];
    let n = name.len() as int;
    lemma_run_len_is(s, ByteClass::Name, n);
    assert(s.take(n) =~= name);
    let t = s.skip(n + 1);
    lemma_run_len_is(t, ByteClass::Blank, 1);
    let u = s.skip(n + 2);
    assert(u =~= value + seq![LF]);
    lemma_run_len_is(u, ByteClass::Text, value.len() as int);
    assert(u.skip(value.len() as int) =~= seq![LF]);
    assert(s.subrange(n + 2, s.len() as int) =~= value + seq![LF]);
    assert(s.skip(s.len() as int) =~= Seq::<u8>::empty());
}

/// The length of the line at the head of `s` if it holds any text before its
/// terminator, else 0.
pub open spec fn text_line_len(s: Seq<u8>) -> nat {
    match line_len(s) {
        Ok(n) => if run_len(s, ByteClass::Text) > 0 && n <= s.len() {
            n
        } else {
            0
        },
        Err(_) => 0,
    }
}

/// The lines of the stanza at the head of `s`: the longest run of lines that
/// each hold some text before their terminator.
pub open spec fn paragraph_lines(s: Seq<u8>) -> Seq<Seq<u8>>
    decreases s.len(),
{
    let n = text_line_len(s);
    if n > 0 {
        seq![s.take(n as int)] + paragraph_lines(s.skip(n as int))
    } else {
        Seq::empty()
    }
}

/// The total length of [`paragraph_lines`].
pub open spec fn paragraph_len(s: Seq<u8>) -> nat
    decreases s.len(),
{
    let n = text_line_len(s);
    if n > 0 {
        n + paragraph_len(s.skip(n as int))
    } else {
        0
    }
}

/// A raw stanza: the lines up to the first empty line or the end of input.
/// Returns what is left, then the lines with their terminators. Never fails:
/// at an empty line it returns no lines.
pub fn paragraph(input: &str) -> (r: Result<(&str, Vec<&str>), ParseError>)
    ensures
        r matches Ok((rest, lines)) && bytes_of(lines@) == paragraph_lines(input.spec_bytes())
            && rest.spec_bytes() == input.spec_bytes().skip(
            paragraph_len(input.spec_bytes()) as int,
        ),
{
    let ghost s = input.spec_bytes();
    let mut lines: Vec<&str> = Vec::new();
    let mut cur: &str = input;
    let ghost mut k: int = 0;
    proof {
        assert(s.skip(0) =~= s);
        assert(bytes_of(lines@) =~= Seq::<Seq<u8>>::empty());
    }
    loop
        invariant
            s == input.spec_bytes(),
            0 <= k <= s.len(),
            cur.spec_bytes() == s.skip(k),
            paragraph_len(s) == k + paragraph_len(cur.spec_bytes()),
            paragraph_lines(s) == bytes_of(lines@) + paragraph_lines(cur.spec_bytes()),
        ensures
            cur.spec_bytes() == s.skip(k),
            paragraph_len(s) == k,
            paragraph_lines(s) == bytes_of(lines@),
        decreases cur.spec_bytes().len(),
    {
        let ghost c = cur.spec_bytes();
        let ghost before = bytes_of(lines@);
        let (tail, text) = take_run(cur, ByteClass::Text);
        proof {
            lemma_run_len(c, ByteClass::Text);
            lemma_line_len(c);
        }
        if byte_len(text) == 0 {
            break ;
        }
        match end_of_line_or_string(tail) {
            Err(_) => {
                break ;
            },
            Ok((next, _)) => {
                let ghost n = text_line_len(c) as int;
                proof {
                    assert(next.spec_bytes() =~= c.skip(n));
                }
                let whole = consumed(cur, next);
                lines.push(whole);
                proof {
                    assert(next.spec_bytes() =~= s.skip(k + n));
                    assert(bytes_of(lines@) =~= before + seq![c.take(n)]);
                    assert(paragraph_lines(s) =~= bytes_of(lines@) + paragraph_lines(c.skip(n)));
                    k = k + n;
                }
                cur = next;
            },
        }
    }
    Ok((cur, lines))
}

} // verus!
