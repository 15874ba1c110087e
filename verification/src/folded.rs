//! Cleaning the raw value of a folded field: the indent that folding put in
//! front of each continuation line comes off, and a line that holds only a
//! dot stands for an empty line.

use vstd::prelude::*;
use vstd::string::*;
use crate::control_file::{continuation_len, continuation_line, end_of_line_or_string, eol_len,
    lemma_line_len, line, line_len};
use crate::error::{ErrorKind, Mismatch, ParseError};
use crate::text::{ByteClass, DOT, SPACE, byte_len, bytes_of, lemma_boundary_after_ascii,
    lemma_run_len, lemma_run_len_is, lemma_str_bytes_valid, run_len, scan, starts_with};

verus! {

/// Whether `text`, the part of a continuation line behind its leading
/// blanks, is the escape for an empty line: one dot, then the end of the
/// line.
pub open spec fn is_blank_escape(text: Seq<u8>) -> bool {
    text.len() > 0 && text[0] == DOT && eol_len(text.skip(1)) is Ok
}

/// The continuation line `line` without the block's `indent`.
///
/// Behind any blanks, the escape for an empty line leaves only the line's
/// terminator. Else the indent comes off where the line starts with it.
/// Where it does not, up to `indent.len()` leading spaces come off, and at
/// least one has to be there. What follows stays, further blanks included.
pub open spec fn cleaned_line(indent: Seq<u8>, line: Seq<u8>) -> Option<Seq<u8>> {
    let blanks = run_len(line, ByteClass::Blank);
    let spaces = run_len(line, ByteClass::Space);
    if blanks == 0 {
        None
    } else if is_blank_escape(line.skip(blanks as int)) {
        Some(line.skip(blanks + 1int))
    } else if indent.is_prefix_of(line) {
        Some(line.skip(indent.len() as int))
    } else if spaces == 0 {
        None
    } else if spaces < indent.len() {
        Some(line.skip(spaces as int))
    } else {
        Some(line.skip(indent.len() as int))
    }
}

/// The continuation lines of `s`, each without the block's `indent`. Every
/// line of `s` has to be a continuation line.
pub open spec fn cleaned_lines(indent: Seq<u8>, s: Seq<u8>) -> Result<Seq<Seq<u8>>, Mismatch>
    decreases s.len(),
{
    if s.len() == 0 {
        Ok(Seq::empty())
    } else {
        match continuation_len(s) {
            Err(m) => Err(m),
            Ok(n) => match cleaned_line(indent, s.take(n as int)) {
                None => Err(Mismatch { kind: ErrorKind::IndentationError, at: 0 }),
                Some(c) => {
                    proof {
                        lemma_line_len(s);
                    }
                    match cleaned_lines(indent, s.skip(n as int)) {
                        Err(m) => Err(m.shift(n as int)),
                        Ok(more) => Ok(seq![c] + more),
                    }
                },
            },
        }
    }
}

/// The logical lines of the folded value `s`: its first line as it is, then
/// its continuation lines without the block's indent, which is the run of
/// blanks that the first continuation line starts with. Each line keeps its
/// terminator.
pub open spec fn cleaned(s: Seq<u8>) -> Result<Seq<Seq<u8>>, Mismatch> {
    match line_len(s) {
        Err(m) => Err(m),
        Ok(n) => {
            let t = s.skip(n as int);
            let indent = t.take(run_len(t, ByteClass::Blank) as int);
            match cleaned_lines(indent, t) {
                Err(m) => Err(m.shift(n as int)),
                Ok(more) => Ok(seq![s.take(n as int)] + more),
            }
        },
    }
}

/// A failure to clean lies within the text.
pub proof fn lemma_cleaned_lines_within(indent: Seq<u8>, s: Seq<u8>)
    ensures
        cleaned_lines(indent, s) matches Err(m) ==> 0 <= m.at <= s.len(),
    decreases s.len(),
{
    if s.len() > 0 {
        lemma_line_len(s);
        if let Ok(n) = continuation_len(s) {
            if cleaned_line(indent, s.take(n as int)) is Some {
                lemma_cleaned_lines_within(indent, s.skip(n as int));
            }
        }
    }
}

/// Cleaning yields the first line at least, and a failure lies within the
/// text.
pub proof fn lemma_cleaned_within(s: Seq<u8>)
    ensures
        match cleaned(s) {
            Ok(lines) => lines.len() >= 1,
            Err(m) => 0 <= m.at <= s.len(),
        },
{
    lemma_line_len(s);
    if let Ok(n) = line_len(s) {
        let t = s.skip(n as int);
        lemma_cleaned_lines_within(t.take(run_len(t, ByteClass::Blank) as int), t);
    }
}

/// One continuation line without the block's indent, or `None` where the
/// line does not start with the indent nor with a space.
fn clean_line<'a>(indent: &str, line: &'a str) -> (r: Option<&'a str>)
    requires
        forall|i: int| 0 <= i < indent.spec_bytes().len() ==> ByteClass::Blank.has(
            #[trigger] indent.spec_bytes()[i],
        ),
    ensures
        match r {
            Some(c) => cleaned_line(indent.spec_bytes(), line.spec_bytes()) == Some(
                c.spec_bytes(),
            ),
            None => cleaned_line(indent.spec_bytes(), line.spec_bytes()) is None,
        },
{
    let ghost s = line.spec_bytes();
    let bytes = line.as_bytes();
    let blanks = scan(bytes, 0, ByteClass::Blank);
    let spaces = scan(bytes, 0, ByteClass::Space);
    proof {
        assert(s.skip(0) =~= s);
        lemma_str_bytes_valid(line);
        lemma_run_len(s, ByteClass::Blank);
        lemma_run_len(s, ByteClass::Space);
    }
    if blanks == 0 {
        return None;
    }
    if blanks < bytes.len() && bytes[blanks] == DOT {
        proof {
            lemma_boundary_after_ascii(s, blanks + 1);
        }
        let (_, tail) = line.split_at(blanks + 1);
        proof {
            assert(tail.spec_bytes() =~= s.skip(blanks as int).skip(1));
        }
        if end_of_line_or_string(tail).is_ok() {
            return Some(tail);
        }
    }
    let width = byte_len(indent);
    let strip = if starts_with(bytes, indent.as_bytes()) {
        width
    } else if spaces == 0 {
        return None;
    } else if spaces < width {
        spaces
    } else {
        width
    };
    proof {
        if strip > 0 {
            if strip == width && indent.spec_bytes().is_prefix_of(s) {
                assert(s[strip - 1] == indent.spec_bytes()[strip - 1]);
            }
            lemma_boundary_after_ascii(s, strip as int);
        } else {
            vstd::utf8::is_char_boundary_start_end_of_seq(s);
        }
    }
    let (_, tail) = line.split_at(strip);
    Some(tail)
}

/// The logical lines of a folded value: the first line, then each
/// continuation line without the indent that folding gave the block. The
/// lines keep their terminators; a continuation line that holds only a dot
/// becomes its bare terminator. On success nothing is left of the input.
pub fn clean_multiline(input: &str) -> (r: Result<(&str, Vec<&str>), ParseError>)
    ensures
        match r {
            Ok((rest, lines)) => cleaned(input.spec_bytes()) == Ok::<Seq<Seq<u8>>, Mismatch>(
                bytes_of(lines@),
            ) && rest.spec_bytes().len() == 0,
            Err(e) => cleaned(input.spec_bytes()) == Err::<Seq<Seq<u8>>, Mismatch>(e@),
        },
{
    let ghost s = input.spec_bytes();
    let (block, first) = match line(input) {
        Ok(x) => x,
        Err(e) => {
            return Err(e);
        },
    };
    let ghost n = line_len(s)->Ok_0 as int;
    let ghost t = block.spec_bytes();
    let total = byte_len(input);
    let indent_width = scan(block.as_bytes(), 0, ByteClass::Blank);
    proof {
        lemma_line_len(s);
        assert(t.skip(0) =~= t);
        lemma_run_len(t, ByteClass::Blank);
        lemma_str_bytes_valid(block);
        if indent_width > 0 {
            lemma_boundary_after_ascii(t, indent_width as int);
        } else {
            vstd::utf8::is_char_boundary_start_end_of_seq(t);
        }
    }
    let (indent, _) = block.split_at(indent_width);
    let mut lines: Vec<&str> = Vec::new();
    lines.push(first);
    let mut cur: &str = block;
    let ghost mut k: int = 0;
    proof {
        assert(bytes_of(lines@) =~= seq![s.take(n)]);
    }
    while byte_len(cur) > 0
        invariant
            s == input.spec_bytes(),
            t == s.skip(n),
            0 <= n <= s.len(),
            line_len(s) == Ok::<nat, Mismatch>(n as nat),
            indent.spec_bytes() == t.take(run_len(t, ByteClass::Blank) as int),
            total == s.len(),
            0 <= k <= t.len(),
            cur.spec_bytes() == t.skip(k),
            forall|i: int| 0 <= i < indent.spec_bytes().len() ==> ByteClass::Blank.has(
                #[trigger] indent.spec_bytes()[i],
            ),
            bytes_of(lines@).len() > 0,
            bytes_of(lines@)[0] == s.take(n),
            cleaned_lines(indent.spec_bytes(), t) == match cleaned_lines(
                indent.spec_bytes(),
                cur.spec_bytes(),
            ) {
                Ok(more) => Ok::<Seq<Seq<u8>>, Mismatch>(bytes_of(lines@).skip(1) + more),
                Err(m) => Err(m.shift(k)),
            },
        decreases cur.spec_bytes().len(),
    {
        let ghost c = cur.spec_bytes();
        let ghost before = bytes_of(lines@);
        let at = total - byte_len(cur);
        proof {
            lemma_line_len(c);
        }
        let (next, folded) = match continuation_line(cur) {
            Ok(x) => x,
            Err(e) => {
                return Err(e.shifted(at));
            },
        };
        let ghost len = continuation_len(c)->Ok_0 as int;
        match clean_line(indent, folded) {
            None => {
                return Err(ParseError::new(ErrorKind::IndentationError, at));
            },
            Some(clean) => {
                lines.push(clean);
                proof {
                    assert(bytes_of(lines@) =~= before.push(clean.spec_bytes()));
                    assert(next.spec_bytes() =~= t.skip(k + len));
                    match cleaned_lines(indent.spec_bytes(), next.spec_bytes()) {
                        Ok(more) => {
                            assert(before.skip(1) + (seq![clean.spec_bytes()] + more)
                                =~= bytes_of(lines@).skip(1) + more);
                        },
                        Err(_) => {},
                    }
                    k = k + len;
                }
                cur = next;
            },
        }
    }
    proof {
        assert(bytes_of(lines@) =~= seq![s.take(n)] + bytes_of(lines@).skip(1));
        assert(bytes_of(lines@).skip(1) + Seq::<Seq<u8>>::empty() =~= bytes_of(lines@).skip(1));
    }
    Ok((cur, lines))
}

/// `n` spaces.
pub open spec fn spaces(n: nat) -> Seq<u8> {
    Seq::new(n, |i: int| SPACE)
}

/// A value of a single line is clean already: cleaning it returns that line,
/// unchanged, and nothing else.
pub proof fn lemma_single_line_is_clean(s: Seq<u8>)
    requires
        line_len(s) == Ok::<nat, Mismatch>(s.len()),
    ensures
        cleaned(s) == Ok::<Seq<Seq<u8>>, Mismatch>(seq![s]),
{
    assert(s.take(s.len() as int) =~= s);
    assert(seq![s] + Seq::<Seq<u8>>::empty() =~= seq![s]);
}

/// A continuation line that is indented by fewer spaces than the block, but
/// by one at least, is cleaned to what a line with the block's indent is
/// cleaned to: to the text behind the indent, unless that is the escape for
/// an empty line.
pub proof fn lemma_shallow_indent_cleans_alike(indent: Seq<u8>, width: nat, text: Seq<u8>)
    requires
        forall|i: int| 0 <= i < indent.len() ==> ByteClass::Blank.has(#[trigger] indent[i]),
        1 <= width <= indent.len(),
        text.len() == 0 || !ByteClass::Blank.has(text[0]),
    ensures
        cleaned_line(indent, spaces(width) + text) == cleaned_line(indent, indent + text),
        !is_blank_escape(text) ==> cleaned_line(indent, indent + text) == Some(text),
{
    let shallow = spaces(width) + text;
    let nominal = indent + text;
    lemma_run_len_is(shallow, ByteClass::Blank, width as int);
    lemma_run_len_is(shallow, ByteClass::Space, width as int);
    lemma_run_len_is(nominal, ByteClass::Blank, indent.len() as int);
    lemma_run_len(nominal, ByteClass::Space);
    assert(shallow.skip(width as int) =~= text);
    assert(nominal.skip(indent.len() as int) =~= text);
    assert(indent.is_prefix_of(nominal)) by {
        assert(nominal.subrange(0, indent.len() as int) =~= indent);
    }
    if is_blank_escape(text) {
        assert(shallow.skip(width + 1int) =~= text.skip(1));
        assert(nominal.skip(indent.len() + 1int) =~= text.skip(1));
    } else if indent.is_prefix_of(shallow) {
        if width < indent.len() {
            assert(shallow.subrange(0, indent.len() as int)[width as int] == indent[width as int]);
        }
    }
}

/// A continuation line that is indented by more than the block's indent
/// loses the indent and keeps the spaces beyond it.
pub proof fn lemma_deep_indent_keeps_excess(indent: Seq<u8>, excess: nat, text: Seq<u8>)
    requires
        forall|i: int| 0 <= i < indent.len() ==> ByteClass::Blank.has(#[trigger] indent[i]),
        indent.len() >= 1,
        text.len() == 0 || !ByteClass::Blank.has(text[0]),
        !is_blank_escape(text),
    ensures
        cleaned_line(indent, indent + spaces(excess) + text) == Some(spaces(excess) + text),
{
    let deep = indent + spaces(excess) + text;
    lemma_run_len_is(deep, ByteClass::Blank, (indent.len() + excess) as int);
    assert(deep.skip((indent.len() + excess) as int) =~= text);
    assert(deep.skip(indent.len() as int) =~= spaces(excess) + text);
    assert(indent.is_prefix_of(deep)) by {
        assert(deep.subrange(0, indent.len() as int) =~= indent);
    }
}

} // verus!
