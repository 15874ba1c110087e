//! What a parser reports when its input does not match.

use vstd::prelude::*;
use vstd::string::*;
use crate::text::LF;

verus! {

/// The rule that the input broke.
#[derive(Clone, Copy, Debug, PartialEq, Eq, Structural)]
pub enum ErrorKind {
    /// A line starts where a field has to start, but not with
    /// `[A-Za-z0-9][A-Za-z0-9-]*:`.
    MalformedFieldName,
    /// A stanza ended, at a blank line or with the input, without one of the
    /// fields that its type requires.
    MissingMandatoryField,
    /// A well-formed field whose name the stanza's type does not know, or
    /// that is not the field asked for.
    UnrecognizedField,
    /// Text where a line or a stanza has to end: a carriage return that no
    /// line feed follows, or a field that the stanza already holds.
    TrailingContent,
    /// A continuation line without leading white space, or with leading white
    /// space that is neither the block's indent nor a space.
    IndentationError,
    /// The input ends inside the name of a field, before its colon, or where
    /// a field has to start.
    UnexpectedEndOfInput,
    /// A body stanza that holds no `Files` field and does not consist of one
    /// `License` field.
    NoMatchingParagraphType,
}

/// A failed parse: the rule that failed and the byte offset, counted from the
/// start of the parser's input, at which it failed.
#[derive(Clone, Copy, Debug, PartialEq, Eq, Structural)]
pub struct ParseError {
    pub kind: ErrorKind,
    pub offset: usize,
}

/// A failure in specifications: as [`ParseError`], with an unbounded offset.
pub struct Mismatch {
    pub kind: ErrorKind,
    pub at: int,
}

impl Mismatch {
    /// The same failure seen from `by` bytes further back.
    pub open spec fn shift(self, by: int) -> Mismatch {
        Mismatch { kind: self.kind, at: self.at + by }
    }
}

impl View for ParseError {
    type V = Mismatch;

    open spec fn view(&self) -> Mismatch {
        Mismatch { kind: self.kind, at: self.offset as int }
    }
}

/// The number of line feeds in `s`.
pub open spec fn line_feeds(s: Seq<u8>) -> nat
    decreases s.len(),
{
    if s.len() == 0 {
        0
    } else if s.last() == LF {
        line_feeds(s.drop_last()) + 1
    } else {
        line_feeds(s.drop_last())
    }
}

impl ParseError {
    /// The line of `input` in which the failure lies, counted from 0: the
    /// number of line feeds in front of the failure's offset, or in all of
    /// `input` where the offset lies behind it.
    pub fn line_in(&self, input: &str) -> (line: usize)
        ensures
            line == line_feeds(
                input.spec_bytes().take(
                    if self.offset <= input.spec_bytes().len() {
                        self.offset as int
                    } else {
                        input.spec_bytes().len() as int
                    },
                ),
            ),
    {
        let bytes = input.as_bytes();
        let end = if self.offset <= bytes.len() {
            self.offset
        } else {
            bytes.len()
        };
        let mut line: usize = 0;
        let mut i: usize = 0;
        proof {
            assert(bytes@.take(0) =~= Seq::<u8>::empty());
        }
        while i < end
            invariant
                i <= end <= bytes@.len(),
                line <= i,
                line == line_feeds(bytes@.take(i as int)),
            decreases end - i,
        {
            proof {
                assert(bytes@.take(i + 1).drop_last() =~= bytes@.take(i as int));
            }
            if bytes[i] == LF {
                line = line + 1;
            }
            i = i + 1;
        }
        line
    }

    /// The failure of `kind` at `offset`.
    pub fn new(kind: ErrorKind, offset: usize) -> (e: ParseError)
        ensures
            e@ == (Mismatch { kind, at: offset as int }),
    {
        ParseError { kind, offset }
    }

    /// The same failure seen from `by` bytes further back.
    pub fn shifted(self, by: usize) -> (e: ParseError)
        requires
            self.offset + by <= usize::MAX,
        ensures
            e@ == self@.shift(by as int),
    {
        ParseError { kind: self.kind, offset: self.offset + by }
    }
}

} // verus!
