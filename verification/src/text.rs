//! Byte classes, runs of bytes, and cutting `&str` at positions found by
//! scanning its UTF-8 bytes.

use vstd::prelude::*;
use vstd::string::*;
use vstd::utf8::*;

verus! {

/// Line feed.
pub const LF: u8 = 0x0a;

/// Carriage return.
pub const CR: u8 = 0x0d;

/// Space.
pub const SPACE: u8 = 0x20;

/// Horizontal tab.
pub const TAB: u8 = 0x09;

/// `-`.
pub const HYPHEN: u8 = 0x2d;

/// `:`.
pub const COLON: u8 = 0x3a;

/// `.`.
pub const DOT: u8 = 0x2e;

/// A set of bytes that the grammar scans maximal runs of.
#[derive(Clone, Copy, Debug, PartialEq, Eq)]
pub enum ByteClass {
    /// `A-Z`, `a-z`, `0-9`.
    Alnum,
    /// `A-Z`, `a-z`, `0-9` and `-`: what a field name may continue with.
    Name,
    /// Space and tab.
    Blank,
    /// Space only.
    Space,
    /// Everything but line feed and carriage return.
    Text,
    /// Everything but line feed.
    Line,
}

/// Whether `b` is an ASCII digit or an ASCII letter.
pub open spec fn is_alnum(b: u8) -> bool {
    (0x30 <= b <= 0x39) || (0x41 <= b <= 0x5a) || (0x61 <= b <= 0x7a)
}

impl ByteClass {
    /// Whether `b` belongs to the class.
    pub open spec fn has(self, b: u8) -> bool {
        match self {
            ByteClass::Alnum => is_alnum(b),
            ByteClass::Name => is_alnum(b) || b == HYPHEN,
            ByteClass::Blank => b == SPACE || b == TAB,
            ByteClass::Space => b == SPACE,
            ByteClass::Text => b != LF && b != CR,
            ByteClass::Line => b != LF,
        }
    }

    /// Whether `b` belongs to the class.
    pub fn holds(self, b: u8) -> (r: bool)
        ensures
            r == self.has(b),
    {
        match self {
            ByteClass::Alnum => (0x30 <= b && b <= 0x39) || (0x41 <= b && b <= 0x5a) || (0x61 <= b
                && b <= 0x7a),
            ByteClass::Name => (0x30 <= b && b <= 0x39) || (0x41 <= b && b <= 0x5a) || (0x61 <= b
                && b <= 0x7a) || b == HYPHEN,
            ByteClass::Blank => b == SPACE || b == TAB,
            ByteClass::Space => b == SPACE,
            ByteClass::Text => b != LF && b != CR,
            ByteClass::Line => b != LF,
        }
    }
}

/// The length of the longest prefix of `s` whose bytes all belong to `c`.
pub open spec fn run_len(s: Seq<u8>, c: ByteClass) -> nat
    decreases s.len(),
{
    if s.len() > 0 && c.has(s[0]) {
        1 + run_len(s.skip(1), c)
    } else {
        0
    }
}

/// A run is a prefix, lies within the class, and stops at the end of `s` or
/// at a byte outside the class.
pub proof fn lemma_run_len(s: Seq<u8>, c: ByteClass)
    ensures
        run_len(s, c) <= s.len(),
        forall|i: int| 0 <= i < run_len(s, c) ==> c.has(#[trigger] s[i]),
        run_len(s, c) < s.len() ==> !c.has(s[run_len(s, c) as int]),
    decreases s.len(),
{
    if s.len() > 0 && c.has(s[0]) {
        lemma_run_len(s.skip(1), c);
        assert forall|i: int| 0 <= i < run_len(s, c) implies c.has(#[trigger] s[i]) by {
            if i > 0 {
                assert(s[i] == s.skip(1)[i - 1]);
            }
        }
    }
}

/// The only position that ends a run is `run_len`.
pub proof fn lemma_run_len_is(s: Seq<u8>, c: ByteClass, n: int)
    requires
        0 <= n <= s.len(),
        forall|i: int| 0 <= i < n ==> c.has(#[trigger] s[i]),
        n < s.len() ==> !c.has(s[n]),
    ensures
        run_len(s, c) == n,
    decreases s.len(),
{
    if n > 0 {
        let t = s.skip(1);
        assert forall|i: int| 0 <= i < n - 1 implies c.has(#[trigger] t[i]) by {
            assert(t[i] == s[i + 1]);
        }
        lemma_run_len_is(t, c, n - 1);
    }
}

/// Finds where the run of `c` that starts at `from` ends.
pub fn scan(bytes: &[u8], from: usize, c: ByteClass) -> (to: usize)
    requires
        from <= bytes@.len(),
    ensures
        to == from + run_len(bytes@.skip(from as int), c),
        to <= bytes@.len(),
{
    let mut to: usize = from;
    while to < bytes.len() && c.holds(bytes[to])
        invariant
            from <= to <= bytes@.len(),
            forall|i: int| from <= i < to ==> c.has(#[trigger] bytes@[i]),
        decreases bytes@.len() - to,
    {
        to = to + 1;
    }
    proof {
        let t = bytes@.skip(from as int);
        assert forall|i: int| 0 <= i < to - from implies c.has(#[trigger] t[i]) by {
            assert(t[i] == bytes@[from + i]);
        }
        lemma_run_len_is(t, c, to - from);
    }
    to
}

/// In valid UTF-8, a position that holds an ASCII byte starts a character.
pub proof fn lemma_boundary_at_ascii(s: Seq<u8>, n: int)
    requires
        valid_utf8(s),
        0 <= n < s.len(),
        s[n] < 0x80,
    ensures
        is_char_boundary(s, n),
{
    is_char_boundary_iff_not_is_continuation_byte(s, n);
}

/// In valid UTF-8, the position after an ASCII byte starts a character or
/// ends the text.
pub proof fn lemma_boundary_after_ascii(s: Seq<u8>, n: int)
    requires
        valid_utf8(s),
        0 < n <= s.len(),
        s[n - 1] < 0x80,
    ensures
        is_char_boundary(s, n),
{
    if n == s.len() {
        is_char_boundary_start_end_of_seq(s);
    } else {
        lemma_boundary_at_ascii(s, n - 1);
        valid_utf8_split(s, n - 1);
        let t = s.subrange(n - 1, s.len() as int);
        assert(t[0] == s[n - 1]);
        let u = pop_first_scalar(t);
        assert(u =~= s.subrange(n, s.len() as int));
        assert(valid_utf8(t));
        assert(valid_utf8(u));
        assert(valid_first_scalar(u));
        assert(u[0] == s[n]);
        is_char_boundary_iff_not_is_continuation_byte(s, n);
    }
}

/// The bytes of a `&str` are valid UTF-8.
pub proof fn lemma_str_bytes_valid(input: &str)
    ensures
        valid_utf8(input.spec_bytes()),
{
    encode_utf8_valid_utf8(input@);
}

/// Where a run of `c` ends, a character starts or the text ends.
pub proof fn lemma_run_ends_on_boundary(s: Seq<u8>, c: ByteClass)
    requires
        valid_utf8(s),
    ensures
        is_char_boundary(s, run_len(s, c) as int),
{
    let n = run_len(s, c) as int;
    lemma_run_len(s, c);
    if n == 0 || n == s.len() {
        is_char_boundary_start_end_of_seq(s);
    } else if c is Text || c is Line {
        lemma_boundary_at_ascii(s, n);
    } else {
        assert(c.has(s[n - 1]));
        lemma_boundary_after_ascii(s, n);
    }
}

/// Splits off the longest prefix of `input` whose bytes belong to `c`:
/// returns the rest, then the run.
pub fn take_run<'a>(input: &'a str, c: ByteClass) -> (r: (&'a str, &'a str))
    ensures
        r.1.spec_bytes() == input.spec_bytes().take(run_len(input.spec_bytes(), c) as int),
        r.0.spec_bytes() == input.spec_bytes().skip(run_len(input.spec_bytes(), c) as int),
{
    let n = scan(input.as_bytes(), 0, c);
    proof {
        assert(input.spec_bytes().skip(0) == input.spec_bytes());
        lemma_str_bytes_valid(input);
        lemma_run_ends_on_boundary(input.spec_bytes(), c);
    }
    let (run, rest) = input.split_at(n);
    (rest, run)
}

/// In valid UTF-8, a position from which the rest is valid UTF-8 starts a
/// character or ends the text.
pub proof fn lemma_boundary_of_tail(s: Seq<u8>, n: int)
    requires
        valid_utf8(s),
        0 <= n <= s.len(),
        valid_utf8(s.skip(n)),
    ensures
        is_char_boundary(s, n),
{
    if n == s.len() {
        is_char_boundary_start_end_of_seq(s);
    } else {
        assert(s.skip(n)[0] == s[n]);
        assert(valid_first_scalar(s.skip(n)));
        is_char_boundary_iff_not_is_continuation_byte(s, n);
    }
}

/// The bytes of each slice in `v`.
pub open spec fn bytes_of(v: Seq<&str>) -> Seq<Seq<u8>> {
    Seq::new(v.len(), |i: int| v[i].spec_bytes())
}

/// The number of bytes in `input`.
pub fn byte_len(input: &str) -> (n: usize)
    ensures
        n == input.spec_bytes().len(),
{
    input.as_bytes().len()
}

/// The part of `input` in front of `rest`, where `rest` is what a parser
/// left of `input`.
pub fn consumed<'a>(input: &'a str, rest: &str) -> (head: &'a str)
    requires
        rest.spec_bytes().len() <= input.spec_bytes().len(),
        rest.spec_bytes() == input.spec_bytes().skip(
            input.spec_bytes().len() - rest.spec_bytes().len(),
        ),
    ensures
        head.spec_bytes() == input.spec_bytes().take(
            input.spec_bytes().len() - rest.spec_bytes().len(),
        ),
{
    let n = byte_len(input) - byte_len(rest);
    proof {
        lemma_str_bytes_valid(input);
        lemma_str_bytes_valid(rest);
        lemma_boundary_of_tail(input.spec_bytes(), n as int);
    }
    let (head, _) = input.split_at(n);
    head
}

/// Whether `a` starts with `p`.
pub fn starts_with(a: &[u8], p: &[u8]) -> (r: bool)
    ensures
        r == p@.is_prefix_of(a@),
{
    if p.len() > a.len() {
        return false;
    }
    let mut i: usize = 0;
    while i < p.len()
        invariant
            i <= p@.len() <= a@.len(),
            forall|j: int| 0 <= j < i ==> p@[j] == a@[j],
        decreases p@.len() - i,
    {
        if p[i] != a[i] {
            assert(a@.subrange(0, p@.len() as int)[i as int] == a@[i as int]);
            return false;
        }
        i = i + 1;
    }
    assert(p@ =~= a@.subrange(0, p@.len() as int));
    true
}

/// Whether `a` and `b` hold the same bytes.
pub fn same_bytes(a: &[u8], b: &[u8]) -> (r: bool)
    ensures
        r == (a@ == b@),
{
    let r = a.len() == b.len() && starts_with(a, b);
    proof {
        if r {
            assert(a@.subrange(0, b@.len() as int) =~= a@);
        }
    }
    r
}

/// The characters of an ASCII text: each byte is one character.
pub open spec fn ascii_chars(bytes: Seq<u8>) -> Seq<char> {
    Seq::new(bytes.len(), |i: int| bytes[i] as char)
}

/// Bytes that are all ASCII decode to one character each.
pub proof fn lemma_decode_ascii(bytes: Seq<u8>)
    requires
        forall|i: int| 0 <= i < bytes.len() ==> #[trigger] bytes[i] < 0x80,
    ensures
        decode_utf8(bytes) == ascii_chars(bytes),
{
    let chars = ascii_chars(bytes);
    assert(is_ascii_chars(chars)) by {
        assert forall|i: int| 0 <= i < chars.len() implies '\0' <= #[trigger] chars[i]
            <= '\u{7f}' by {
            assert(bytes[i] < 0x80);
        }
    }
    is_ascii_chars_encode_utf8(chars);
    assert(encode_utf8(chars) =~= bytes) by {
        assert forall|i: int| 0 <= i < bytes.len() implies encode_utf8(chars)[i] == bytes[i] by {
            assert(chars[i] as u8 == encode_utf8(chars)[i]);
            assert(bytes[i] < 0x80);
        }
    }
    encode_utf8_decode_utf8(chars);
}

/// Whether `c` has the Unicode property `White_Space`.
pub open spec fn is_white_space(c: char) -> bool {
    ||| '\u{9}' <= c <= '\u{d}'
    ||| c == ' '
    ||| c == '\u{85}'
    ||| c == '\u{a0}'
    ||| c == '\u{1680}'
    ||| '\u{2000}' <= c <= '\u{200a}'
    ||| c == '\u{2028}'
    ||| c == '\u{2029}'
    ||| c == '\u{202f}'
    ||| c == '\u{205f}'
    ||| c == '\u{3000}'
}

/// The number of white-space characters that `s` starts with.
pub open spec fn white_prefix_len(s: Seq<char>) -> nat
    decreases s.len(),
{
    if s.len() > 0 && is_white_space(s[0]) {
        1 + white_prefix_len(s.skip(1))
    } else {
        0
    }
}

/// The number of white-space characters that `s` ends with.
pub open spec fn white_suffix_len(s: Seq<char>) -> nat
    decreases s.len(),
{
    if s.len() > 0 && is_white_space(s.last()) {
        1 + white_suffix_len(s.drop_last())
    } else {
        0
    }
}

/// `s` without the white space at its end.
pub open spec fn trimmed_end(s: Seq<char>) -> Seq<char> {
    s.take(s.len() - white_suffix_len(s))
}

/// `s` without the white space at its start and at its end.
pub open spec fn trimmed(s: Seq<char>) -> Seq<char> {
    trimmed_end(s).skip(white_prefix_len(trimmed_end(s)) as int)
}

/// White space comes off the start and the end of a text as far as it goes:
/// what is left is empty, or starts and ends with something else.
pub proof fn lemma_trimmed(s: Seq<char>)
    ensures
        trimmed(s).len() == 0 || (!is_white_space(trimmed(s)[0]) && !is_white_space(
            trimmed(s).last(),
        )),
        trimmed_end(s).len() == 0 || !is_white_space(trimmed_end(s).last()),
{
    lemma_white_suffix_len(s);
    let t = trimmed_end(s);
    lemma_white_prefix_len(t);
}

/// The white space at the end of `s` lies within `s` and ends behind
/// something else.
proof fn lemma_white_suffix_len(s: Seq<char>)
    ensures
        white_suffix_len(s) <= s.len(),
        white_suffix_len(s) < s.len() ==> !is_white_space(s[s.len() - white_suffix_len(s) - 1]),
    decreases s.len(),
{
    if s.len() > 0 && is_white_space(s.last()) {
        lemma_white_suffix_len(s.drop_last());
    }
}

/// The white space at the start of `s` lies within `s` and ends in front of
/// something else.
proof fn lemma_white_prefix_len(s: Seq<char>)
    ensures
        white_prefix_len(s) <= s.len(),
        white_prefix_len(s) < s.len() ==> !is_white_space(s[white_prefix_len(s) as int]),
    decreases s.len(),
{
    if s.len() > 0 && is_white_space(s[0]) {
        lemma_white_prefix_len(s.skip(1));
        if white_prefix_len(s.skip(1)) < s.skip(1).len() {
            assert(s.skip(1)[white_prefix_len(s.skip(1)) as int] == s[white_prefix_len(s) as int]);
        }
    }
}

/// `str::trim` of the standard library. Its documentation says that it
/// returns the slice without leading and trailing white space, and that white
/// space is what has the Unicode property `White_Space`; [`is_white_space`]
/// lists the code points of that property.
pub assume_specification[ str::trim ](s: &str) -> (r: &str)
    ensures
        r@ == trimmed(s@),
;

/// `str::trim_end` of the standard library. Its documentation says that it
/// returns the slice without trailing white space, defined as for
/// `str::trim`.
pub assume_specification[ str::trim_end ](s: &str) -> (r: &str)
    ensures
        r@ == trimmed_end(s@),
;

} // verus!
