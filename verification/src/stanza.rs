//! Assembling a stanza from a table of the fields that its type knows.
//!
//! The fields of a stanza form a set: they may stand in any order, each at
//! most once. A stanza ends at the end of input or at a line that holds
//! nothing but blanks.

use vstd::prelude::*;
use vstd::string::*;
use crate::control_file::{FieldExtent, end_of_line_or_string, eol_len, field_extent, field_name,
    field_name_len, lemma_field_extent, value_behind_name};
use crate::error::{ErrorKind, Mismatch, ParseError};
use crate::text::{ByteClass, byte_len, lemma_run_len, run_len, same_bytes, take_run};

verus! {

/// What a stanza's type says of one field: its name, whether its value may
/// run on in continuation lines, and whether the stanza must hold it.
#[derive(Debug, Clone, Copy)]
pub struct FieldRule {
    pub name: &'static str,
    pub folded: bool,
    pub mandatory: bool,
}

/// The raw values of a stanza's fields, by the index of each field's rule.
pub type Slots = Seq<Option<Seq<u8>>>;

/// The index of the first of `rules` that is about the field called `name`.
pub open spec fn rule_for(rules: Seq<FieldRule>, name: Seq<u8>) -> Option<nat>
    decreases rules.len(),
{
    if rules.len() == 0 {
        None
    } else if rules[0].name.spec_bytes() == name {
        Some(0)
    } else {
        match rule_for(rules.skip(1), name) {
            Some(i) => Some(i + 1),
            None => None,
        }
    }
}

/// The rule found is about `name`, and none before it is.
pub proof fn lemma_rule_for(rules: Seq<FieldRule>, name: Seq<u8>)
    ensures
        match rule_for(rules, name) {
            Some(i) => i < rules.len() && rules[i as int].name.spec_bytes() == name && forall|
                j: int,
            |
                0 <= j < i ==> (#[trigger] rules[j]).name.spec_bytes() != name,
            None => forall|j: int|
                0 <= j < rules.len() ==> (#[trigger] rules[j]).name.spec_bytes() != name,
        },
    decreases rules.len(),
{
    if rules.len() > 0 && rules[0].name.spec_bytes() != name {
        let t = rules.skip(1);
        lemma_rule_for(t, name);
        match rule_for(t, name) {
            Some(i) => {
                assert forall|j: int| 0 <= j < i + 1 implies (#[trigger] rules[j]).name.spec_bytes()
                    != name by {
                    if j > 0 {
                        assert(rules[j] == t[j - 1]);
                    }
                }
            },
            None => {
                assert forall|j: int| 0 <= j < rules.len() implies (
                #[trigger] rules[j]).name.spec_bytes() != name by {
                    if j > 0 {
                        assert(rules[j] == t[j - 1]);
                    }
                }
            },
        }
    }
}

/// The field at the head of `s` that the stanza takes next: one that the
/// rules know and that is not among `got` yet. Returns the index of its rule
/// and its extent.
pub open spec fn next_field(s: Seq<u8>, rules: Seq<FieldRule>, got: Slots) -> Option<
    (nat, FieldExtent),
> {
    match field_name_len(s) {
        Err(_) => None,
        Ok(n) => match rule_for(rules, s.take(n as int)) {
            None => None,
            Some(i) => if i < got.len() && got[i as int] is None {
                match field_extent(s, rules[i as int].folded) {
                    Ok(x) => Some((i, x)),
                    Err(_) => None,
                }
            } else {
                None
            },
        },
    }
}

/// Why the text at the head of `s`, where no field can be taken, is none:
/// it starts with no field name, with a name that the rules do not know,
/// with a field whose value is malformed, or with a field that the stanza
/// holds already.
pub open spec fn refusal(s: Seq<u8>, rules: Seq<FieldRule>) -> Mismatch {
    match field_name_len(s) {
        Err(m) => m,
        Ok(n) => match rule_for(rules, s.take(n as int)) {
            None => Mismatch { kind: ErrorKind::UnrecognizedField, at: 0 },
            Some(i) => match field_extent(s, rules[i as int].folded) {
                Err(m) => m,
                Ok(_) => Mismatch { kind: ErrorKind::TrailingContent, at: 0 },
            },
        },
    }
}

/// A refusal lies within the text.
pub proof fn lemma_refusal_within(s: Seq<u8>, rules: Seq<FieldRule>)
    ensures
        0 <= refusal(s, rules).at <= s.len(),
{
    lemma_run_len(s, ByteClass::Name);
    if let Ok(n) = field_name_len(s) {
        if let Some(i) = rule_for(rules, s.take(n as int)) {
            lemma_field_extent(s, rules[i as int].folded);
        }
    }
}

/// `n` slots, none of them filled.
pub open spec fn no_fields(n: nat) -> Slots {
    Seq::new(n, |i: int| None)
}

/// All fields that the stanza takes from the head of `s`, starting from
/// `got`: the raw values, and the number of bytes taken.
pub open spec fn gathered(s: Seq<u8>, rules: Seq<FieldRule>, got: Slots) -> (Slots, nat)
    decreases s.len(),
{
    match next_field(s, rules, got) {
        None => (got, 0),
        Some((i, x)) => {
            proof {
                lemma_field_extent(s, rules[i as int].folded);
            }
            let (all, n) = gathered(
                s.skip(x.end as int),
                rules,
                got.update(i as int, Some(s.subrange(x.value as int, x.end as int))),
            );
            (all, x.end + n)
        },
    }
}

/// Whether a stanza ends at the head of `s`: the input ends there, or a line
/// starts that holds nothing but blanks.
pub open spec fn at_stanza_end(s: Seq<u8>) -> bool {
    eol_len(s.skip(run_len(s, ByteClass::Blank) as int)) is Ok
}

/// Whether `slots` lacks a field that `rules` make mandatory.
pub open spec fn lacks_mandatory(rules: Seq<FieldRule>, slots: Slots) -> bool {
    exists|i: int| 0 <= i < rules.len() && (#[trigger] rules[i]).mandatory && slots[i] is None
}

/// The stanza at the head of `s`: the raw values of its fields by rule, and
/// its length.
///
/// Fields are taken while the next one is known and new. Where that stops,
/// the stanza has to end; else what stands there is reported. A stanza that
/// ends without a mandatory field is reported at its end.
#[verifier::opaque]
pub open spec fn stanza(s: Seq<u8>, rules: Seq<FieldRule>) -> Result<(Slots, nat), Mismatch> {
    let (slots, n) = gathered(s, rules, no_fields(rules.len()));
    let rest = s.skip(n as int);
    if !at_stanza_end(rest) {
        Err(refusal(rest, rules).shift(n as int))
    } else if lacks_mandatory(rules, slots) {
        Err(Mismatch { kind: ErrorKind::MissingMandatoryField, at: n as int })
    } else {
        Ok((slots, n))
    }
}

/// Whether the stanza at the head of `s` holds the field of rule `i`,
/// whatever else it holds or lacks.
pub open spec fn stanza_holds(s: Seq<u8>, rules: Seq<FieldRule>, i: int) -> bool {
    gathered(s, rules, no_fields(rules.len())).0[i] is Some
}

/// Gathering fills slots, adds none, and stays within the text.
pub proof fn lemma_gathered(s: Seq<u8>, rules: Seq<FieldRule>, got: Slots)
    ensures
        gathered(s, rules, got).0.len() == got.len(),
        gathered(s, rules, got).1 <= s.len(),
        forall|i: int|
            0 <= i < got.len() && got[i] is Some ==> #[trigger] gathered(s, rules, got).0[i]
                == got[i],
        gathered(s, rules, got).1 == 0 ==> gathered(s, rules, got).0 == got,
        forall|i: int|
            0 <= i < got.len() && got[i] is None ==> (#[trigger] gathered(s, rules, got).0[i]
                matches Some(value) ==> value.len() <= gathered(s, rules, got).1),
    decreases s.len(),
{
    if let Some((i, x)) = next_field(s, rules, got) {
        lemma_field_extent(s, rules[i as int].folded);
        let next = got.update(i as int, Some(s.subrange(x.value as int, x.end as int)));
        lemma_gathered(s.skip(x.end as int), rules, next);
        assert(next[i as int] is Some);
    }
}

/// A stanza fills one slot for each rule at most and each mandatory one, and
/// lies within the text; so does the place of a failure. A stanza that has a
/// mandatory field is not empty.
pub proof fn lemma_stanza(s: Seq<u8>, rules: Seq<FieldRule>)
    ensures
        match stanza(s, rules) {
            Ok((slots, n)) => slots.len() == rules.len() && n <= s.len() && (forall|i: int|
                0 <= i < rules.len() && (#[trigger] rules[i]).mandatory ==> slots[i] is Some) && ((
            exists|i: int| 0 <= i < rules.len() && (#[trigger] rules[i]).mandatory) ==> n > 0)
                && (forall|i: int|
                0 <= i < rules.len() ==> (#[trigger] slots[i] matches Some(value) ==> value.len()
                    <= n)),
            Err(m) => 0 <= m.at <= s.len(),
        },
{
    reveal(stanza);
    let (slots, n) = gathered(s, rules, no_fields(rules.len()));
    lemma_gathered(s, rules, no_fields(rules.len()));
    lemma_refusal_within(s.skip(n as int), rules);
}

/// Where a stanza ends before it has begun, at the end of input or at a line
/// of blanks, it lacks whatever its type makes mandatory.
pub proof fn lemma_empty_stanza(s: Seq<u8>, rules: Seq<FieldRule>)
    requires
        at_stanza_end(s),
        exists|i: int| 0 <= i < rules.len() && (#[trigger] rules[i]).mandatory,
    ensures
        stanza(s, rules) == Err::<(Slots, nat), Mismatch>(
            Mismatch { kind: ErrorKind::MissingMandatoryField, at: 0 },
        ),
{
    reveal(stanza);
    lemma_run_len(s, ByteClass::Blank);
    lemma_run_len(s, ByteClass::Name);
    assert(s.skip(0) =~= s);
    let i = choose|i: int| 0 <= i < rules.len() && (#[trigger] rules[i]).mandatory;
    assert(no_fields(rules.len())[i] is None);
}

/// A continuation line never starts a stanza: where a line starts with a
/// blank and holds more than blanks, no stanza starts.
pub proof fn lemma_continuation_starts_no_stanza(s: Seq<u8>, rules: Seq<FieldRule>)
    requires
        s.len() > 0,
        ByteClass::Blank.has(s[0]),
        !at_stanza_end(s),
    ensures
        stanza(s, rules) == Err::<(Slots, nat), Mismatch>(
            Mismatch { kind: ErrorKind::MalformedFieldName, at: 0 },
        ),
{
    reveal(stanza);
    assert(s.skip(0) =~= s);
}

/// The bytes of each slice in `v` that is there.
pub open spec fn raw_slots(v: Seq<Option<&str>>) -> Slots {
    Seq::new(
        v.len(),
        |i: int|
            match v[i] {
                Some(value) => Some(value.spec_bytes()),
                None => None,
            },
    )
}

/// The index of the first of `rules` that is about the field called `name`.
pub fn find_rule(rules: &[FieldRule], name: &str) -> (r: Option<usize>)
    ensures
        match r {
            Some(i) => rule_for(rules@, name.spec_bytes()) == Some(i as nat),
            None => rule_for(rules@, name.spec_bytes()) is None,
        },
{
    let mut i: usize = 0;
    proof {
        assert(rules@.skip(0) =~= rules@);
    }
    while i < rules.len()
        invariant
            i <= rules@.len(),
            rule_for(rules@, name.spec_bytes()) == match rule_for(
                rules@.skip(i as int),
                name.spec_bytes(),
            ) {
                Some(j) => Some((i + j) as nat),
                None => None,
            },
        decreases rules@.len() - i,
    {
        if same_bytes(rules[i].name.as_bytes(), name.as_bytes()) {
            return Some(i);
        }
        proof {
            assert(rules@.skip(i as int).skip(1) =~= rules@.skip(i + 1));
        }
        i = i + 1;
    }
    None
}

/// Whether a stanza ends at the head of `input`.
pub fn is_stanza_end(input: &str) -> (r: bool)
    ensures
        r == at_stanza_end(input.spec_bytes()),
{
    let (rest, _) = take_run(input, ByteClass::Blank);
    end_of_line_or_string(rest).is_ok()
}

/// The field at the head of `input` that the stanza takes next: returns the
/// index of its rule, what is left behind it, and its raw value; or why the
/// stanza can take no field there.
fn take_field<'a>(input: &'a str, rules: &[FieldRule], got: &Vec<Option<&'a str>>) -> (r: Result<
    (usize, &'a str, &'a str),
    ParseError,
>)
    requires
        got@.len() == rules@.len(),
    ensures
        match r {
            Ok((i, rest, value)) => next_field(input.spec_bytes(), rules@, raw_slots(got@))
                matches Some((j, x)) && i == j && i < rules@.len() && got@[i as int] is None
                && value.spec_bytes() == input.spec_bytes().subrange(x.value as int, x.end as int)
                && rest.spec_bytes() == input.spec_bytes().skip(x.end as int) && 0 < x.end
                <= input.spec_bytes().len(),
            Err(e) => next_field(input.spec_bytes(), rules@, raw_slots(got@)) is None && e@
                == refusal(input.spec_bytes(), rules@),
        },
{
    let (after, name) = match field_name(input) {
        Ok(x) => x,
        Err(e) => {
            return Err(e);
        },
    };
    let i = match find_rule(rules, name) {
        Some(i) => i,
        None => {
            return Err(ParseError::new(ErrorKind::UnrecognizedField, 0));
        },
    };
    proof {
        lemma_rule_for(rules@, name.spec_bytes());
        lemma_field_extent(input.spec_bytes(), rules@[i as int].folded);
    }
    match value_behind_name(input, after, rules[i].folded) {
        Err(e) => Err(e),
        Ok((rest, value)) => {
            if got[i].is_some() {
                Err(ParseError::new(ErrorKind::TrailingContent, 0))
            } else {
                Ok((i, rest, value))
            }
        },
    }
}

/// Whether `slots` lacks a field that `rules` make mandatory.
fn misses_mandatory(rules: &[FieldRule], slots: &Vec<Option<&str>>) -> (r: bool)
    requires
        slots@.len() == rules@.len(),
    ensures
        r == lacks_mandatory(rules@, raw_slots(slots@)),
{
    let mut i: usize = 0;
    while i < rules.len()
        invariant
            i <= rules@.len(),
            slots@.len() == rules@.len(),
            forall|j: int|
                0 <= j < i ==> !((#[trigger] rules@[j]).mandatory && raw_slots(slots@)[j] is None),
        decreases rules@.len() - i,
    {
        if rules[i].mandatory && slots[i].is_none() {
            return true;
        }
        i = i + 1;
    }
    false
}

/// All fields that a stanza of the type that `rules` describe takes from the
/// head of `input`: returns what is left behind them, the raw value of each
/// field taken, at the index of the field's rule, and why no field can be
/// taken from what is left.
pub fn gather_fields<'a>(input: &'a str, rules: &[FieldRule]) -> (r: (
    &'a str,
    Vec<Option<&'a str>>,
    ParseError,
))
    ensures
        ({
            let (all, n) = gathered(input.spec_bytes(), rules@, no_fields(rules@.len()));
            &&& raw_slots(r.1@) == all
            &&& r.1@.len() == rules@.len()
            &&& n <= input.spec_bytes().len()
            &&& r.0.spec_bytes() == input.spec_bytes().skip(n as int)
            &&& r.2@ == refusal(input.spec_bytes().skip(n as int), rules@)
        }),
{
    let ghost s = input.spec_bytes();
    let mut slots: Vec<Option<&'a str>> = Vec::new();
    while slots.len() < rules.len()
        invariant
            slots@.len() <= rules@.len(),
            forall|i: int| 0 <= i < slots@.len() ==> slots@[i] is None,
        decreases rules@.len() - slots@.len(),
    {
        slots.push(None);
    }
    let mut cur: &str = input;
    let ghost mut k: int = 0;
    let ghost start: Slots = no_fields(rules@.len());
    proof {
        assert(s.skip(0) =~= s);
        assert(raw_slots(slots@) =~= start);
    }
    loop
        invariant
            s == input.spec_bytes(),
            slots@.len() == rules@.len(),
            start == no_fields(rules@.len()),
            0 <= k <= s.len(),
            cur.spec_bytes() == s.skip(k),
            gathered(s, rules@, start) == ({
                let (all, n) = gathered(cur.spec_bytes(), rules@, raw_slots(slots@));
                (all, (k + n) as nat)
            }),
        decreases cur.spec_bytes().len(),
    {
        match take_field(cur, rules, &slots) {
            Err(e) => {
                return (cur, slots, e);
            },
            Ok((i, rest, value)) => {
                let ghost before = raw_slots(slots@);
                let ghost x = next_field(cur.spec_bytes(), rules@, before)->Some_0.1;
                slots.set(i, Some(value));
                proof {
                    assert(raw_slots(slots@) =~= before.update(i as int, Some(value.spec_bytes())));
                    assert(rest.spec_bytes() =~= s.skip(k + x.end));
                    k = k + x.end;
                }
                cur = rest;
            },
        }
    }
}

/// Whether the stanza at the head of `input` holds the field of rule `i`.
pub fn holds_field(input: &str, rules: &[FieldRule], i: usize) -> (r: bool)
    requires
        i < rules@.len(),
    ensures
        r == stanza_holds(input.spec_bytes(), rules@, i as int),
{
    let (_, slots, _) = gather_fields(input, rules);
    proof {
        assert(raw_slots(slots@)[i as int] is Some <==> slots@[i as int] is Some);
    }
    slots[i].is_some()
}

/// The stanza at the head of `input`, for the stanza type that `rules`
/// describe: returns what is left behind the stanza, and the raw value of
/// each field that the stanza holds, at the index of the field's rule.
pub fn stanza_fields<'a>(input: &'a str, rules: &[FieldRule]) -> (r: Result<
    (&'a str, Vec<Option<&'a str>>),
    ParseError,
>)
    ensures
        match r {
            Ok((rest, slots)) => stanza(input.spec_bytes(), rules@) matches Ok((all, n))
                && raw_slots(slots@) == all && rest.spec_bytes() == input.spec_bytes().skip(
                n as int,
            ),
            Err(e) => stanza(input.spec_bytes(), rules@) == Err::<(Slots, nat), Mismatch>(e@),
        },
{
    let (rest, slots, refused) = gather_fields(input, rules);
    let at = byte_len(input) - byte_len(rest);
    proof {
        reveal(stanza);
        lemma_refusal_within(rest.spec_bytes(), rules@);
    }
    if !is_stanza_end(rest) {
        Err(refused.shifted(at))
    } else if misses_mandatory(rules, &slots) {
        Err(ParseError::new(ErrorKind::MissingMandatoryField, at))
    } else {
        Ok((rest, slots))
    }
}

} // verus!
