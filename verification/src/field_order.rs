//! The order of the fields in a stanza does not matter: a stanza made of the
//! same fields in another order holds the same values.

use vstd::prelude::*;
use vstd::string::*;
use crate::control_file::{continuation_len, continuation_run, field_extent, field_name_len,
    lemma_continuation_run, lemma_field_extent, line_len};
use crate::error::ErrorKind;
use crate::stanza::{FieldRule, Slots, at_stanza_end, gathered, lemma_rule_for, next_field,
    no_fields, rule_for, stanza};
use crate::text::{ByteClass, COLON, LF, lemma_run_len, lemma_run_len_is, run_len};

verus! {

/// The texts `parts`, one behind the other.
pub open spec fn flat(parts: Seq<Seq<u8>>) -> Seq<u8>
    decreases parts.len(),
{
    if parts.len() == 0 {
        Seq::empty()
    } else {
        parts[0] + flat(parts.skip(1))
    }
}

/// The index of the rule for the field that `f` starts with.
pub open spec fn slot_of(f: Seq<u8>, rules: Seq<FieldRule>) -> int {
    rule_for(rules, f.take(field_name_len(f)->Ok_0 as int))->Some_0 as int
}

/// The raw value of the field that `f` starts with.
pub open spec fn value_in(f: Seq<u8>, rules: Seq<FieldRule>) -> Seq<u8> {
    let x = field_extent(f, rules[slot_of(f, rules)].folded)->Ok_0;
    f.subrange(x.value as int, x.end as int)
}

/// Whether `f` is one field that `rules` know, from its name to the line
/// feed that ends its last line, and nothing else.
pub open spec fn whole_field(f: Seq<u8>, rules: Seq<FieldRule>) -> bool {
    &&& f.len() > 0
    &&& f.last() == LF
    &&& field_name_len(f) matches Ok(n) && rule_for(rules, f.take(n as int)) matches Some(i)
        && field_extent(f, rules[i as int].folded) matches Ok(x) && x.end == f.len()
}

/// Whether each of `fields` is a whole field, and no two of them have the
/// same name.
pub open spec fn field_set(fields: Seq<Seq<u8>>, rules: Seq<FieldRule>) -> bool {
    &&& forall|i: int| 0 <= i < fields.len() ==> whole_field(#[trigger] fields[i], rules)
    &&& forall|i: int, j: int|
        0 <= i < j < fields.len() ==> slot_of(#[trigger] fields[i], rules) != slot_of(
            #[trigger] fields[j],
            rules,
        )
}

/// `got` with the value of each of `fields` in its slot.
pub open spec fn filled(fields: Seq<Seq<u8>>, rules: Seq<FieldRule>, got: Slots) -> Slots
    decreases fields.len(),
{
    if fields.len() == 0 {
        got
    } else {
        filled(
            fields.skip(1),
            rules,
            got.update(slot_of(fields[0], rules), Some(value_in(fields[0], rules))),
        )
    }
}

/// The slot of a whole field is one of the rules'.
proof fn lemma_slot_in_range(f: Seq<u8>, rules: Seq<FieldRule>)
    requires
        whole_field(f, rules),
    ensures
        0 <= slot_of(f, rules) < rules.len(),
{
    lemma_rule_for(rules, f.take(field_name_len(f)->Ok_0 as int));
}

/// A run that stops inside `f` is the same run in any text that starts with
/// `f`.
proof fn lemma_run_in_prefix(f: Seq<u8>, t: Seq<u8>, c: ByteClass)
    requires
        run_len(f, c) < f.len(),
    ensures
        run_len(f + t, c) == run_len(f, c),
{
    let n = run_len(f, c) as int;
    lemma_run_len(f, c);
    assert forall|i: int| 0 <= i < n implies c.has(#[trigger] (f + t)[i]) by {
        assert((f + t)[i] == f[i]);
    }
    assert((f + t)[n] == f[n]);
    lemma_run_len_is(f + t, c, n);
}

/// The first line of a text that ends with a line feed is the first line of
/// any text that starts with it.
proof fn lemma_line_in_prefix(f: Seq<u8>, t: Seq<u8>)
    requires
        f.len() > 0,
        f.last() == LF,
    ensures
        line_len(f + t) == line_len(f),
        line_len(f) matches Ok(n) ==> 0 < n <= f.len() && (n < f.len() ==> f.skip(n as int).last()
            == LF),
{
    let n = run_len(f, ByteClass::Text) as int;
    lemma_run_len(f, ByteClass::Text);
    if n == f.len() {
        assert(ByteClass::Text.has(f[f.len() - 1]));
    }
    lemma_run_in_prefix(f, t, ByteClass::Text);
    assert((f + t).skip(n)[0] == f.skip(n)[0]);
    if f[n] != LF {
        assert(n + 1 < f.len());
        assert((f + t).skip(n)[1] == f.skip(n)[1]);
    }
    if let Ok(l) = line_len(f) {
        if l < f.len() {
            assert(f.skip(l as int).last() == f.last());
        }
    }
}

/// Continuation lines that fill a text are the continuation lines of any
/// text that starts with it and goes on with something else than a blank.
proof fn lemma_continuation_in_prefix(u: Seq<u8>, t: Seq<u8>)
    requires
        u.len() == 0 || u.last() == LF,
        continuation_run(u) == u.len(),
        t.len() == 0 || !ByteClass::Blank.has(t[0]),
    ensures
        continuation_run(u + t) == u.len(),
    decreases u.len(),
{
    if u.len() == 0 {
        assert(u + t =~= t);
    } else {
        lemma_line_in_prefix(u, t);
        assert((u + t)[0] == u[0]);
        let n = continuation_len(u)->Ok_0 as int;
        let rest = u.skip(n);
        lemma_continuation_run(rest);
        assert((u + t).skip(n) =~= rest + t);
        lemma_continuation_in_prefix(rest, t);
    }
}

/// A whole field is the field at the head of any text that starts with it
/// and goes on with something else than a blank.
proof fn lemma_field_in_prefix(f: Seq<u8>, t: Seq<u8>, rules: Seq<FieldRule>)
    requires
        whole_field(f, rules),
        t.len() == 0 || !ByteClass::Blank.has(t[0]),
    ensures
        field_name_len(f + t) == field_name_len(f),
        (f + t).take(field_name_len(f)->Ok_0 as int) == f.take(field_name_len(f)->Ok_0 as int),
        field_extent(f + t, rules[slot_of(f, rules)].folded) == field_extent(
            f,
            rules[slot_of(f, rules)].folded,
        ),
        (f + t).skip(f.len() as int) == t,
        0 <= slot_of(f, rules) < rules.len(),
        !ByteClass::Blank.has(f[0]),
{
    let s = f + t;
    let folded = rules[slot_of(f, rules)].folded;
    let n = field_name_len(f)->Ok_0 as int;
    lemma_rule_for(rules, f.take(n));
    lemma_field_extent(f, folded);
    lemma_run_len(f, ByteClass::Name);
    assert(s[0] == f[0]);
    assert(s[n] == f[n]);
    lemma_run_in_prefix(f, t, ByteClass::Name);
    assert(s.take(n) =~= f.take(n));
    assert(s.skip(f.len() as int) =~= t);
    let a = f.skip(n + 1);
    assert(f[n] == COLON);
    assert(a.len() > 0 && a.last() == f.last());
    lemma_run_len(a, ByteClass::Blank);
    if run_len(a, ByteClass::Blank) == a.len() {
        assert(ByteClass::Blank.has(a[a.len() - 1]));
    }
    assert(s.skip(n + 1) =~= a + t);
    lemma_run_in_prefix(a, t, ByteClass::Blank);
    let v = n + 1 + run_len(a, ByteClass::Blank);
    let u = f.skip(v);
    assert(u.len() > 0 && u.last() == f.last());
    assert(s.skip(v) =~= u + t);
    lemma_line_in_prefix(u, t);
    let l = line_len(u)->Ok_0 as int;
    if folded {
        let w = u.skip(l);
        lemma_continuation_run(w);
        assert((u + t).skip(l) =~= w + t);
        lemma_continuation_in_prefix(w, t);
    }
}

/// A stanza that is made of a set of fields takes them all, and holds the
/// value of each in its slot.
proof fn lemma_gathers_all(fields: Seq<Seq<u8>>, rules: Seq<FieldRule>, got: Slots)
    requires
        field_set(fields, rules),
        got.len() == rules.len(),
        forall|j: int| 0 <= j < fields.len() ==> got[slot_of(#[trigger] fields[j], rules)] is None,
    ensures
        gathered(flat(fields), rules, got) == (
            filled(fields, rules, got),
            flat(fields).len() as nat,
        ),
    decreases fields.len(),
{
    if fields.len() == 0 {
        lemma_run_len(flat(fields), ByteClass::Name);
    } else {
        let f = fields[0];
        let more = fields.skip(1);
        let t = flat(more);
        let i = slot_of(f, rules);
        assert(whole_field(f, rules));
        assert forall|j: int| 0 <= j < more.len() implies whole_field(#[trigger] more[j], rules) by {
            assert(more[j] == fields[j + 1]);
        }
        assert forall|j: int, k: int| 0 <= j < k < more.len() implies slot_of(
            #[trigger] more[j],
            rules,
        ) != slot_of(#[trigger] more[k], rules) by {
            assert(more[j] == fields[j + 1]);
            assert(more[k] == fields[k + 1]);
        }
        if more.len() > 0 {
            assert(whole_field(more[0], rules));
            lemma_field_in_prefix(more[0], Seq::empty(), rules);
            assert(t[0] == more[0][0]);
        }
        lemma_field_in_prefix(f, t, rules);
        let x = field_extent(f, rules[i].folded)->Ok_0;
        lemma_field_extent(f, rules[i].folded);
        assert((f + t).subrange(x.value as int, x.end as int) =~= f.subrange(
            x.value as int,
            x.end as int,
        ));
        let next = got.update(i, Some(value_in(f, rules)));
        assert forall|j: int| 0 <= j < more.len() implies next[slot_of(#[trigger] more[j], rules)]
            is None by {
            assert(more[j] == fields[j + 1]);
            assert(slot_of(fields[0], rules) != slot_of(fields[j + 1], rules));
            lemma_slot_in_range(fields[j + 1], rules);
            assert(got[slot_of(fields[j + 1], rules)] is None);
        }
        lemma_gathers_all(more, rules, next);
        assert(next_field(f + t, rules, got) == Some((i as nat, x)));
    }
}

/// What the slots hold once a set of fields has filled them: the value of
/// each field in its slot, and what they held before in the others.
proof fn lemma_filled(fields: Seq<Seq<u8>>, rules: Seq<FieldRule>, got: Slots)
    requires
        field_set(fields, rules),
        got.len() == rules.len(),
    ensures
        filled(fields, rules, got).len() == got.len(),
        forall|j: int|
            0 <= j < fields.len() ==> filled(fields, rules, got)[slot_of(
                #[trigger] fields[j],
                rules,
            )] == Some(value_in(fields[j], rules)),
        forall|k: int|
            0 <= k < got.len() && (forall|j: int|
                0 <= j < fields.len() ==> slot_of(#[trigger] fields[j], rules) != k)
                ==> #[trigger] filled(fields, rules, got)[k] == got[k],
    decreases fields.len(),
{
    if fields.len() > 0 {
        let f = fields[0];
        let more = fields.skip(1);
        let i = slot_of(f, rules);
        assert(whole_field(f, rules));
        lemma_field_in_prefix(f, Seq::empty(), rules);
        let next = got.update(i, Some(value_in(f, rules)));
        assert forall|j: int| 0 <= j < more.len() implies whole_field(#[trigger] more[j], rules) by {
            assert(more[j] == fields[j + 1]);
        }
        assert forall|j: int, k: int| 0 <= j < k < more.len() implies slot_of(
            #[trigger] more[j],
            rules,
        ) != slot_of(#[trigger] more[k], rules) by {
            assert(more[j] == fields[j + 1]);
            assert(more[k] == fields[k + 1]);
        }
        lemma_filled(more, rules, next);
        let all = filled(fields, rules, got);
        assert forall|j: int| 0 <= j < more.len() implies slot_of(#[trigger] more[j], rules)
            != i by {
            assert(more[j] == fields[j + 1]);
            assert(slot_of(fields[0], rules) != slot_of(fields[j + 1], rules));
        }
        assert(all[i] == next[i]);
        assert forall|j: int| 0 <= j < fields.len() implies all[slot_of(
            #[trigger] fields[j],
            rules,
        )] == Some(value_in(fields[j], rules)) by {
            if j > 0 {
                assert(more[j - 1] == fields[j]);
            }
        }
        assert forall|k: int|
            0 <= k < got.len() && (forall|j: int|
                0 <= j < fields.len() ==> slot_of(#[trigger] fields[j], rules) != k) implies all[k]
            == got[k] by {
            assert(slot_of(fields[0], rules) != k);
            assert forall|j: int| 0 <= j < more.len() implies slot_of(#[trigger] more[j], rules)
                != k by {
                assert(more[j] == fields[j + 1]);
            }
            assert(all[k] == next[k]);
        }
    }
}

/// The same fields in another order are a set of fields too.
proof fn lemma_reordered_set(a: Seq<Seq<u8>>, b: Seq<Seq<u8>>, rules: Seq<FieldRule>)
    requires
        field_set(a, rules),
        a.to_multiset() == b.to_multiset(),
    ensures
        field_set(b, rules),
        forall|f: Seq<u8>| a.contains(f) <==> b.contains(f),
{
    a.to_multiset_ensures();
    b.to_multiset_ensures();
    assert forall|f: Seq<u8>| a.contains(f) <==> b.contains(f) by {
        assert(a.contains(f) <==> a.to_multiset().count(f) > 0);
        assert(b.contains(f) <==> b.to_multiset().count(f) > 0);
    }
    assert(a.no_duplicates());
    a.lemma_multiset_has_no_duplicates();
    b.lemma_multiset_has_no_duplicates_conv();
    assert forall|i: int| 0 <= i < b.len() implies whole_field(#[trigger] b[i], rules) by {
        assert(b.contains(b[i]));
        assert(a.contains(b[i]));
    }
    assert forall|i: int, j: int| 0 <= i < j < b.len() implies slot_of(#[trigger] b[i], rules)
        != slot_of(#[trigger] b[j], rules) by {
        assert(b.contains(b[i]));
        assert(b.contains(b[j]));
        assert(a.contains(b[i]));
        assert(a.contains(b[j]));
        let k = choose|k: int| 0 <= k < a.len() && a[k] == b[i];
        let l = choose|l: int| 0 <= l < a.len() && a[l] == b[j];
        assert(b[i] != b[j]);
        assert(k != l);
        if k < l {
            assert(slot_of(a[k], rules) != slot_of(a[l], rules));
        } else {
            assert(slot_of(a[l], rules) != slot_of(a[k], rules));
        }
    }
}

/// Taking one text out of `parts` shortens their sum by that text.
proof fn lemma_flat_without(parts: Seq<Seq<u8>>, i: int)
    requires
        0 <= i < parts.len(),
    ensures
        flat(parts).len() == parts[i].len() + flat(parts.remove(i)).len(),
    decreases parts.len(),
{
    if i == 0 {
        assert(parts.remove(0) =~= parts.skip(1));
    } else {
        lemma_flat_without(parts.skip(1), i - 1);
        assert(parts.remove(i).skip(1) =~= parts.skip(1).remove(i - 1));
        assert(parts.remove(i)[0] == parts[0]);
    }
}

/// The same texts in another order are as long in sum.
proof fn lemma_flat_len_reordered(a: Seq<Seq<u8>>, b: Seq<Seq<u8>>)
    requires
        a.to_multiset() == b.to_multiset(),
    ensures
        flat(a).len() == flat(b).len(),
    decreases a.len(),
{
    a.to_multiset_ensures();
    b.to_multiset_ensures();
    if a.len() > 0 {
        let x = a[0];
        assert(a.contains(x));
        assert(b.to_multiset().count(x) > 0);
        assert(b.contains(x));
        let i = choose|i: int| 0 <= i < b.len() && b[i] == x;
        assert(a.remove(0) =~= a.skip(1));
        assert(a.remove(0).to_multiset() =~= a.to_multiset().remove(a[0]));
        assert(b.remove(i).to_multiset() =~= b.to_multiset().remove(b[i]));
        lemma_flat_len_reordered(a.skip(1), b.remove(i));
        lemma_flat_without(b, i);
    }
}

/// The order of the fields in a stanza does not matter.
///
/// Let `a` be fields that `rules` know, each written out whole, no two with
/// the same name, and let `b` be the same fields in any other order. Then the
/// stanza that `a` spells and the stanza that `b` spells are the same: they
/// hold the same raw value for every rule and are as long; and if one lacks a
/// mandatory field, so does the other.
pub proof fn lemma_field_order_is_irrelevant(
    a: Seq<Seq<u8>>,
    b: Seq<Seq<u8>>,
    rules: Seq<FieldRule>,
)
    requires
        field_set(a, rules),
        a.to_multiset() == b.to_multiset(),
    ensures
        stanza(flat(a), rules) == stanza(flat(b), rules),
        stanza(flat(a), rules) matches Err(m) ==> m.kind == ErrorKind::MissingMandatoryField,
{
    reveal(stanza);
    let none = no_fields(rules.len());
    lemma_reordered_set(a, b, rules);
    lemma_flat_len_reordered(a, b);
    assert forall|j: int| 0 <= j < a.len() implies none[slot_of(#[trigger] a[j], rules)] is None by {
        lemma_slot_in_range(a[j], rules);
    }
    assert forall|j: int| 0 <= j < b.len() implies none[slot_of(#[trigger] b[j], rules)] is None by {
        lemma_slot_in_range(b[j], rules);
    }
    lemma_gathers_all(a, rules, none);
    lemma_gathers_all(b, rules, none);
    lemma_filled(a, rules, none);
    lemma_filled(b, rules, none);
    let in_a = filled(a, rules, none);
    let in_b = filled(b, rules, none);
    assert forall|k: int| 0 <= k < rules.len() implies in_a[k] == in_b[k] by {
        if exists|j: int| 0 <= j < a.len() && slot_of(#[trigger] a[j], rules) == k {
            let j = choose|j: int| 0 <= j < a.len() && slot_of(#[trigger] a[j], rules) == k;
            assert(a.contains(a[j]));
            assert(b.contains(a[j]));
            let i = choose|i: int| 0 <= i < b.len() && b[i] == a[j];
            assert(in_b[slot_of(b[i], rules)] == Some(value_in(b[i], rules)));
        } else if exists|i: int| 0 <= i < b.len() && slot_of(#[trigger] b[i], rules) == k {
            let i = choose|i: int| 0 <= i < b.len() && slot_of(#[trigger] b[i], rules) == k;
            assert(b.contains(b[i]));
            assert(a.contains(b[i]));
            let j = choose|j: int| 0 <= j < a.len() && a[j] == b[i];
            assert(slot_of(a[j], rules) == k);
        }
    }
    assert(in_a =~= in_b);
    assert(flat(a).skip(flat(a).len() as int) =~= Seq::<u8>::empty());
    assert(flat(b).skip(flat(b).len() as int) =~= Seq::<u8>::empty());
    assert(at_stanza_end(Seq::<u8>::empty())) by {
        assert(Seq::<u8>::empty().skip(0) =~= Seq::<u8>::empty());
    }
}

} // verus!
