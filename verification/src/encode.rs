//! The canonical bencode encoder: the exact inverse grammar of the decoder,
//! with every dictionary's entries emitted in ascending byte-wise key order
//! whatever order they were constructed in.
//!
//! [`serialized`] gives the bytes of a value as stored; [`canon`] sorts every
//! dictionary; the executable [`encode`] returns exactly
//! `serialized(canon(v@))`.

use vstd::prelude::*;

use crate::value::{
    lemma_view_elems, lemma_view_entries, view_elems, view_entries, SpecValue, Value,
};

verus! {

/// Decimal digits of `n`, most significant first.
pub open spec fn dec_digits(n: nat) -> Seq<u8>
    decreases n,
{
    if n < 10 {
        seq![(48 + n) as u8]
    } else {
        dec_digits(n / 10).push((48 + n % 10) as u8)
    }
}

/// The bencode integer literal for `i`: its decimal digits, with a leading
/// `-` when negative.
pub open spec fn int_bytes(i: int) -> Seq<u8> {
    if i < 0 {
        seq![45u8] + dec_digits((-i) as nat)
    } else {
        dec_digits(i as nat)
    }
}

/// The bencode bytes of a byte-string term: decimal length, `:`, the bytes.
pub open spec fn bytes_literal(b: Seq<u8>) -> Seq<u8> {
    dec_digits(b.len()) + seq![58u8] + b
}

/// The bencode bytes of a value, with dictionary entries in stored order.
pub open spec fn serialized(v: SpecValue) -> Seq<u8>
    decreases v, 0int,
{
    match v {
        SpecValue::Int(i) => seq![105u8] + int_bytes(i as int) + seq![101u8],
        SpecValue::Bytes(b) => bytes_literal(b),
        SpecValue::List(es) => seq![108u8] + serialized_elems(es) + seq![101u8],
        SpecValue::Dict(es) => seq![100u8] + serialized_entries(es) + seq![101u8],
    }
}

/// The concatenated bencode bytes of a sequence of list elements.
pub open spec fn serialized_elems(es: Seq<SpecValue>) -> Seq<u8>
    decreases es, 1int,
{
    if es.len() == 0 {
        Seq::empty()
    } else {
        serialized(es[0]) + serialized_elems(es.drop_first())
    }
}

/// The concatenated bencode bytes of a sequence of dictionary entries, each
/// one a byte-string key followed by its value.
pub open spec fn serialized_entries(es: Seq<(Seq<u8>, SpecValue)>) -> Seq<u8>
    decreases es, 1int,
{
    if es.len() == 0 {
        Seq::empty()
    } else {
        bytes_literal(es[0].0) + serialized(es[0].1) + serialized_entries(es.drop_first())
    }
}

/// Byte-wise lexicographic order on keys: `a` comes no later than `b`.
pub open spec fn key_le(a: Seq<u8>, b: Seq<u8>) -> bool
    decreases a.len(),
{
    if a.len() == 0 {
        true
    } else if b.len() == 0 {
        false
    } else if a[0] < b[0] {
        true
    } else if a[0] > b[0] {
        false
    } else {
        key_le(a.drop_first(), b.drop_first())
    }
}

/// Insertion of an entry into a key-sorted entry sequence, before the first
/// entry whose key is no smaller.
pub open spec fn insert_entry(e: (Seq<u8>, SpecValue), s: Seq<(Seq<u8>, SpecValue)>) -> Seq<
    (Seq<u8>, SpecValue),
>
    decreases s.len(),
{
    if s.len() == 0 {
        seq![e]
    } else if key_le(e.0, s[0].0) {
        seq![e] + s
    } else {
        seq![s[0]] + insert_entry(e, s.drop_first())
    }
}

/// Insertion sort of dictionary entries by key.
pub open spec fn sort_entries(s: Seq<(Seq<u8>, SpecValue)>) -> Seq<(Seq<u8>, SpecValue)>
    decreases s.len(),
{
    if s.len() == 0 {
        s
    } else {
        insert_entry(s[0], sort_entries(s.drop_first()))
    }
}

/// The canonical form of a value: the same tree with every dictionary's
/// entries sorted ascending by key.
pub open spec fn canon(v: SpecValue) -> SpecValue
    decreases v, 1int,
{
    match v {
        SpecValue::Int(_) => v,
        SpecValue::Bytes(_) => v,
        SpecValue::List(es) => SpecValue::List(canon_elems(es)),
        SpecValue::Dict(es) => SpecValue::Dict(sort_entries(canon_entries(es))),
    }
}

/// The canonical forms of a sequence of list elements.
pub open spec fn canon_elems(es: Seq<SpecValue>) -> Seq<SpecValue>
    decreases es, 0int,
{
    if es.len() == 0 {
        Seq::empty()
    } else {
        canon_elems(es.drop_last()).push(canon(es.last()))
    }
}

/// The canonical forms of the values of a sequence of dictionary entries,
/// keys untouched.
pub open spec fn canon_entries(es: Seq<(Seq<u8>, SpecValue)>) -> Seq<(Seq<u8>, SpecValue)>
    decreases es, 0int,
{
    if es.len() == 0 {
        Seq::empty()
    } else {
        canon_entries(es.drop_last()).push((es.last().0, canon(es.last().1)))
    }
}

/// Serializing one more element appends its bytes.
proof fn lemma_serialized_elems_snoc(es: Seq<SpecValue>, x: SpecValue)
    ensures
        serialized_elems(es.push(x)) == serialized_elems(es) + serialized(x),
    decreases es.len(),
{
    if es.len() == 0 {
        reveal_with_fuel(serialized_elems, 2);
        assert(es.push(x)[0] == x);
        assert(es.push(x).drop_first() =~= Seq::empty());
        assert(serialized_elems(es.push(x)) =~= serialized(x));
        assert(serialized_elems(es) + serialized(x) =~= serialized(x));
    } else {
        assert(es.push(x).drop_first() =~= es.drop_first().push(x));
        assert(es.push(x)[0] == es[0]);
        lemma_serialized_elems_snoc(es.drop_first(), x);
        assert(serialized_elems(es.push(x)) =~= serialized_elems(es) + serialized(x));
    }
}

/// Serializing one more entry appends its key and value bytes.
proof fn lemma_serialized_entries_snoc(es: Seq<(Seq<u8>, SpecValue)>, x: (Seq<u8>, SpecValue))
    ensures
        serialized_entries(es.push(x)) == serialized_entries(es) + bytes_literal(x.0)
            + serialized(x.1),
    decreases es.len(),
{
    if es.len() == 0 {
        reveal_with_fuel(serialized_entries, 2);
        assert(es.push(x)[0] == x);
        assert(es.push(x).drop_first() =~= Seq::empty());
        assert(serialized_entries(es.push(x)) =~= bytes_literal(x.0) + serialized(x.1));
        assert(serialized_entries(es) + bytes_literal(x.0) + serialized(x.1) =~= bytes_literal(
            x.0,
        ) + serialized(x.1));
    } else {
        assert(es.push(x).drop_first() =~= es.drop_first().push(x));
        assert(es.push(x)[0] == es[0]);
        lemma_serialized_entries_snoc(es.drop_first(), x);
        assert(serialized_entries(es.push(x)) =~= serialized_entries(es) + bytes_literal(x.0)
            + serialized(x.1));
    }
}

/// Where the first key no smaller than `e`'s sits, insertion splits the
/// sequence there.
pub(crate) proof fn lemma_insert_entry_at(e: (Seq<u8>, SpecValue), s: Seq<(Seq<u8>, SpecValue)>, j: int)
    requires
        0 <= j <= s.len(),
        forall|i: int| 0 <= i < j ==> !key_le(e.0, (#[trigger] s[i]).0),
        j == s.len() || key_le(e.0, s[j as int].0),
    ensures
        insert_entry(e, s) == s.take(j) + seq![e] + s.skip(j),
    decreases j,
{
    if j == 0 {
        if s.len() == 0 {
            assert(insert_entry(e, s) =~= s.take(0) + seq![e] + s.skip(0));
        } else {
            assert(insert_entry(e, s) =~= s.take(0) + seq![e] + s.skip(0));
        }
    } else {
        assert(!key_le(e.0, s[0].0));
        assert(forall|i: int|
            0 <= i < j - 1 ==> !key_le(e.0, (#[trigger] s.drop_first()[i]).0));
        assert(j - 1 == s.drop_first().len() || key_le(e.0, s.drop_first()[j - 1].0));
        lemma_insert_entry_at(e, s.drop_first(), j - 1);
        assert(s.drop_first().take(j - 1) =~= s.take(j).drop_first());
        assert(s.drop_first().skip(j - 1) =~= s.skip(j));
        assert(insert_entry(e, s) =~= s.take(j) + seq![e] + s.skip(j));
    }
}

/// `canon_elems` is determined by the pointwise canonical forms.
proof fn lemma_canon_elems_pointwise(a: Seq<SpecValue>, b: Seq<SpecValue>)
    requires
        a.len() == b.len(),
        forall|j: int| 0 <= j < a.len() ==> #[trigger] b[j] == canon(a[j]),
    ensures
        canon_elems(a) == b,
    decreases a.len(),
{
    if a.len() == 0 {
        assert(canon_elems(a) =~= b);
    } else {
        lemma_canon_elems_pointwise(a.drop_last(), b.drop_last());
        assert(b =~= b.drop_last().push(b.last()));
        assert(canon_elems(a) =~= b);
    }
}

/// `canon_entries` is determined by the keys and the pointwise canonical
/// forms of the values.
proof fn lemma_canon_entries_pointwise(a: Seq<(Seq<u8>, SpecValue)>, b: Seq<(Seq<u8>, SpecValue)>)
    requires
        a.len() == b.len(),
        forall|j: int|
            0 <= j < a.len() ==> #[trigger] b[j] == ((a[j].0, canon(a[j].1))),
    ensures
        canon_entries(a) == b,
    decreases a.len(),
{
    if a.len() == 0 {
        assert(canon_entries(a) =~= b);
    } else {
        lemma_canon_entries_pointwise(a.drop_last(), b.drop_last());
        assert(b =~= b.drop_last().push(b.last()));
        assert(canon_entries(a) =~= b);
    }
}

/// Push the decimal digits of `n`, most significant first.
fn push_dec(n: u64, out: &mut Vec<u8>)
    ensures
        final(out)@ == old(out)@ + dec_digits(n as nat),
    decreases n,
{
    if n < 10 {
        out.push(48 + n as u8);
        assert(out@ =~= old(out)@ + dec_digits(n as nat));
    } else {
        push_dec(n / 10, out);
        out.push(48 + (n % 10) as u8);
        assert(out@ =~= old(out)@ + dec_digits(n as nat));
    }
}

/// Push the bencode byte-string literal for `b`: length, `:`, the bytes.
fn push_bytes_literal(b: &Vec<u8>, out: &mut Vec<u8>)
    ensures
        final(out)@ == old(out)@ + bytes_literal(b@),
{
    let ghost pre = out@;
    push_dec(b.len() as u64, out);
    out.push(58);
    let mut i: usize = 0;
    while i < b.len()
        invariant
            0 <= i <= b.len(),
            out@ == pre + dec_digits(b@.len()) + seq![58u8] + b@.take(i as int),
        decreases b.len() - i,
    {
        out.push(b[i]);
        proof {
            assert(b@.take(i + 1) =~= b@.take(i as int).push(b@[i as int]));
            assert(out@ =~= pre + dec_digits(b@.len()) + seq![58u8] + b@.take(i + 1));
        }
        i += 1;
    }
    proof {
        assert(b@.take(b@.len() as int) =~= b@);
        assert(out@ =~= pre + bytes_literal(b@));
    }
}

/// Push the bencode integer term for `i`.
fn push_integer(i: i64, out: &mut Vec<u8>)
    ensures
        final(out)@ == old(out)@ + serialized(SpecValue::Int(i)),
{
    let ghost pre = out@;
    out.push(105);
    if i < 0 {
        out.push(45);
        let m: u64 = (-(i as i128)) as u64;
        push_dec(m, out);
    } else {
        push_dec(i as u64, out);
    }
    out.push(101);
    proof {
        assert(out@ =~= pre + serialized(SpecValue::Int(i)));
    }
}

/// Whether `a` comes no later than `b` in byte-wise lexicographic order.
fn key_le_exec(a: &[u8], b: &[u8]) -> (r: bool)
    ensures
        r == key_le(a@, b@),
{
    let mut i: usize = 0;
    let n = if a.len() < b.len() {
        a.len()
    } else {
        b.len()
    };
    proof {
        assert(a@.skip(0) =~= a@);
        assert(b@.skip(0) =~= b@);
    }
    while i < n
        invariant
            0 <= i <= n,
            n == if a@.len() < b@.len() {
                a@.len()
            } else {
                b@.len()
            },
            key_le(a@, b@) == key_le(a@.skip(i as int), b@.skip(i as int)),
        decreases n - i,
    {
        proof {
            assert(a@.skip(i as int)[0] == a@[i as int]);
            assert(b@.skip(i as int)[0] == b@[i as int]);
            assert(a@.skip(i as int).drop_first() =~= a@.skip(i + 1));
            assert(b@.skip(i as int).drop_first() =~= b@.skip(i + 1));
        }
        if a[i] < b[i] {
            return true;
        }
        if a[i] > b[i] {
            return false;
        }
        i += 1;
    }
    proof {
        if a@.len() <= b@.len() {
            assert(a@.skip(i as int).len() == 0);
        } else {
            assert(b@.skip(i as int).len() == 0);
            assert(a@.skip(i as int).len() > 0);
        }
    }
    a.len() <= b.len()
}

/// Insert an entry into a Vec of entries sorted by key, where
/// [`insert_entry`] puts it.
fn insert_entry_exec(e: (Vec<u8>, Value), s: &mut Vec<(Vec<u8>, Value)>)
    ensures
        view_entries(final(s)@) == insert_entry((e.0@, e.1@), view_entries(old(s)@)),
{
    let ghost sv = view_entries(old(s)@);
    proof {
        lemma_view_entries(old(s)@);
    }
    let mut j: usize = 0;
    while j < s.len() && !key_le_exec(e.0.as_slice(), s[j].0.as_slice())
        invariant
            0 <= j <= s@.len(),
            s@ == old(s)@,
            sv == view_entries(old(s)@),
            sv.len() == s@.len(),
            forall|i: int| 0 <= i < s@.len() ==> sv[i] == ((#[trigger] s@[i]).0@, s@[i].1@),
            forall|i: int| 0 <= i < j ==> !key_le(e.0@, (#[trigger] sv[i]).0),
        decreases s@.len() - j,
    {
        j += 1;
    }
    proof {
        lemma_insert_entry_at((e.0@, e.1@), sv, j as int);
    }
    let ghost before = s@;
    s.insert(j, e);
    proof {
        lemma_view_entries(s@);
        lemma_view_entries(before);
        assert(s@ =~= before.take(j as int) + seq![e] + before.skip(j as int));
        assert forall|i: int|
            0 <= i < s@.len() implies view_entries(s@)[i] == (sv.take(j as int) + seq![
            (e.0@, e.1@),
        ] + sv.skip(j as int))[i] by {
            assert(view_entries(s@)[i] == (s@[i].0@, s@[i].1@));
            if i < j {
                assert(s@[i] == before[i]);
                assert(sv[i] == (before[i].0@, before[i].1@));
            } else if i == j {
                assert(s@[i] == e);
            } else {
                assert(s@[i] == before[i - 1]);
                assert(sv[i - 1] == (before[i - 1].0@, before[i - 1].1@));
            }
        }
        assert(view_entries(s@) =~= sv.take(j as int) + seq![(e.0@, e.1@)] + sv.skip(j as int));
    }
}

/// The canonical form of a value tree: the same tree with every dictionary's
/// entries sorted ascending by key.
pub fn canonicalize(v: &Value) -> (r: Value)
    ensures
        r@ == canon(v@),
    decreases v,
{
    match v {
        Value::Integer(i) => Value::Integer(*i),
        Value::ByteString(b) => Value::ByteString(vstd::slice::slice_to_vec(b.as_slice())),
        Value::List(es) => {
            let mut out: Vec<Value> = Vec::new();
            let mut i: usize = 0;
            while i < es.len()
                invariant
                    *v == Value::List(*es),
                    0 <= i <= es@.len(),
                    out@.len() == i,
                    forall|j: int| 0 <= j < i ==> (#[trigger] out@[j])@ == canon(es@[j]@),
                decreases es@.len() - i,
            {
                proof {
                    assert(*es == v->List_0);
                    assert(decreases_to!(*v => v->List_0));
                    assert(decreases_to!(*es => es@));
                    assert(decreases_to!(es@ => es@[i as int]));
                    assert(decreases_to!(*v => es@[i as int]));
                }
                let c = canonicalize(&es[i]);
                out.push(c);
                i += 1;
            }
            proof {
                lemma_view_elems(es@);
                lemma_view_elems(out@);
                assert forall|j: int|
                    0 <= j < view_elems(es@).len() implies #[trigger] view_elems(out@)[j]
                    == canon(view_elems(es@)[j]) by {
                    assert(view_elems(out@)[j] == out@[j]@);
                    assert(view_elems(es@)[j] == es@[j]@);
                    assert(out@[j]@ == canon(es@[j]@));
                }
                lemma_canon_elems_pointwise(view_elems(es@), view_elems(out@));
            }
            Value::List(out)
        },
        Value::Dictionary(es) => {
            let mut flat: Vec<(Vec<u8>, Value)> = Vec::new();
            let mut i: usize = 0;
            while i < es.len()
                invariant
                    *v == Value::Dictionary(*es),
                    0 <= i <= es@.len(),
                    flat@.len() == i,
                    forall|j: int|
                        0 <= j < i ==> (#[trigger] flat@[j]).0@ == es@[j].0@ && flat@[j].1@
                            == canon(es@[j].1@),
                decreases es@.len() - i,
            {
                let key = vstd::slice::slice_to_vec(es[i].0.as_slice());
                proof {
                    assert(*es == v->Dictionary_0);
                    assert(decreases_to!(*v => v->Dictionary_0));
                    assert(decreases_to!(*es => es@));
                    assert(decreases_to!(es@ => es@[i as int]));
                    assert(decreases_to!(es@[i as int] => es@[i as int].1));
                    assert(decreases_to!(*v => es@[i as int].1));
                }
                let cv = canonicalize(&es[i].1);
                flat.push((key, cv));
                i += 1;
            }
            proof {
                lemma_view_entries(es@);
                lemma_view_entries(flat@);
                assert forall|j: int|
                    0 <= j < view_entries(es@).len() implies #[trigger] view_entries(flat@)[j]
                    == ((view_entries(es@)[j].0, canon(view_entries(es@)[j].1))) by {
                    assert(view_entries(flat@)[j] == (flat@[j].0@, flat@[j].1@));
                    assert(view_entries(es@)[j] == (es@[j].0@, es@[j].1@));
                    assert(flat@[j].0@ == es@[j].0@ && flat@[j].1@ == canon(es@[j].1@));
                }
                lemma_canon_entries_pointwise(view_entries(es@), view_entries(flat@));
            }
            let ghost flat_view = view_entries(flat@);
            let mut sorted: Vec<(Vec<u8>, Value)> = Vec::new();
            proof {
                assert(view_entries(sorted@) =~= Seq::<(Seq<u8>, SpecValue)>::empty());
                assert(flat_view.skip(flat@.len() as int) =~= Seq::<
                    (Seq<u8>, SpecValue),
                >::empty());
                assert(sort_entries(flat_view.skip(flat@.len() as int)) =~= Seq::<
                    (Seq<u8>, SpecValue),
                >::empty());
            }
            while flat.len() > 0
                invariant
                    view_entries(sorted@) == sort_entries(flat_view.skip(flat@.len() as int)),
                    flat_view == canon_entries(view_entries(es@)),
                    forall|j: int|
                        0 <= j < flat@.len() ==> flat_view[j] == ((
                        (#[trigger] flat@[j]).0@,
                        flat@[j].1@,
                        )),
                    flat@.len() <= flat_view.len(),
                decreases flat@.len(),
            {
                let ghost n = flat@.len() as int;
                let e = flat.pop().unwrap();
                proof {
                    assert((e.0@, e.1@) == flat_view[n - 1]);
                    assert(flat_view.skip(n - 1)[0] == flat_view[n - 1]);
                    assert(flat_view.skip(n - 1).drop_first() =~= flat_view.skip(n));
                }
                insert_entry_exec(e, &mut sorted);
            }
            proof {
                assert(flat_view.skip(0) =~= flat_view);
            }
            Value::Dictionary(sorted)
        },
    }
}

/// Append the bencode bytes of `v`, dictionary entries in stored order.
fn emit_value(v: &Value, out: &mut Vec<u8>)
    ensures
        final(out)@ == old(out)@ + serialized(v@),
    decreases v,
{
    let ghost pre = out@;
    match v {
        Value::Integer(i) => {
            push_integer(*i, out);
        },
        Value::ByteString(b) => {
            push_bytes_literal(b, out);
        },
        Value::List(es) => {
            out.push(108);
            let mut i: usize = 0;
            proof {
                assert(view_elems(es@).take(0) =~= Seq::empty());
                assert(out@ =~= pre + seq![108u8] + serialized_elems(view_elems(es@).take(0)));
            }
            while i < es.len()
                invariant
                    *v == Value::List(*es),
                    0 <= i <= es@.len(),
                    out@ == pre + seq![108u8] + serialized_elems(
                        view_elems(es@).take(i as int),
                    ),
                decreases es@.len() - i,
            {
                proof {
                    assert(*es == v->List_0);
                    assert(decreases_to!(*v => v->List_0));
                    assert(decreases_to!(*es => es@));
                    assert(decreases_to!(es@ => es@[i as int]));
                    assert(decreases_to!(*v => es@[i as int]));
                }
                emit_value(&es[i], out);
                proof {
                    lemma_view_elems(es@);
                    assert(view_elems(es@).take(i + 1) =~= view_elems(es@).take(
                        i as int,
                    ).push(es@[i as int]@));
                    lemma_serialized_elems_snoc(view_elems(es@).take(i as int), es@[i as int]@);
                    assert(out@ =~= pre + seq![108u8] + serialized_elems(
                        view_elems(es@).take(i + 1),
                    ));
                }
                i += 1;
            }
            out.push(101);
            proof {
                lemma_view_elems(es@);
                assert(view_elems(es@).take(es@.len() as int) =~= view_elems(es@));
                assert(out@ =~= pre + serialized(v@));
            }
        },
        Value::Dictionary(es) => {
            out.push(100);
            let mut i: usize = 0;
            proof {
                assert(view_entries(es@).take(0) =~= Seq::empty());
                assert(out@ =~= pre + seq![100u8] + serialized_entries(
                    view_entries(es@).take(0),
                ));
            }
            while i < es.len()
                invariant
                    *v == Value::Dictionary(*es),
                    0 <= i <= es@.len(),
                    out@ == pre + seq![100u8] + serialized_entries(
                        view_entries(es@).take(i as int),
                    ),
                decreases es@.len() - i,
            {
                proof {
                    assert(*es == v->Dictionary_0);
                    assert(decreases_to!(*v => v->Dictionary_0));
                    assert(decreases_to!(*es => es@));
                    assert(decreases_to!(es@ => es@[i as int]));
                    assert(decreases_to!(es@[i as int] => es@[i as int].1));
                    assert(decreases_to!(*v => es@[i as int].1));
                }
                push_bytes_literal(&es[i].0, out);
                emit_value(&es[i].1, out);
                proof {
                    lemma_view_entries(es@);
                    assert(view_entries(es@).take(i + 1) =~= view_entries(es@).take(
                        i as int,
                    ).push((es@[i as int].0@, es@[i as int].1@)));
                    lemma_serialized_entries_snoc(
                        view_entries(es@).take(i as int),
                        (es@[i as int].0@, es@[i as int].1@),
                    );
                    assert(out@ =~= pre + seq![100u8] + serialized_entries(
                        view_entries(es@).take(i + 1),
                    ));
                }
                i += 1;
            }
            out.push(101);
            proof {
                lemma_view_entries(es@);
                assert(view_entries(es@).take(es@.len() as int) =~= view_entries(es@));
                assert(out@ =~= pre + serialized(v@));
            }
        },
    }
}

/// Encode a value canonically: the bencode bytes of [`canon`] of the value,
/// so that semantically identical dictionaries give identical bytes whatever
/// order their entries were constructed in.
pub fn encode(v: &Value) -> (r: Vec<u8>)
    ensures
        r@ == serialized(canon(v@)),
{
    let c = canonicalize(v);
    let mut out: Vec<u8> = Vec::new();
    emit_value(&c, &mut out);
    proof {
        assert(out@ =~= serialized(canon(v@)));
    }
    out
}

} // verus!
