//! The round-trip law: decoding the canonical encoding of a well-formed value
//! gives that value back, consuming the whole encoding.
//!
//! [`lemma_round_trip`] states it over the specification parser and the
//! specification serializer, so together with the exact contracts of
//! [`crate::decode::decode`] and [`crate::encode::encode`] it covers the
//! executable functions as well.

use vstd::prelude::*;

use crate::decode::{
    digits_len, digits_val, is_digit, lemma_digits_len_char, spec_parse, spec_parse_elems,
    spec_parse_entries, DecodeError,
};
use crate::encode::{
    bytes_literal, canon, canon_elems, canon_entries, dec_digits, insert_entry, int_bytes, key_le,
    serialized, serialized_elems, serialized_entries, sort_entries,
};
use crate::value::{distinct_keys, wf, SpecValue};

verus! {

/// Some entry of `es` has key `k`.
pub open spec fn has_key(es: Seq<(Seq<u8>, SpecValue)>, k: Seq<u8>) -> bool {
    exists|i: int| 0 <= i < es.len() && (#[trigger] es[i]).0 == k
}

/// The decimal digits of `n` are digits, denote `n`, and have no leading zero
/// unless `n` itself is zero.
proof fn lemma_dec_digits(n: nat)
    ensures
        dec_digits(n).len() >= 1,
        forall|j: int| 0 <= j < dec_digits(n).len() ==> is_digit(#[trigger] dec_digits(n)[j]),
        digits_val(dec_digits(n)) == n,
        dec_digits(n)[0] == 48 ==> n == 0,
        n == 0 ==> dec_digits(n).len() == 1,
    decreases n,
{
    if n < 10 {
        let d = dec_digits(n);
        assert(d == seq![(48 + n) as u8]);
        assert(d.drop_last() =~= Seq::empty());
        assert(digits_val(d) == 10 * digits_val(d.drop_last()) + (d.last() - 48));
    } else {
        lemma_dec_digits(n / 10);
        let p = dec_digits(n / 10);
        let d = dec_digits(n);
        assert(d == p.push((48 + n % 10) as u8));
        assert(d.drop_last() =~= p);
        assert(d.last() == (48 + n % 10) as u8);
        assert(digits_val(d) == 10 * digits_val(p) + (d.last() - 48));
        assert(digits_val(d) == 10 * (n / 10) + n % 10);
        assert(d[0] == p[0]);
        assert forall|j: int| 0 <= j < d.len() implies is_digit(#[trigger] d[j]) by {
            if j < p.len() {
                assert(d[j] == p[j]);
            }
        }
    }
}

/// A serialized term is non-empty and never starts with a terminator byte or
/// a colon.
proof fn lemma_serialized_first(v: SpecValue)
    ensures
        serialized(v).len() >= 1,
        serialized(v)[0] != 101,
        serialized(v)[0] != 58,
{
    match v {
        SpecValue::Int(_) => {
            assert(serialized(v)[0] == 105);
        },
        SpecValue::Bytes(b) => {
            lemma_dec_digits(b.len());
            assert(serialized(v)[0] == dec_digits(b.len())[0]);
        },
        SpecValue::List(_) => {
            assert(serialized(v)[0] == 108);
        },
        SpecValue::Dict(_) => {
            assert(serialized(v)[0] == 100);
        },
    }
}

/// The first position in `s` whose key is at least `k`, or the length.
spec fn first_ge(k: Seq<u8>, s: Seq<(Seq<u8>, SpecValue)>) -> int
    decreases s.len(),
{
    if s.len() == 0 {
        0
    } else if key_le(k, s[0].0) {
        0
    } else {
        1 + first_ge(k, s.drop_first())
    }
}

proof fn lemma_first_ge(k: Seq<u8>, s: Seq<(Seq<u8>, SpecValue)>)
    ensures
        0 <= first_ge(k, s) <= s.len(),
        forall|i: int| 0 <= i < first_ge(k, s) ==> !key_le(k, (#[trigger] s[i]).0),
        first_ge(k, s) == s.len() || key_le(k, s[first_ge(k, s)].0),
    decreases s.len(),
{
    if s.len() > 0 && !key_le(k, s[0].0) {
        lemma_first_ge(k, s.drop_first());
        let j = first_ge(k, s);
        assert forall|i: int| 0 <= i < j implies !key_le(k, (#[trigger] s[i]).0) by {
            if i > 0 {
                assert(s.drop_first()[i - 1] == s[i]);
            }
        }
        if j < s.len() {
            assert(s.drop_first()[j - 1] == s[j]);
        }
    }
}

/// Inserting splits the sequence at the first fitting position, so insertion
/// keeps distinct keys distinct, keeps well-formed values well-formed, and
/// adds exactly the new key.
proof fn lemma_insert_entry_props(e: (Seq<u8>, SpecValue), s: Seq<(Seq<u8>, SpecValue)>)
    requires
        distinct_keys(s),
        !has_key(s, e.0),
        wf(e.1),
        forall|i: int| 0 <= i < s.len() ==> wf((#[trigger] s[i]).1),
    ensures
        insert_entry(e, s).len() == s.len() + 1,
        distinct_keys(insert_entry(e, s)),
        forall|i: int| 0 <= i < insert_entry(e, s).len() ==> wf(
            (#[trigger] insert_entry(e, s)[i]).1,
        ),
        forall|x: Seq<u8>| has_key(insert_entry(e, s), x) <==> (x == e.0 || has_key(s, x)),
{
    lemma_first_ge(e.0, s);
    let j = first_ge(e.0, s);
    crate::encode::lemma_insert_entry_at(e, s, j);
    let r = insert_entry(e, s);
    assert(r =~= s.take(j) + seq![e] + s.skip(j));
    assert forall|i: int| 0 <= i < r.len() implies ((if i < j {
        r[i] == s[i]
    } else if i == j {
        r[i] == e
    } else {
        r[i] == s[i - 1]
    })) by {
        if i < j {
            assert(r[i] == s.take(j)[i]);
        } else if i > j {
            assert(r[i] == s.skip(j)[i - j - 1]);
        }
    }
    assert forall|i1: int, i2: int| 0 <= i1 < i2 < r.len() implies r[i1].0 != r[i2].0 by {
        if i1 != j && i2 != j {
            let m1 = if i1 < j {
                i1
            } else {
                i1 - 1
            };
            let m2 = if i2 < j {
                i2
            } else {
                i2 - 1
            };
            assert(r[i1] == s[m1] && r[i2] == s[m2]);
        } else if i1 == j {
            assert(r[i2] == s[i2 - 1]);
            assert(!has_key(s, e.0));
            if r[i2].0 == e.0 {
                assert(has_key(s, e.0));
            }
        } else {
            assert(r[i1] == s[i1]);
            if r[i1].0 == e.0 {
                assert(has_key(s, e.0));
            }
        }
    }
    assert forall|x: Seq<u8>| has_key(r, x) <==> (x == e.0 || has_key(s, x)) by {
        if has_key(r, x) {
            let i = choose|i: int| 0 <= i < r.len() && (#[trigger] r[i]).0 == x;
            if i < j {
                assert(s[i].0 == x);
            } else if i > j {
                assert(s[i - 1].0 == x);
            }
        }
        if x == e.0 {
            assert(r[j].0 == x);
        }
        if has_key(s, x) {
            let i = choose|i: int| 0 <= i < s.len() && (#[trigger] s[i]).0 == x;
            if i < j {
                assert(r[i].0 == x);
            } else {
                assert(r[i + 1].0 == x);
            }
        }
    }
}

/// Sorting keeps length, distinct keys, well-formed values, and the key set.
proof fn lemma_sort_entries_props(s: Seq<(Seq<u8>, SpecValue)>)
    requires
        distinct_keys(s),
        forall|i: int| 0 <= i < s.len() ==> wf((#[trigger] s[i]).1),
    ensures
        sort_entries(s).len() == s.len(),
        distinct_keys(sort_entries(s)),
        forall|i: int| 0 <= i < sort_entries(s).len() ==> wf(
            (#[trigger] sort_entries(s)[i]).1,
        ),
        forall|x: Seq<u8>| has_key(sort_entries(s), x) <==> has_key(s, x),
    decreases s.len(),
{
    if s.len() > 0 {
        let t = s.drop_first();
        assert forall|i1: int, i2: int| 0 <= i1 < i2 < t.len() implies (#[trigger] t[i1]).0 != (
        #[trigger] t[i2]).0 by {
            assert(t[i1] == s[i1 + 1] && t[i2] == s[i2 + 1]);
        }
        assert(forall|i: int| 0 <= i < t.len() ==> (#[trigger] t[i]) == s[i + 1]);
        lemma_sort_entries_props(t);
        if has_key(sort_entries(t), s[0].0) {
            assert(has_key(t, s[0].0));
            let i = choose|i: int| 0 <= i < t.len() && (#[trigger] t[i]).0 == s[0].0;
            assert(s[i + 1].0 == s[0].0);
            assert(false);
        }
        lemma_insert_entry_props(s[0], sort_entries(t));
        assert(sort_entries(s) == insert_entry(s[0], sort_entries(t)));
        assert forall|x: Seq<u8>| has_key(sort_entries(s), x) <==> has_key(s, x) by {
            if x == s[0].0 {
                assert(s[0].0 == x);
                assert(has_key(s, x));
            }
            if has_key(t, x) {
                let i = choose|i: int| 0 <= i < t.len() && (#[trigger] t[i]).0 == x;
                assert(s[i + 1].0 == x);
                assert(has_key(s, x));
            }
            if has_key(s, x) && x != s[0].0 {
                let i = choose|i: int| 0 <= i < s.len() && (#[trigger] s[i]).0 == x;
                assert(t[i - 1].0 == x);
                assert(has_key(t, x));
            }
        }
    }
}

/// `canon_elems` maps `canon` over the elements.
proof fn lemma_canon_elems_index(es: Seq<SpecValue>)
    ensures
        canon_elems(es).len() == es.len(),
        forall|i: int| 0 <= i < es.len() ==> canon_elems(es)[i] == canon(#[trigger] es[i]),
    decreases es.len(),
{
    if es.len() > 0 {
        lemma_canon_elems_index(es.drop_last());
        assert forall|i: int| 0 <= i < es.len() implies canon_elems(es)[i] == canon(
        #[trigger] es[i]) by {
            if i < es.len() - 1 {
                assert(es.drop_last()[i] == es[i]);
            }
        }
    }
}

/// `canon_entries` keeps keys and maps `canon` over the values.
proof fn lemma_canon_entries_index(es: Seq<(Seq<u8>, SpecValue)>)
    ensures
        canon_entries(es).len() == es.len(),
        forall|i: int| 0 <= i < es.len() ==> canon_entries(es)[i] == ((
            (#[trigger] es[i]).0,
            canon(es[i].1),
        )),
    decreases es.len(),
{
    if es.len() > 0 {
        lemma_canon_entries_index(es.drop_last());
        assert forall|i: int| 0 <= i < es.len() implies canon_entries(es)[i] == ((
        (#[trigger] es[i]).0, canon(es[i].1))) by {
            if i < es.len() - 1 {
                assert(es.drop_last()[i] == es[i]);
            }
        }
    }
}

/// Canonicalization preserves well-formedness.
pub proof fn lemma_canon_wf(v: SpecValue)
    requires
        wf(v),
    ensures
        wf(canon(v)),
    decreases v,
{
    match v {
        SpecValue::Int(_) => {},
        SpecValue::Bytes(_) => {},
        SpecValue::List(es) => {
            lemma_canon_elems_index(es);
            assert forall|i: int| 0 <= i < canon_elems(es).len() implies wf(
                #[trigger] canon_elems(es)[i],
            ) by {
                assert(wf(es[i]));
                lemma_canon_wf(es[i]);
            }
        },
        SpecValue::Dict(es) => {
            lemma_canon_entries_index(es);
            let ce = canon_entries(es);
            assert forall|i1: int, i2: int| 0 <= i1 < i2 < ce.len() implies (
            #[trigger] ce[i1]).0 != (#[trigger] ce[i2]).0 by {
                assert(ce[i1].0 == es[i1].0 && ce[i2].0 == es[i2].0);
            }
            assert forall|i: int| 0 <= i < ce.len() implies wf((#[trigger] ce[i]).1) by {
                assert(ce[i].1 == canon(es[i].1));
                assert(wf(es[i].1));
                lemma_canon_wf(es[i].1);
            }
            lemma_sort_entries_props(ce);
        },
    }
}


/// Pushing an element adds exactly that element to membership.
proof fn lemma_push_contains(s: Seq<Seq<u8>>, k: Seq<u8>, x: Seq<u8>)
    ensures
        s.push(k).contains(x) <==> (s.contains(x) || x == k),
{
    if s.push(k).contains(x) {
        let i = choose|i: int| 0 <= i < s.push(k).len() && s.push(k)[i] == x;
        if i < s.len() {
            assert(s[i] == x);
        }
    }
    if s.contains(x) {
        let i = choose|i: int| 0 <= i < s.len() && s[i] == x;
        assert(s.push(k)[i] == x);
    }
    assert(s.push(k)[s.len() as int] == k);
}

/// A byte-string literal parses back to its bytes, consuming exactly itself.
proof fn lemma_parse_bytes_literal(b: Seq<u8>, rest: Seq<u8>)
    ensures
        spec_parse(bytes_literal(b) + rest) == Ok::<_, DecodeError>(
            (SpecValue::Bytes(b), bytes_literal(b).len() as int),
        ),
{
    let el = b.len();
    lemma_dec_digits(el);
    let dd = dec_digits(el);
    let s = bytes_literal(b) + rest;
    assert(s =~= dd + seq![58u8] + b + rest);
    let k = dd.len() as int;
    assert(s[0] == dd[0]);
    assert(is_digit(s[0]));
    assert(s[0] != 105 && s[0] != 108 && s[0] != 100);
    assert forall|j: int| 0 <= j < k implies is_digit(#[trigger] s[j]) by {
        assert(s[j] == dd[j]);
    }
    assert(s[k] == 58);
    lemma_digits_len_char(s, k);
    assert(s.take(k) =~= dd);
    assert(digits_val(s.take(k)) == el);
    assert(s.skip(k + 1) =~= b + rest);
    assert(s.skip(k + 1).take(el as int) =~= b);
    assert(spec_parse(s) == Ok::<_, DecodeError>((SpecValue::Bytes(b), k + 1 + el)));
    assert(bytes_literal(b).len() == k + 1 + el);
}

/// The serialization of a well-formed value, followed by anything, parses
/// back to exactly that value, consuming exactly the serialization.
pub proof fn lemma_parse_serialized(v: SpecValue, rest: Seq<u8>)
    requires
        wf(v),
    ensures
        spec_parse(serialized(v) + rest) == Ok::<_, DecodeError>(
            (v, serialized(v).len() as int),
        ),
    decreases v, 0int,
{
    let s = serialized(v) + rest;
    match v {
        SpecValue::Int(i) => {
            assert(s =~= seq![105u8] + int_bytes(i as int) + seq![101u8] + rest);
            assert(s[0] == 105);
            let t = s.drop_first();
            assert(t =~= int_bytes(i as int) + seq![101u8] + rest);
            if i < 0 {
                let m = (-(i as int)) as nat;
                lemma_dec_digits(m);
                let dd = dec_digits(m);
                assert(t[0] == 45);
                let d = t.drop_first();
                assert(d =~= dd + seq![101u8] + rest);
                let k = dd.len() as int;
                assert forall|j: int| 0 <= j < k implies is_digit(#[trigger] d[j]) by {
                    assert(d[j] == dd[j]);
                }
                assert(d[k] == 101);
                lemma_digits_len_char(d, k);
                assert(d[0] == dd[0]);
                assert(d[0] != 48);
                assert(d.take(k) =~= dd);
                assert(digits_val(d.take(k)) == m);
                assert(spec_parse(s) == Ok::<_, DecodeError>(
                    (SpecValue::Int(i), 1 + 1 + k + 1),
                ));
                assert(serialized(v).len() == 1 + (1 + k) + 1);
            } else {
                let m = i as nat;
                lemma_dec_digits(m);
                let dd = dec_digits(m);
                assert(t =~= dd + seq![101u8] + rest);
                assert(t[0] == dd[0]);
                assert(is_digit(t[0]));
                assert(t[0] != 45);
                let k = dd.len() as int;
                assert forall|j: int| 0 <= j < k implies is_digit(#[trigger] t[j]) by {
                    assert(t[j] == dd[j]);
                }
                assert(t[k] == 101);
                lemma_digits_len_char(t, k);
                assert(t[0] == 48 ==> m == 0 && k == 1);
                assert(t.take(k) =~= dd);
                assert(digits_val(t.take(k)) == m);
                assert(spec_parse(s) == Ok::<_, DecodeError>(
                    (SpecValue::Int(i), 1 + 0 + k + 1),
                ));
                assert(serialized(v).len() == 1 + k + 1);
            }
        },
        SpecValue::Bytes(b) => {
            lemma_parse_bytes_literal(b, rest);
        },
        SpecValue::List(es) => {
            assert(s =~= seq![108u8] + serialized_elems(es) + seq![101u8] + rest);
            assert(s[0] == 108);
            assert(!is_digit(s[0]) && s[0] != 105);
            assert(s.drop_first() =~= serialized_elems(es) + seq![101u8] + rest);
            lemma_parse_elems_serialized(es, rest);
            assert(serialized(v).len() == 1 + serialized_elems(es).len() + 1);
        },
        SpecValue::Dict(es) => {
            assert(s =~= seq![100u8] + serialized_entries(es) + seq![101u8] + rest);
            assert(s[0] == 100);
            assert(!is_digit(s[0]) && s[0] != 105 && s[0] != 108);
            assert(s.drop_first() =~= serialized_entries(es) + seq![101u8] + rest);
            assert(forall|i: int| 0 <= i < es.len() ==> !Seq::<Seq<u8>>::empty().contains(
                (#[trigger] es[i]).0,
            ));
            lemma_parse_entries_serialized(es, Seq::empty(), rest);
            assert(serialized(v).len() == 1 + serialized_entries(es).len() + 1);
        },
    }
}

/// The serializations of well-formed list elements, a terminator, and
/// anything after parse back to exactly those elements.
proof fn lemma_parse_elems_serialized(es: Seq<SpecValue>, rest: Seq<u8>)
    requires
        forall|i: int| 0 <= i < es.len() ==> wf(#[trigger] es[i]),
    ensures
        spec_parse_elems(serialized_elems(es) + seq![101u8] + rest) == Ok::<_, DecodeError>(
            (es, serialized_elems(es).len() + 1 as int),
        ),
    decreases es, 1int,
{
    let s = serialized_elems(es) + seq![101u8] + rest;
    if es.len() == 0 {
        assert(s =~= seq![101u8] + rest);
        assert(s[0] == 101);
        assert(es =~= Seq::<SpecValue>::empty());
    } else {
        let tail1 = serialized_elems(es.drop_first()) + seq![101u8] + rest;
        assert(s =~= serialized(es[0]) + tail1);
        lemma_serialized_first(es[0]);
        assert(s[0] == serialized(es[0])[0]);
        assert(s[0] != 101);
        assert(wf(es[0]));
        lemma_parse_serialized(es[0], tail1);
        let n = serialized(es[0]).len() as int;
        assert(spec_parse(s) == Ok::<_, DecodeError>((es[0], n)));
        assert(s.skip(n) =~= tail1);
        assert(forall|i: int|
            0 <= i < es.drop_first().len() ==> wf(#[trigger] es.drop_first()[i]));
        lemma_parse_elems_serialized(es.drop_first(), rest);
        assert(seq![es[0]] + es.drop_first() =~= es);
        assert(serialized_elems(es).len() == n + serialized_elems(es.drop_first()).len());
    }
}

/// The serializations of well-formed dictionary entries with distinct keys
/// not yet seen, a terminator, and anything after parse back to exactly
/// those entries.
#[verifier::rlimit(100)]
#[verifier::spinoff_prover]
proof fn lemma_parse_entries_serialized(
    es: Seq<(Seq<u8>, SpecValue)>,
    seen: Seq<Seq<u8>>,
    rest: Seq<u8>,
)
    requires
        distinct_keys(es),
        forall|i: int| 0 <= i < es.len() ==> wf((#[trigger] es[i]).1),
        forall|i: int| 0 <= i < es.len() ==> !seen.contains((#[trigger] es[i]).0),
    ensures
        spec_parse_entries(serialized_entries(es) + seq![101u8] + rest, seen) == Ok::<
            _,
            DecodeError,
        >((es, serialized_entries(es).len() + 1 as int)),
    decreases es, 1int,
{
    let s = serialized_entries(es) + seq![101u8] + rest;
    if es.len() == 0 {
        assert(s =~= seq![101u8] + rest);
        assert(s[0] == 101);
        assert(es =~= Seq::<(Seq<u8>, SpecValue)>::empty());
    } else {
        let key = es[0].0;
        let v0 = es[0].1;
        let drop = es.drop_first();
        let tail2 = serialized_entries(drop) + seq![101u8] + rest;
        let tail1 = serialized(v0) + tail2;
        assert(s =~= bytes_literal(key) + tail1);
        lemma_dec_digits(key.len());
        assert(s[0] == dec_digits(key.len())[0]);
        assert(s[0] != 101);
        lemma_parse_bytes_literal(key, tail1);
        let n = bytes_literal(key).len() as int;
        assert(spec_parse(s) == Ok::<_, DecodeError>((SpecValue::Bytes(key), n)));
        assert(!seen.contains(key));
        assert(s.skip(n) =~= tail1);
        assert(wf(v0));
        lemma_parse_serialized(v0, tail2);
        let m = serialized(v0).len() as int;
        assert(spec_parse(s.skip(n)) == Ok::<_, DecodeError>((v0, m)));
        assert(s.skip(n + m) =~= tail2);
        assert forall|i1: int, i2: int| 0 <= i1 < i2 < drop.len() implies (
        #[trigger] drop[i1]).0 != (#[trigger] drop[i2]).0 by {
            assert(drop[i1] == es[i1 + 1] && drop[i2] == es[i2 + 1]);
        }
        assert forall|i: int| 0 <= i < drop.len() implies wf((#[trigger] drop[i]).1) by {
            assert(drop[i] == es[i + 1]);
        }
        assert forall|i: int| 0 <= i < drop.len() implies !seen.push(key).contains(
            (#[trigger] drop[i]).0,
        ) by {
            assert(drop[i] == es[i + 1]);
            assert(es[i + 1].0 != es[0].0);
            assert(!seen.contains(es[i + 1].0));
            lemma_push_contains(seen, key, es[i + 1].0);
        }
        lemma_parse_entries_serialized(drop, seen.push(key), rest);
        assert(es[0] == (key, v0));
        assert(seq![(key, v0)] + drop =~= es);
        assert(serialized_entries(es).len() == n + m + serialized_entries(drop).len());
    }
}

/// Round trip: the canonical encoding of any well-formed value decodes back
/// to the canonical form of that value, which is structurally equal to it up
/// to dictionary key order, and the whole encoding is consumed.
pub proof fn lemma_round_trip(v: SpecValue)
    requires
        wf(v),
    ensures
        wf(canon(v)),
        spec_parse(serialized(canon(v))) == Ok::<_, DecodeError>(
            (canon(v), serialized(canon(v)).len() as int),
        ),
{
    lemma_canon_wf(v);
    lemma_parse_serialized(canon(v), Seq::empty());
    assert(serialized(canon(v)) + Seq::<u8>::empty() =~= serialized(canon(v)));
}


/// Every value the specification parser accepts is well-formed, and a
/// successful parse consumes at least one and at most all bytes.
pub proof fn lemma_parse_wf(s: Seq<u8>)
    ensures
        match spec_parse(s) {
            Ok(p) => wf(p.0) && 1 <= p.1 <= s.len(),
            Err(_) => true,
        },
    decreases s.len(), 0int,
{
    if s.len() == 0 {
    } else if s[0] == 105 {
        let t = s.drop_first();
        let neg = t.len() > 0 && t[0] == 45;
        let d = if neg {
            t.drop_first()
        } else {
            t
        };
        crate::decode::lemma_digits_len_digits(d);
    } else if is_digit(s[0]) {
        let k = digits_len(s) as int;
        crate::decode::lemma_digits_len_digits(s);
        if k < s.len() && s[k] == 58 {
            assert forall|j: int| 0 <= j < s.take(k).len() implies is_digit(
                #[trigger] s.take(k)[j],
            ) by {
                assert(s.take(k)[j] == s[j]);
            }
            crate::decode::lemma_digits_val_nonneg(s.take(k));
        }
    } else if s[0] == 108 {
        lemma_parse_elems_wf(s.drop_first());
    } else if s[0] == 100 {
        lemma_parse_entries_wf(s.drop_first(), Seq::empty());
    }
}

/// Soundness of list-element parsing: all elements well-formed, consumption
/// within bounds.
proof fn lemma_parse_elems_wf(s: Seq<u8>)
    ensures
        match spec_parse_elems(s) {
            Ok(p) => 1 <= p.1 <= s.len() && forall|i: int|
                0 <= i < p.0.len() ==> wf(#[trigger] p.0[i]),
            Err(_) => true,
        },
    decreases s.len(), 1int,
{
    if s.len() == 0 {
    } else if s[0] == 101 {
    } else {
        lemma_parse_wf(s);
        match spec_parse(s) {
            Err(_) => {},
            Ok((v, n)) => {
                if 1 <= n <= s.len() {
                    lemma_parse_elems_wf(s.skip(n));
                    match spec_parse_elems(s.skip(n)) {
                        Err(_) => {},
                        Ok((vs, m)) => {
                            assert forall|i: int| 0 <= i < (seq![v] + vs).len() implies wf(
                                #[trigger] (seq![v] + vs)[i],
                            ) by {
                                if i > 0 {
                                    assert((seq![v] + vs)[i] == vs[i - 1]);
                                }
                            }
                        },
                    }
                }
            },
        }
    }
}

/// Soundness of dictionary-entry parsing: keys distinct and none already
/// seen, values well-formed, consumption within bounds.
proof fn lemma_parse_entries_wf(s: Seq<u8>, seen: Seq<Seq<u8>>)
    ensures
        match spec_parse_entries(s, seen) {
            Ok(p) => 1 <= p.1 <= s.len() && distinct_keys(p.0) && (forall|i: int|
                0 <= i < p.0.len() ==> wf((#[trigger] p.0[i]).1)) && (forall|i: int|
                0 <= i < p.0.len() ==> !seen.contains((#[trigger] p.0[i]).0)),
            Err(_) => true,
        },
    decreases s.len(), 1int,
{
    if s.len() == 0 {
    } else if s[0] == 101 {
    } else {
        lemma_parse_wf(s);
        match spec_parse(s) {
            Err(_) => {},
            Ok((kv, n)) => {
                if kv is Bytes {
                    let key = kv->Bytes_0;
                    if !seen.contains(key) && 1 <= n <= s.len() {
                        lemma_parse_wf(s.skip(n));
                        match spec_parse(s.skip(n)) {
                            Err(_) => {},
                            Ok((v, m)) => {
                                if 1 <= m <= s.len() - n {
                                    lemma_parse_entries_wf(s.skip(n + m), seen.push(key));
                                    match spec_parse_entries(s.skip(n + m), seen.push(key)) {
                                        Err(_) => {},
                                        Ok((es, t)) => {
                                            let r = seq![(key, v)] + es;
                                            assert forall|i: int|
                                                0 <= i < r.len() implies wf(
                                                (#[trigger] r[i]).1,
                                            ) by {
                                                if i > 0 {
                                                    assert(r[i] == es[i - 1]);
                                                }
                                            }
                                            assert forall|i: int|
                                                0 <= i < r.len() implies !seen.contains(
                                                (#[trigger] r[i]).0,
                                            ) by {
                                                if i > 0 {
                                                    assert(r[i] == es[i - 1]);
                                                    lemma_push_contains(
                                                        seen,
                                                        key,
                                                        es[i - 1].0,
                                                    );
                                                }
                                            }
                                            assert forall|i1: int, i2: int|
                                                0 <= i1 < i2 < r.len() implies (
                                            #[trigger] r[i1]).0 != (#[trigger] r[i2]).0 by {
                                                if i1 == 0 {
                                                    assert(r[i2] == es[i2 - 1]);
                                                    lemma_push_contains(
                                                        seen,
                                                        key,
                                                        es[i2 - 1].0,
                                                    );
                                                } else {
                                                    assert(r[i1] == es[i1 - 1]);
                                                    assert(r[i2] == es[i2 - 1]);
                                                }
                                            }
                                        },
                                    }
                                }
                            },
                        }
                    }
                }
            },
        }
    }
}


/// `key_le` is total: of two keys, one comes no later than the other.
proof fn lemma_key_le_total(a: Seq<u8>, b: Seq<u8>)
    ensures
        key_le(a, b) || key_le(b, a),
    decreases a.len(),
{
    if a.len() > 0 && b.len() > 0 && a[0] == b[0] {
        lemma_key_le_total(a.drop_first(), b.drop_first());
    }
}

/// `key_le` is transitive.
proof fn lemma_key_le_trans(a: Seq<u8>, b: Seq<u8>, c: Seq<u8>)
    requires
        key_le(a, b),
        key_le(b, c),
    ensures
        key_le(a, c),
    decreases a.len(),
{
    if a.len() > 0 && b.len() > 0 && c.len() > 0 && a[0] == b[0] && b[0] == c[0] {
        lemma_key_le_trans(a.drop_first(), b.drop_first(), c.drop_first());
    }
}

/// The entries are in ascending key order.
pub open spec fn sorted_entries(s: Seq<(Seq<u8>, SpecValue)>) -> bool {
    forall|i: int, j: int|
        0 <= i < j < s.len() ==> key_le((#[trigger] s[i]).0, (#[trigger] s[j]).0)
}

/// Insertion into a sorted sequence keeps it sorted, and every entry of the
/// result is the inserted one or one of the old ones.
proof fn lemma_insert_entry_sorted(e: (Seq<u8>, SpecValue), s: Seq<(Seq<u8>, SpecValue)>)
    requires
        sorted_entries(s),
    ensures
        sorted_entries(insert_entry(e, s)),
        insert_entry(e, s).len() == s.len() + 1,
        forall|i: int|
            0 <= i < insert_entry(e, s).len() ==> (#[trigger] insert_entry(e, s)[i]) == e
                || s.contains(insert_entry(e, s)[i]),
{
    lemma_first_ge(e.0, s);
    let j = first_ge(e.0, s);
    crate::encode::lemma_insert_entry_at(e, s, j);
    let r = insert_entry(e, s);
    assert(r =~= s.take(j) + seq![e] + s.skip(j));
    assert forall|i: int| 0 <= i < r.len() implies ((if i < j {
        r[i] == s[i]
    } else if i == j {
        r[i] == e
    } else {
        r[i] == s[i - 1]
    })) by {
        if i < j {
            assert(r[i] == s.take(j)[i]);
        } else if i > j {
            assert(r[i] == s.skip(j)[i - j - 1]);
        }
    }
    assert forall|i1: int, i2: int|
        0 <= i1 < i2 < r.len() implies key_le((#[trigger] r[i1]).0, (#[trigger] r[i2]).0) by {
        if i1 == j {
            // e before an old entry at or after the split
            assert(r[i2] == s[i2 - 1] && j <= i2 - 1 < s.len());
            if i2 - 1 == j {
                assert(key_le(e.0, s[j as int].0));
            } else {
                assert(key_le(e.0, s[j as int].0));
                assert(key_le(s[j as int].0, s[i2 - 1].0));
                lemma_key_le_trans(e.0, s[j as int].0, s[i2 - 1].0);
            }
        } else if i2 == j {
            // an old entry before the split, then e
            assert(r[i1] == s[i1]);
            assert(!key_le(e.0, s[i1].0));
            lemma_key_le_total(e.0, s[i1].0);
        } else {
            let m1 = if i1 < j {
                i1
            } else {
                i1 - 1
            };
            let m2 = if i2 < j {
                i2
            } else {
                i2 - 1
            };
            assert(r[i1] == s[m1] && r[i2] == s[m2]);
            assert(key_le(s[m1].0, s[m2].0));
        }
    }
    assert forall|i: int| 0 <= i < r.len() implies (#[trigger] r[i]) == e || s.contains(r[i]) by {
        if i < j {
            assert(r[i] == s[i]);
        } else if i > j {
            assert(r[i] == s[i - 1]);
        }
    }
}

/// Sorting sorts, and every entry of the result is one of the input's.
proof fn lemma_sort_entries_sorted(s: Seq<(Seq<u8>, SpecValue)>)
    ensures
        sorted_entries(sort_entries(s)),
        sort_entries(s).len() == s.len(),
        forall|i: int| 0 <= i < sort_entries(s).len() ==> s.contains(
            #[trigger] sort_entries(s)[i],
        ),
    decreases s.len(),
{
    if s.len() > 0 {
        let t = s.drop_first();
        lemma_sort_entries_sorted(t);
        lemma_insert_entry_sorted(s[0], sort_entries(t));
        assert(sort_entries(s) == insert_entry(s[0], sort_entries(t)));
        assert forall|i: int| 0 <= i < sort_entries(s).len() implies s.contains(
            #[trigger] sort_entries(s)[i],
        ) by {
            let x = sort_entries(s)[i];
            if x == s[0] {
                assert(s[0] == x);
            } else {
                assert(sort_entries(t).contains(x));
                let k = choose|k: int| 0 <= k < sort_entries(t).len() && sort_entries(t)[k] == x;
                assert(t.contains(x));
                let m = choose|m: int| 0 <= m < t.len() && t[m] == x;
                assert(s[m + 1] == x);
            }
        }
    }
}

/// Sorting an already sorted sequence changes nothing.
proof fn lemma_sort_entries_identity(s: Seq<(Seq<u8>, SpecValue)>)
    requires
        sorted_entries(s),
    ensures
        sort_entries(s) == s,
    decreases s.len(),
{
    if s.len() > 0 {
        let t = s.drop_first();
        assert forall|i: int, j: int|
            0 <= i < j < t.len() implies key_le((#[trigger] t[i]).0, (#[trigger] t[j]).0) by {
            assert(t[i] == s[i + 1] && t[j] == s[j + 1]);
        }
        lemma_sort_entries_identity(t);
        assert(sort_entries(s) == insert_entry(s[0], t));
        if t.len() == 0 {
            assert(insert_entry(s[0], t) =~= s);
        } else {
            assert(t[0] == s[1]);
            assert(key_le(s[0].0, s[1].0));
            assert(insert_entry(s[0], t) =~= seq![s[0]] + t);
            assert(seq![s[0]] + t =~= s);
        }
    }
}

/// Canonicalization is idempotent: the canonical form is a fixed point, so a
/// decode of a canonical encoding re-encodes to the same bytes.
pub proof fn lemma_canon_idempotent(v: SpecValue)
    ensures
        canon(canon(v)) == canon(v),
    decreases v,
{
    match v {
        SpecValue::Int(_) => {},
        SpecValue::Bytes(_) => {},
        SpecValue::List(es) => {
            lemma_canon_elems_index(es);
            lemma_canon_elems_index(canon_elems(es));
            assert forall|i: int|
                0 <= i < es.len() implies canon_elems(canon_elems(es))[i] == canon_elems(
                es,
            )[i] by {
                assert(canon_elems(canon_elems(es))[i] == canon(canon_elems(es)[i]));
                assert(canon_elems(es)[i] == canon(es[i]));
                lemma_canon_idempotent(es[i]);
            }
            assert(canon_elems(canon_elems(es)) =~= canon_elems(es));
        },
        SpecValue::Dict(es) => {
            lemma_canon_entries_index(es);
            let ce = canon_entries(es);
            let s = sort_entries(ce);
            lemma_sort_entries_sorted(ce);
            lemma_canon_entries_index(s);
            assert forall|i: int| 0 <= i < s.len() implies canon_entries(s)[i] == s[i] by {
                assert(canon_entries(s)[i] == (s[i].0, canon(s[i].1)));
                assert(ce.contains(s[i]));
                let j = choose|j: int| 0 <= j < ce.len() && ce[j] == s[i];
                assert(ce[j] == (es[j].0, canon(es[j].1)));
                lemma_canon_idempotent(es[j].1);
                assert(canon(s[i].1) == s[i].1);
            }
            assert(canon_entries(s) =~= s);
            lemma_sort_entries_identity(s);
        },
    }
}


/// Round trip for decoder output: any value the specification parser
/// produced is well-formed, and decoding its canonical encoding gives its
/// canonical form — the same value up to dictionary key order — consuming
/// the whole encoding. With the exact contracts of `decode` and `encode`,
/// this carries over to the executable functions.
pub proof fn lemma_decode_encode_round_trip(input: Seq<u8>, v: SpecValue, n: int)
    requires
        spec_parse(input) == Ok::<_, DecodeError>((v, n)),
    ensures
        wf(v),
        spec_parse(serialized(canon(v))) == Ok::<_, DecodeError>(
            (canon(v), serialized(canon(v)).len() as int),
        ),
{
    lemma_parse_wf(input);
    lemma_round_trip(v);
}

} // verus!
