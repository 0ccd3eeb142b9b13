//! The bencode decoder: a single pass over a byte cursor that turns a prefix
//! of the input into a [`Value`] and reports how many bytes it consumed.
//!
//! The executable functions are specified exactly against the specification
//! parser [`spec_parse`]: they return `Ok` with a value and a consumed length,
//! or the error, precisely as the specification parser does.

use vstd::prelude::*;

use crate::value::{
    lemma_view_elems, lemma_view_entries, view_elems, view_entries, SpecValue, Value,
};

verus! {

/// Why a byte buffer failed to decode.
#[derive(Clone, Copy, Debug, PartialEq, Eq, Structural)]
pub enum DecodeError {
    /// A declared length or a terminator was not found before the input ended.
    TruncatedInput,
    /// The length prefix of a byte string was not a decimal number.
    InvalidLength,
    /// An integer term had no digits, a forbidden leading zero or sign, no
    /// terminator, or a value outside the signed 64-bit range.
    MalformedInteger,
    /// The leading byte of a term introduced no known kind of term.
    UnexpectedToken,
    /// A dictionary key was not a byte string.
    NonStringKey,
    /// A dictionary key occurred twice.
    DuplicateKey,
}

/// Decimal digit, as a byte.
pub open spec fn is_digit(b: u8) -> bool {
    48 <= b <= 57
}

/// Length of the run of decimal digits at the front of `s`.
pub open spec fn digits_len(s: Seq<u8>) -> nat
    decreases s.len(),
{
    if s.len() == 0 || !is_digit(s[0]) {
        0
    } else {
        1 + digits_len(s.drop_first())
    }
}

/// The number denoted by a sequence of decimal digits, most significant first.
pub open spec fn digits_val(s: Seq<u8>) -> int
    decreases s.len(),
{
    if s.len() == 0 {
        0
    } else {
        10 * digits_val(s.drop_last()) + (s.last() - 48)
    }
}

/// The specification parser for one bencode term at the front of `s`: the
/// term's value and the number of bytes it occupies, or the error.
pub open spec fn spec_parse(s: Seq<u8>) -> Result<(SpecValue, int), DecodeError>
    decreases s.len(), 0int,
{
    if s.len() == 0 {
        Err(DecodeError::TruncatedInput)
    } else if s[0] == 105 {  // 'i'
        spec_parse_int(s)
    } else if is_digit(s[0]) {
        spec_parse_bytes(s)
    } else if s[0] == 108 {  // 'l'
        match spec_parse_elems(s.drop_first()) {
            Ok((es, n)) => Ok((SpecValue::List(es), 1 + n)),
            Err(e) => Err(e),
        }
    } else if s[0] == 100 {  // 'd'
        match spec_parse_entries(s.drop_first(), Seq::empty()) {
            Ok((es, n)) => Ok((SpecValue::Dict(es), 1 + n)),
            Err(e) => Err(e),
        }
    } else {
        Err(DecodeError::UnexpectedToken)
    }
}

/// Parse of an integer term `i<decimal>e` at the front of `s` (`s[0] == 'i'`).
/// An optional leading `-`, at least one digit, a leading zero only for the
/// literal `0` itself, a terminating `e`, and a value within `i64`.
pub open spec fn spec_parse_int(s: Seq<u8>) -> Result<(SpecValue, int), DecodeError> {
    let t = s.drop_first();
    let neg = t.len() > 0 && t[0] == 45;  // '-'
    let d = if neg {
        t.drop_first()
    } else {
        t
    };
    let k = digits_len(d) as int;
    if k == 0 || k >= d.len() {
        Err(DecodeError::MalformedInteger)
    } else if d[k] != 101 {  // 'e'
        Err(DecodeError::MalformedInteger)
    } else if d[0] == 48 && (k > 1 || neg) {
        Err(DecodeError::MalformedInteger)
    } else {
        let m = digits_val(d.take(k));
        let val = if neg {
            -m
        } else {
            m
        };
        if val < -0x8000_0000_0000_0000 || val > 0x7fff_ffff_ffff_ffff {
            Err(DecodeError::MalformedInteger)
        } else {
            Ok((SpecValue::Int(val as i64), 1 + (if neg { 1int } else { 0int }) + k + 1))
        }
    }
}

/// Parse of a byte-string term `<length>:<bytes>` at the front of `s`
/// (`s[0]` is a digit). The declared length is checked against the bytes
/// actually remaining before anything is taken.
pub open spec fn spec_parse_bytes(s: Seq<u8>) -> Result<(SpecValue, int), DecodeError> {
    let k = digits_len(s) as int;
    if k >= s.len() {
        Err(DecodeError::TruncatedInput)
    } else if s[k] != 58 {  // ':'
        Err(DecodeError::InvalidLength)
    } else {
        let n = digits_val(s.take(k));
        let rest = s.skip(k + 1);
        if n > rest.len() {
            Err(DecodeError::TruncatedInput)
        } else {
            Ok((SpecValue::Bytes(rest.take(n)), k + 1 + n))
        }
    }
}

/// Parse of list elements up to and including the terminating `e`: the
/// elements and the number of bytes consumed including the terminator.
pub open spec fn spec_parse_elems(s: Seq<u8>) -> Result<(Seq<SpecValue>, int), DecodeError>
    decreases s.len(), 1int,
{
    if s.len() == 0 {
        Err(DecodeError::TruncatedInput)
    } else if s[0] == 101 {  // 'e'
        Ok((Seq::empty(), 1))
    } else {
        match spec_parse(s) {
            Err(e) => Err(e),
            Ok((v, n)) => if 1 <= n <= s.len() {
                match spec_parse_elems(s.skip(n)) {
                    Err(e) => Err(e),
                    Ok((vs, m)) => Ok((seq![v] + vs, n + m)),
                }
            } else {
                Err(DecodeError::TruncatedInput)
            },
        }
    }
}

/// Parse of dictionary entries up to and including the terminating `e`.
/// `seen` holds the keys of the entries already parsed, for the duplicate
/// check; a key must be a byte-string term and must not repeat.
pub open spec fn spec_parse_entries(s: Seq<u8>, seen: Seq<Seq<u8>>) -> Result<
    (Seq<(Seq<u8>, SpecValue)>, int),
    DecodeError,
>
    decreases s.len(), 1int,
{
    if s.len() == 0 {
        Err(DecodeError::TruncatedInput)
    } else if s[0] == 101 {  // 'e'
        Ok((Seq::empty(), 1))
    } else {
        match spec_parse(s) {
            Err(e) => Err(e),
            Ok((kv, n)) => if !(kv is Bytes) {
                Err(DecodeError::NonStringKey)
            } else {
                let key = kv->Bytes_0;
                if seen.contains(key) {
                    Err(DecodeError::DuplicateKey)
                } else if 1 <= n <= s.len() {
                    match spec_parse(s.skip(n)) {
                        Err(e) => Err(e),
                        Ok((v, m)) => if 1 <= m <= s.len() - n {
                            match spec_parse_entries(s.skip(n + m), seen.push(key)) {
                                Err(e) => Err(e),
                                Ok((es, t)) => Ok((seq![(key, v)] + es, n + m + t)),
                            }
                        } else {
                            Err(DecodeError::TruncatedInput)
                        },
                    }
                } else {
                    Err(DecodeError::TruncatedInput)
                }
            },
        }
    }
}

/// `digits_len(s)` is the unique `k` with digits before it and a non-digit
/// (or the end) at it.
pub(crate) proof fn lemma_digits_len_char(s: Seq<u8>, k: int)
    requires
        0 <= k <= s.len(),
        forall|j: int| 0 <= j < k ==> is_digit(#[trigger] s[j]),
        k == s.len() || !is_digit(s[k]),
    ensures
        digits_len(s) == k,
    decreases s.len(),
{
    if k == 0 {
    } else {
        assert(is_digit(s[0]));
        lemma_digits_len_char(s.drop_first(), k - 1);
    }
}

/// Everything before `digits_len(s)` is a digit.
pub(crate) proof fn lemma_digits_len_digits(s: Seq<u8>)
    ensures
        digits_len(s) <= s.len(),
        forall|j: int| 0 <= j < digits_len(s) ==> is_digit(#[trigger] s[j]),
    decreases s.len(),
{
    if s.len() > 0 && is_digit(s[0]) {
        lemma_digits_len_digits(s.drop_first());
        assert forall|j: int| 0 <= j < digits_len(s) implies is_digit(#[trigger] s[j]) by {
            if j > 0 {
                assert(s.drop_first()[j - 1] == s[j]);
            }
        }
    }
}

/// The deep view of a byte vector is its view.
proof fn lemma_bytes_deep_view(v: Vec<u8>)
    ensures
        v.deep_view() =~= v@,
{
}

/// Appending one digit multiplies the denoted number by ten and adds it.
proof fn lemma_digits_val_step(d: Seq<u8>, j: int)
    requires
        0 <= j < d.len(),
    ensures
        digits_val(d.take(j + 1)) == 10 * digits_val(d.take(j)) + (d[j] - 48),
{
    assert(d.take(j + 1).drop_last() =~= d.take(j));
    assert(d.take(j + 1).last() == d[j]);
}

/// A sequence of digits denotes a non-negative number.
pub(crate) proof fn lemma_digits_val_nonneg(d: Seq<u8>)
    requires
        forall|j: int| 0 <= j < d.len() ==> is_digit(#[trigger] d[j]),
    ensures
        digits_val(d) >= 0,
    decreases d.len(),
{
    if d.len() > 0 {
        assert(forall|j: int|
            0 <= j < d.drop_last().len() ==> is_digit(#[trigger] d.drop_last()[j]));
        lemma_digits_val_nonneg(d.drop_last());
    }
}

/// Length of the run of decimal digits in `input` starting at `pos`.
fn scan_digits(input: &[u8], pos: usize) -> (k: usize)
    requires
        pos <= input.len(),
    ensures
        pos + k <= input.len(),
        digits_len(input@.skip(pos as int)) == k as nat,
{
    let mut i = pos;
    while i < input.len() && 48 <= input[i] && input[i] <= 57
        invariant
            pos <= i <= input.len(),
            forall|j: int| pos <= j < i ==> is_digit(#[trigger] input@[j]),
        decreases input.len() - i,
    {
        i += 1;
    }
    proof {
        let s = input@.skip(pos as int);
        assert(forall|j: int| 0 <= j < i - pos ==> is_digit(#[trigger] s[j]));
        lemma_digits_len_char(s, i - pos);
    }
    i - pos
}

/// The number denoted by the `k` digits of `input` starting at `pos`, exactly
/// if it fits a `u64`, and `None` if it exceeds `u64::MAX`.
fn digits_value_u64(input: &[u8], pos: usize, k: usize) -> (r: Option<u64>)
    requires
        pos + k <= input.len(),
        forall|j: int| pos <= j < pos + k ==> is_digit(#[trigger] input@[j]),
    ensures
        ({
            let d = input@.subrange(pos as int, pos + k as int);
            match r {
                Some(v) => v as int == digits_val(d),
                None => digits_val(d) > u64::MAX as int,
            }
        }),
{
    let ghost d = input@.subrange(pos as int, pos + k as int);
    let mut acc: u64 = 0;
    let mut over: bool = false;
    let mut j: usize = 0;
    proof {
        assert(d.take(0) =~= Seq::empty());
    }
    while j < k
        invariant
            0 <= j <= k,
            pos + k <= input.len(),
            forall|jj: int| pos <= jj < pos + k ==> is_digit(#[trigger] input@[jj]),
            d == input@.subrange(pos as int, pos + k as int),
            !over ==> acc as int == digits_val(d.take(j as int)),
            over ==> digits_val(d.take(j as int)) > u64::MAX as int,
        decreases k - j,
    {
        let b = input[pos + j];
        let dig = (b - 48) as u64;
        proof {
            lemma_digits_val_step(d, j as int);
            assert(d[j as int] == input@[pos + j]);
        }
        if !over {
            if acc > 1844674407370955161u64 || (acc == 1844674407370955161u64 && dig > 5) {
                over = true;
                proof {
                    assert(10 * (acc as int) + (dig as int) > u64::MAX as int);
                }
            } else {
                acc = acc * 10 + dig;
            }
        }
        j += 1;
    }
    proof {
        assert(d.take(k as int) =~= d);
    }
    if over {
        None
    } else {
        Some(acc)
    }
}

/// Byte-wise equality of two slices.
pub(crate) fn bytes_eq(a: &[u8], b: &[u8]) -> (r: bool)
    ensures
        r <==> a@ == b@,
{
    if a.len() != b.len() {
        return false;
    }
    let mut i: usize = 0;
    while i < a.len()
        invariant
            0 <= i <= a.len(),
            a.len() == b.len(),
            forall|j: int| 0 <= j < i ==> a@[j] == b@[j],
        decreases a.len() - i,
    {
        if a[i] != b[i] {
            return false;
        }
        i += 1;
    }
    proof {
        assert(a@ =~= b@);
    }
    true
}

/// Whether `key` occurs among the byte strings of `seen`.
fn seen_contains(seen: &Vec<Vec<u8>>, key: &[u8]) -> (r: bool)
    ensures
        r <==> seen.deep_view().contains(key@),
{
    let mut i: usize = 0;
    while i < seen.len()
        invariant
            0 <= i <= seen.len(),
            forall|j: int| 0 <= j < i ==> seen.deep_view()[j] != key@,
        decreases seen.len() - i,
    {
        if bytes_eq(seen[i].as_slice(), key) {
            proof {
                assert(seen.deep_view()[i as int] =~= seen[i as int]@);
                assert(seen.deep_view()[i as int] == key@);
            }
            return true;
        }
        proof {
            assert(seen.deep_view()[i as int] =~= seen[i as int]@);
        }
        i += 1;
    }
    false
}

/// One bencode term at position `pos` of `input`: the value and the position
/// just after it, exactly as [`spec_parse`] describes on the remaining input.
fn parse_value(input: &[u8], pos: usize) -> (r: Result<(Value, usize), DecodeError>)
    requires
        pos <= input.len(),
    ensures
        match r {
            Ok(p) => pos < p.1 <= input.len() && spec_parse(input@.skip(pos as int))
                == Ok::<_, DecodeError>((p.0@, p.1 - pos as int)),
            Err(e) => spec_parse(input@.skip(pos as int)) == Err::<(SpecValue, int), _>(e),
        },
    decreases input.len() - pos, 0int,
{
    let ghost s = input@.skip(pos as int);
    if pos == input.len() {
        return Err(DecodeError::TruncatedInput);
    }
    let b0 = input[pos];
    assert(s[0] == b0);
    if b0 == 105 {
        parse_integer(input, pos)
    } else if 48 <= b0 && b0 <= 57 {
        parse_byte_string(input, pos)
    } else if b0 == 108 {
        proof {
            assert(s.drop_first() =~= input@.skip(pos + 1));
        }
        match parse_elems(input, pos + 1) {
            Ok((vs, q)) => Ok((Value::List(vs), q)),
            Err(e) => Err(e),
        }
    } else if b0 == 100 {
        let empty_seen: Vec<Vec<u8>> = Vec::new();
        proof {
            assert(s.drop_first() =~= input@.skip(pos + 1));
            assert(empty_seen.deep_view() =~= Seq::<Seq<u8>>::empty());
        }
        match parse_entries(input, pos + 1, empty_seen) {
            Ok((es, q)) => Ok((Value::Dictionary(es), q)),
            Err(e) => Err(e),
        }
    } else {
        Err(DecodeError::UnexpectedToken)
    }
}

/// An integer term `i<decimal>e` at position `pos` (`input[pos] == b'i'`).
fn parse_integer(input: &[u8], pos: usize) -> (r: Result<(Value, usize), DecodeError>)
    requires
        pos < input.len(),
        input@[pos as int] == 105,
    ensures
        match r {
            Ok(p) => pos < p.1 <= input.len() && spec_parse(input@.skip(pos as int))
                == Ok::<_, DecodeError>((p.0@, p.1 - pos as int)),
            Err(e) => spec_parse(input@.skip(pos as int)) == Err::<(SpecValue, int), _>(e),
        },
{
    let ghost s = input@.skip(pos as int);
    let p1 = pos + 1;
    let neg = p1 < input.len() && input[p1] == 45;
    let p2 = if neg {
        p1 + 1
    } else {
        p1
    };
    proof {
        let t = s.drop_first();
        assert(t =~= input@.skip(p1 as int));
        if neg {
            assert(t.drop_first() =~= input@.skip(p2 as int));
        }
    }
    let ghost d = input@.skip(p2 as int);
    let k = scan_digits(input, p2);
    if k == 0 || p2 + k == input.len() {
        return Err(DecodeError::MalformedInteger);
    }
    if input[p2 + k] != 101 {
        assert(d[k as int] == input@[p2 + k as int]);
        return Err(DecodeError::MalformedInteger);
    }
    if input[p2] == 48 && (k > 1 || neg) {
        assert(d[0] == input@[p2 as int]);
        return Err(DecodeError::MalformedInteger);
    }
    proof {
        assert(d[k as int] == input@[p2 + k as int]);
        assert(d[0] == input@[p2 as int]);
        assert(d.take(k as int) =~= input@.subrange(p2 as int, p2 + k as int));
        lemma_digits_len_digits(d);
        assert forall|j: int| p2 <= j < p2 + k implies is_digit(#[trigger] input@[j]) by {
            assert(d[j - p2] == input@[j]);
        }
        lemma_digits_val_nonneg(d.take(k as int));
    }
    let ghost m = digits_val(d.take(k as int));
    match digits_value_u64(input, p2, k) {
        None => {
            assert(m > u64::MAX as int);
            Err(DecodeError::MalformedInteger)
        },
        Some(v) => {
            if neg {
                if v > 0x8000_0000_0000_0000u64 {
                    Err(DecodeError::MalformedInteger)
                } else {
                    let val: i64 = if v == 0x8000_0000_0000_0000u64 {
                        i64::MIN
                    } else {
                        -(v as i64)
                    };
                    assert(val as int == -m);
                    Ok((Value::Integer(val), p2 + k + 1))
                }
            } else {
                if v > 0x7fff_ffff_ffff_ffffu64 {
                    Err(DecodeError::MalformedInteger)
                } else {
                    Ok((Value::Integer(v as i64), p2 + k + 1))
                }
            }
        },
    }
}

/// A byte-string term `<length>:<bytes>` at position `pos` (`input[pos]` is a
/// digit). The declared length is compared against the remaining input before
/// any bytes are taken, so no oversized buffer is ever allocated.
fn parse_byte_string(input: &[u8], pos: usize) -> (r: Result<(Value, usize), DecodeError>)
    requires
        pos < input.len(),
        is_digit(input@[pos as int]),
    ensures
        match r {
            Ok(p) => pos < p.1 <= input.len() && spec_parse(input@.skip(pos as int))
                == Ok::<_, DecodeError>((p.0@, p.1 - pos as int)),
            Err(e) => spec_parse(input@.skip(pos as int)) == Err::<(SpecValue, int), _>(e),
        },
{
    let ghost s = input@.skip(pos as int);
    let k = scan_digits(input, pos);
    if pos + k == input.len() {
        return Err(DecodeError::TruncatedInput);
    }
    if input[pos + k] != 58 {
        assert(s[k as int] == input@[pos + k as int]);
        return Err(DecodeError::InvalidLength);
    }
    proof {
        assert(s[k as int] == input@[pos + k as int]);
        assert(s.take(k as int) =~= input@.subrange(pos as int, pos + k as int));
        lemma_digits_len_digits(s);
        assert forall|j: int| pos <= j < pos + k implies is_digit(#[trigger] input@[j]) by {
            assert(s[j - pos] == input@[j]);
        }
        lemma_digits_val_nonneg(s.take(k as int));
    }
    let ghost n = digits_val(s.take(k as int));
    let start = pos + k + 1;
    let rem = input.len() - start;
    proof {
        assert(s.skip(k + 1) =~= input@.skip(start as int));
    }
    match digits_value_u64(input, pos, k) {
        None => {
            assert(n > u64::MAX as int >= rem as int);
            Err(DecodeError::TruncatedInput)
        },
        Some(v) => {
            if v > rem as u64 {
                Err(DecodeError::TruncatedInput)
            } else {
                let len = v as usize;
                let bytes = vstd::slice::slice_to_vec(
                    vstd::slice::slice_subrange(input, start, start + len),
                );
                proof {
                    assert(bytes@ =~= s.skip(k + 1).take(n));
                }
                Ok((Value::ByteString(bytes), start + len))
            }
        },
    }
}

/// List elements at position `pos`, up to and including the terminating `e`.
fn parse_elems(input: &[u8], pos: usize) -> (r: Result<(Vec<Value>, usize), DecodeError>)
    requires
        pos <= input.len(),
    ensures
        match r {
            Ok(p) => pos < p.1 <= input.len() && spec_parse_elems(input@.skip(pos as int))
                == Ok::<_, DecodeError>((view_elems(p.0@), p.1 - pos as int)),
            Err(e) => spec_parse_elems(input@.skip(pos as int)) == Err::<(Seq<SpecValue>, int), _>(
                e,
            ),
        },
    decreases input.len() - pos, 1int,
{
    let ghost s = input@.skip(pos as int);
    if pos == input.len() {
        return Err(DecodeError::TruncatedInput);
    }
    if input[pos] == 101 {
        assert(s[0] == 101);
        let none_yet: Vec<Value> = Vec::new();
        proof {
            assert(view_elems(none_yet@) =~= Seq::<SpecValue>::empty());
        }
        return Ok((none_yet, pos + 1));
    }
    assert(s[0] != 101);
    match parse_value(input, pos) {
        Err(e) => Err(e),
        Ok((v, q)) => {
            proof {
                assert(s.skip(q - pos) =~= input@.skip(q as int));
            }
            match parse_elems(input, q) {
                Err(e) => Err(e),
                Ok((mut vs, q2)) => {
                    let ghost tail = vs@;
                    vs.insert(0, v);
                    proof {
                        assert(vs@ =~= seq![v] + tail);
                        lemma_view_elems(vs@);
                        lemma_view_elems(tail);
                        assert forall|i: int| 0 <= i < vs@.len() implies view_elems(vs@)[i] == (
                        seq![v@] + view_elems(tail))[i] by {
                            assert(view_elems(vs@)[i] == vs@[i]@);
                            if i > 0 {
                                assert(vs@[i] == tail[i - 1]);
                                assert(view_elems(tail)[i - 1] == tail[i - 1]@);
                            }
                        }
                        assert(view_elems(vs@) =~= seq![v@] + view_elems(tail));
                    }
                    Ok((vs, q2))
                },
            }
        },
    }
}

/// Dictionary entries at position `pos`, up to and including the terminating
/// `e`; `seen` holds the keys already taken, for the duplicate check.
fn parse_entries(input: &[u8], pos: usize, seen: Vec<Vec<u8>>) -> (r: Result<
    (Vec<(Vec<u8>, Value)>, usize),
    DecodeError,
>)
    requires
        pos <= input.len(),
    ensures
        match r {
            Ok(p) => pos < p.1 <= input.len() && spec_parse_entries(
                input@.skip(pos as int),
                seen.deep_view(),
            ) == Ok::<_, DecodeError>((view_entries(p.0@), p.1 - pos as int)),
            Err(e) => spec_parse_entries(input@.skip(pos as int), seen.deep_view()) == Err::<
                (Seq<(Seq<u8>, SpecValue)>, int),
                _,
            >(e),
        },
    decreases input.len() - pos, 1int,
{
    let ghost s = input@.skip(pos as int);
    if pos == input.len() {
        return Err(DecodeError::TruncatedInput);
    }
    if input[pos] == 101 {
        assert(s[0] == 101);
        let none_yet: Vec<(Vec<u8>, Value)> = Vec::new();
        proof {
            assert(view_entries(none_yet@) =~= Seq::<(Seq<u8>, SpecValue)>::empty());
        }
        return Ok((none_yet, pos + 1));
    }
    assert(s[0] != 101);
    match parse_value(input, pos) {
        Err(e) => Err(e),
        Ok((kv, q)) => {
            let kb = match kv {
                Value::ByteString(kb) => kb,
                _ => {
                    return Err(DecodeError::NonStringKey);
                },
            };
            if seen_contains(&seen, kb.as_slice()) {
                return Err(DecodeError::DuplicateKey);
            }
            proof {
                assert(s.skip(q - pos) =~= input@.skip(q as int));
            }
            match parse_value(input, q) {
                Err(e) => Err(e),
                Ok((v, q2)) => {
                    proof {
                        assert(s.skip(q2 - pos) =~= input@.skip(q2 as int));
                    }
                    let key_copy = vstd::slice::slice_to_vec(kb.as_slice());
                    let mut seen2 = seen;
                    let ghost seen_before = seen2;
                    seen2.push(key_copy);
                    proof {
                        assert forall|i: int|
                            0 <= i < seen2@.len() implies seen2.deep_view()[i]
                            == seen_before.deep_view().push(kb@)[i] by {
                            if i < seen_before@.len() {
                                assert(seen2@[i] == seen_before@[i]);
                            } else {
                                assert(seen2@[i] == key_copy);
                                lemma_bytes_deep_view(key_copy);
                            }
                        }
                        assert(seen2.deep_view() =~= seen_before.deep_view().push(kb@));
                    }
                    match parse_entries(input, q2, seen2) {
                        Err(e) => Err(e),
                        Ok((mut es, q3)) => {
                            let ghost tail = es@;
                            es.insert(0, (kb, v));
                            proof {
                                assert(es@ =~= seq![(kb, v)] + tail);
                                lemma_view_entries(es@);
                                lemma_view_entries(tail);
                                assert forall|i: int|
                                    0 <= i < es@.len() implies view_entries(es@)[i] == (seq![
                                    (kb@, v@),
                                ] + view_entries(tail))[i] by {
                                    assert(view_entries(es@)[i] == (es@[i].0@, es@[i].1@));
                                    if i > 0 {
                                        assert(es@[i] == tail[i - 1]);
                                        assert(view_entries(tail)[i - 1] == (
                                            tail[i - 1].0@,
                                            tail[i - 1].1@,
                                        ));
                                    }
                                }
                                assert(view_entries(es@) =~= seq![(kb@, v@)] + view_entries(
                                    tail,
                                ));
                            }
                            Ok((es, q3))
                        },
                    }
                },
            }
        },
    }
}

/// Decode one bencode term from the front of `input`: the term and the number
/// of bytes it occupied, or the error, exactly as [`spec_parse`] describes.
pub fn decode(input: &[u8]) -> (r: Result<(Value, usize), DecodeError>)
    ensures
        match r {
            Ok(p) => p.1 <= input.len() && spec_parse(input@) == Ok::<_, DecodeError>(
                (p.0@, p.1 as int),
            ),
            Err(e) => spec_parse(input@) == Err::<(SpecValue, int), _>(e),
        },
{
    proof {
        assert(input@.skip(0) =~= input@);
    }
    parse_value(input, 0)
}

/// Decode a bencoded literal and return the leading term, tolerating trailing
/// input, as the command-line `decode` operation does.
pub fn decode_bencoded_value(input: &[u8]) -> (r: Result<Value, DecodeError>)
    ensures
        match r {
            Ok(v) => exists|n: int| spec_parse(input@) == Ok::<_, DecodeError>((v@, n)),
            Err(e) => spec_parse(input@) == Err::<(SpecValue, int), _>(e),
        },
{
    match decode(input) {
        Ok((v, _)) => Ok(v),
        Err(e) => Err(e),
    }
}

} // verus!
