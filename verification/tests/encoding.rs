use bittorrent::decode::decode;
use bittorrent::encode::encode;
use bittorrent::value::Value;

fn bytes(s: &str) -> Vec<u8> {
    s.as_bytes().to_vec()
}

#[test]
fn encode_integer() {
    assert_eq!(encode(&Value::Integer(52)), bytes("i52e"));
    assert_eq!(encode(&Value::Integer(-3)), bytes("i-3e"));
    assert_eq!(encode(&Value::Integer(0)), bytes("i0e"));
}

#[test]
fn encode_byte_string() {
    assert_eq!(encode(&Value::ByteString(bytes("hello"))), bytes("5:hello"));
    assert_eq!(encode(&Value::ByteString(vec![])), bytes("0:"));
}

#[test]
fn encode_list() {
    let v = Value::List(vec![Value::ByteString(bytes("hello")), Value::Integer(52)]);
    assert_eq!(encode(&v), bytes("l5:helloi52ee"));
}

#[test]
fn encode_sorts_dictionary_keys() {
    let v = Value::Dictionary(vec![
        (bytes("b"), Value::ByteString(bytes("x"))),
        (bytes("a"), Value::ByteString(bytes("y"))),
    ]);
    assert_eq!(encode(&v), bytes("d1:a1:y1:b1:xe"));
}

#[test]
fn encode_does_not_depend_on_entry_order() {
    let a = Value::Dictionary(vec![
        (bytes("foo"), Value::Integer(1)),
        (bytes("bar"), Value::Integer(2)),
    ]);
    let b = Value::Dictionary(vec![
        (bytes("bar"), Value::Integer(2)),
        (bytes("foo"), Value::Integer(1)),
    ]);
    assert_eq!(encode(&a), encode(&b));
}

#[test]
fn round_trip_simple_values() {
    for input in [
        &b"5:hello"[..],
        b"i52e",
        b"i-3e",
        b"l5:helloi52ee",
        b"l5:helloli52e3:treee",
        b"d3:foo3:bare",
        b"le",
        b"de",
        b"d0:i0ee",
    ] {
        let (v, n) = decode(input).unwrap();
        assert_eq!(n, input.len());
        let re = encode(&v);
        let (v2, n2) = decode(&re).unwrap();
        assert_eq!(n2, re.len());
        assert_eq!(v2, v);
        assert_eq!(encode(&v2), re);
    }
}

#[test]
fn round_trip_canonicalizes_dictionary_order() {
    let (v, _) = decode(b"d3:zzz1:a3:aaa1:be").unwrap();
    let re = encode(&v);
    assert_eq!(re, bytes("d3:aaa1:b3:zzz1:ae"));
    let (v2, n2) = decode(&re).unwrap();
    assert_eq!(n2, re.len());
    assert_eq!(
        v2,
        Value::Dictionary(vec![
            (bytes("aaa"), Value::ByteString(bytes("b"))),
            (bytes("zzz"), Value::ByteString(bytes("a"))),
        ])
    );
    // A second pass is a fixed point.
    assert_eq!(encode(&v2), re);
}

#[test]
fn round_trip_nested_dictionaries() {
    let (v, _) = decode(b"d1:zd1:y1:x1:a1:be1:al1:cee").unwrap();
    let re = encode(&v);
    assert_eq!(re, bytes("d1:al1:ce1:zd1:a1:b1:y1:xee"));
    let (v2, n2) = decode(&re).unwrap();
    assert_eq!(n2, re.len());
    assert_eq!(encode(&v2), re);
}
