use bittorrent::decode::{decode, decode_bencoded_value, DecodeError};
use bittorrent::value::Value;

fn bytes(s: &str) -> Vec<u8> {
    s.as_bytes().to_vec()
}

#[test]
fn parse_string() {
    let result = decode_bencoded_value(b"5:hello").unwrap();
    assert_eq!(result, Value::ByteString(bytes("hello")));
}

#[test]
fn parse_integer() {
    let result = decode_bencoded_value(b"i52e").unwrap();
    assert_eq!(result, Value::Integer(52));
}

#[test]
fn parse_list() {
    let result = decode_bencoded_value(b"l5:helloi52ee").unwrap();
    assert_eq!(
        result,
        Value::List(vec![Value::ByteString(bytes("hello")), Value::Integer(52)])
    );
}

#[test]
fn parse_nested_list() {
    let result = decode_bencoded_value(b"l5:helloli52e3:treee").unwrap();
    assert_eq!(
        result,
        Value::List(vec![
            Value::ByteString(bytes("hello")),
            Value::List(vec![Value::Integer(52), Value::ByteString(bytes("tre"))]),
        ])
    );
}

#[test]
fn string_consumes_whole_input() {
    let (v, consumed) = decode(b"5:hello").unwrap();
    assert_eq!(v, Value::ByteString(bytes("hello")));
    assert_eq!(consumed, 7);
}

#[test]
fn negative_integer() {
    let result = decode_bencoded_value(b"i-3e").unwrap();
    assert_eq!(result, Value::Integer(-3));
}

#[test]
fn integer_consumed_length() {
    let (v, consumed) = decode(b"i52etrailing").unwrap();
    assert_eq!(v, Value::Integer(52));
    assert_eq!(consumed, 4);
}

#[test]
fn simple_dictionary() {
    let result = decode_bencoded_value(b"d3:foo3:bare").unwrap();
    assert_eq!(
        result,
        Value::Dictionary(vec![(bytes("foo"), Value::ByteString(bytes("bar")))])
    );
}

#[test]
fn dictionary_with_trailing_duplicate_key_is_rejected() {
    let result = decode_bencoded_value(b"d3:foo3:bar3:fooe");
    assert_eq!(result, Err(DecodeError::DuplicateKey));
}

#[test]
fn oversized_length_prefix_is_truncated_input() {
    let result = decode_bencoded_value(b"5000:abc");
    assert_eq!(result, Err(DecodeError::TruncatedInput));
}

#[test]
fn astronomic_length_prefix_is_truncated_input() {
    let result = decode_bencoded_value(b"99999999999999999999999999:abc");
    assert_eq!(result, Err(DecodeError::TruncatedInput));
}

#[test]
fn empty_input_is_truncated() {
    assert_eq!(decode_bencoded_value(b""), Err(DecodeError::TruncatedInput));
}

#[test]
fn unknown_leading_byte_is_unexpected_token() {
    assert_eq!(decode_bencoded_value(b"x"), Err(DecodeError::UnexpectedToken));
}

#[test]
fn integer_without_digits_is_malformed() {
    assert_eq!(decode_bencoded_value(b"ie"), Err(DecodeError::MalformedInteger));
}

#[test]
fn integer_with_leading_zero_is_malformed() {
    assert_eq!(decode_bencoded_value(b"i03e"), Err(DecodeError::MalformedInteger));
}

#[test]
fn negative_zero_is_malformed() {
    assert_eq!(decode_bencoded_value(b"i-0e"), Err(DecodeError::MalformedInteger));
}

#[test]
fn unterminated_integer_is_malformed() {
    assert_eq!(decode_bencoded_value(b"i52"), Err(DecodeError::MalformedInteger));
}

#[test]
fn integer_beyond_i64_is_malformed() {
    assert_eq!(
        decode_bencoded_value(b"i9223372036854775808e"),
        Err(DecodeError::MalformedInteger)
    );
    assert_eq!(
        decode_bencoded_value(b"i9223372036854775807e").unwrap(),
        Value::Integer(i64::MAX)
    );
    assert_eq!(
        decode_bencoded_value(b"i-9223372036854775808e").unwrap(),
        Value::Integer(i64::MIN)
    );
}

#[test]
fn bad_length_prefix_is_invalid_length() {
    assert_eq!(decode_bencoded_value(b"3x:ab"), Err(DecodeError::InvalidLength));
}

#[test]
fn integer_zero_is_accepted() {
    assert_eq!(decode_bencoded_value(b"i0e").unwrap(), Value::Integer(0));
}

#[test]
fn non_string_key_is_rejected() {
    assert_eq!(decode_bencoded_value(b"di1e1:ae"), Err(DecodeError::NonStringKey));
}

#[test]
fn unterminated_list_is_truncated() {
    assert_eq!(decode_bencoded_value(b"l5:hello"), Err(DecodeError::TruncatedInput));
}

#[test]
fn empty_list_is_accepted() {
    assert_eq!(decode_bencoded_value(b"le").unwrap(), Value::List(vec![]));
}

#[test]
fn dictionary_key_without_value_is_rejected() {
    assert_eq!(decode_bencoded_value(b"d3:fooe"), Err(DecodeError::UnexpectedToken));
}

#[test]
fn unterminated_dictionary_is_truncated() {
    assert_eq!(decode_bencoded_value(b"d3:foo3:bar"), Err(DecodeError::TruncatedInput));
}

#[test]
fn empty_dictionary_is_accepted() {
    assert_eq!(decode_bencoded_value(b"de").unwrap(), Value::Dictionary(vec![]));
}
