use resp_client::decode::{parse, Outcome, ParseError};
use resp_client::encode::serialize;
use resp_client::value::Value;

fn encode(v: &Value) -> Vec<u8> {
    let mut out: Vec<u8> = Vec::new();
    serialize(v, &mut out);
    out
}

#[test]
fn encode_simple_string() {
    assert_eq!(encode(&Value::SimpleString(b"OK".to_vec())), b"+OK\r\n".to_vec());
}

#[test]
fn encode_error() {
    assert_eq!(
        encode(&Value::Error(b"ERR unknown command".to_vec())),
        b"-ERR unknown command\r\n".to_vec()
    );
}

#[test]
fn encode_integers() {
    assert_eq!(encode(&Value::Integer(0)), b":0\r\n".to_vec());
    assert_eq!(encode(&Value::Integer(1000)), b":1000\r\n".to_vec());
    assert_eq!(encode(&Value::Integer(-42)), b":-42\r\n".to_vec());
    assert_eq!(
        encode(&Value::Integer(i64::MAX)),
        b":9223372036854775807\r\n".to_vec()
    );
    assert_eq!(
        encode(&Value::Integer(i64::MIN)),
        b":-9223372036854775808\r\n".to_vec()
    );
}

#[test]
fn encode_bulk_strings() {
    assert_eq!(
        encode(&Value::BulkString(Some(b"hello".to_vec()))),
        b"$5\r\nhello\r\n".to_vec()
    );
    assert_eq!(encode(&Value::BulkString(Some(Vec::new()))), b"$0\r\n\r\n".to_vec());
    assert_eq!(encode(&Value::BulkString(None)), b"$-1\r\n".to_vec());
}

#[test]
fn encode_arrays() {
    assert_eq!(encode(&Value::Array(Some(Vec::new()))), b"*0\r\n".to_vec());
    assert_eq!(encode(&Value::Array(None)), b"*-1\r\n".to_vec());
    let v = Value::Array(Some(vec![
        Value::BulkString(Some(b"SET".to_vec())),
        Value::BulkString(Some(b"Elihu".to_vec())),
        Value::BulkString(Some(b"Miami".to_vec())),
    ]));
    assert_eq!(
        encode(&v),
        b"*3\r\n$3\r\nSET\r\n$5\r\nElihu\r\n$5\r\nMiami\r\n".to_vec()
    );
}

fn sample_values() -> Vec<Value> {
    vec![
        Value::SimpleString(b"OK".to_vec()),
        Value::SimpleString(Vec::new()),
        Value::Error(b"ERR no such key".to_vec()),
        Value::Integer(0),
        Value::Integer(-1),
        Value::Integer(i64::MIN),
        Value::Integer(i64::MAX),
        Value::BulkString(Some(b"Miami".to_vec())),
        Value::BulkString(Some(Vec::new())),
        Value::BulkString(None),
        Value::Array(None),
        Value::Array(Some(Vec::new())),
        Value::Array(Some(vec![
            Value::Integer(7),
            Value::BulkString(None),
            Value::Array(Some(vec![
                Value::SimpleString(b"nested".to_vec()),
                Value::BulkString(Some(b"\r\nraw bytes\x00\xff".to_vec())),
            ])),
            Value::Error(b"oops".to_vec()),
        ])),
    ]
}

#[test]
fn round_trip_samples() {
    for v in sample_values() {
        let bytes = encode(&v);
        match parse(&bytes) {
            Outcome::Complete(decoded, consumed) => {
                assert_eq!(decoded, v);
                assert_eq!(consumed, bytes.len());
            }
            other => panic!("expected a complete frame, got {:?}", other),
        }
    }
}

#[test]
fn round_trip_with_trailing_bytes() {
    let v = Value::Array(Some(vec![
        Value::BulkString(Some(b"GET".to_vec())),
        Value::BulkString(Some(b"Elihu".to_vec())),
    ]));
    let mut bytes = encode(&v);
    let frame_len = bytes.len();
    bytes.extend_from_slice(b"+leftover\r\n");
    match parse(&bytes) {
        Outcome::Complete(decoded, consumed) => {
            assert_eq!(decoded, v);
            assert_eq!(consumed, frame_len);
        }
        other => panic!("expected a complete frame, got {:?}", other),
    }
}

#[test]
fn strict_prefixes_are_incomplete() {
    for v in sample_values() {
        let bytes = encode(&v);
        for cut in 0..bytes.len() {
            assert_eq!(
                parse(&bytes[..cut]),
                Outcome::Incomplete,
                "prefix of length {} of {:?}",
                cut,
                bytes
            );
        }
    }
}

#[test]
fn null_bulk_string_is_distinct_from_empty() {
    let null = parse(b"$-1\r\n");
    let empty = parse(b"$0\r\n\r\n");
    assert_eq!(null, Outcome::Complete(Value::BulkString(None), 5));
    assert_eq!(empty, Outcome::Complete(Value::BulkString(Some(Vec::new())), 6));
    assert_ne!(null, empty);
}

#[test]
fn null_array_is_distinct_from_empty() {
    assert_eq!(parse(b"*-1\r\n"), Outcome::Complete(Value::Array(None), 5));
    assert_eq!(
        parse(b"*0\r\n"),
        Outcome::Complete(Value::Array(Some(Vec::new())), 4)
    );
}

#[test]
fn malformed_length_field() {
    assert_eq!(
        parse(b"$abc\r\nxyz\r\n"),
        Outcome::Malformed(ParseError::BadLength)
    );
    assert_eq!(parse(b"$-2\r\n"), Outcome::Malformed(ParseError::BadLength));
    assert_eq!(
        parse(b"*x\r\n"),
        Outcome::Malformed(ParseError::BadLength)
    );
    assert_eq!(
        parse(b"$99999999999999999999\r\nabc\r\n"),
        Outcome::Malformed(ParseError::BadLength)
    );
}

#[test]
fn malformed_type_byte() {
    assert_eq!(parse(b"!oops\r\n"), Outcome::Malformed(ParseError::UnknownType));
    assert_eq!(parse(b"OK\r\n"), Outcome::Malformed(ParseError::UnknownType));
}

#[test]
fn malformed_integer_line() {
    assert_eq!(parse(b":1a\r\n"), Outcome::Malformed(ParseError::BadInteger));
    assert_eq!(parse(b":\r\n"), Outcome::Malformed(ParseError::BadInteger));
    assert_eq!(parse(b":-\r\n"), Outcome::Malformed(ParseError::BadInteger));
    assert_eq!(
        parse(b":9223372036854775808\r\n"),
        Outcome::Malformed(ParseError::BadInteger)
    );
    assert_eq!(
        parse(b":-9223372036854775809\r\n"),
        Outcome::Malformed(ParseError::BadInteger)
    );
}

#[test]
fn malformed_body_terminator() {
    assert_eq!(
        parse(b"$3\r\nabcXY"),
        Outcome::Malformed(ParseError::MissingTerminator)
    );
}

#[test]
fn malformed_element_inside_array() {
    assert_eq!(
        parse(b"*2\r\n+ok\r\n!bad\r\n"),
        Outcome::Malformed(ParseError::UnknownType)
    );
}

#[test]
fn integer_bounds_decode() {
    assert_eq!(
        parse(b":9223372036854775807\r\n"),
        Outcome::Complete(Value::Integer(i64::MAX), 22)
    );
    assert_eq!(
        parse(b":-9223372036854775808\r\n"),
        Outcome::Complete(Value::Integer(i64::MIN), 23)
    );
}

#[test]
fn integer_leading_zeros_are_lenient() {
    assert_eq!(parse(b":007\r\n"), Outcome::Complete(Value::Integer(7), 6));
    assert_eq!(parse(b":-0\r\n"), Outcome::Complete(Value::Integer(0), 5));
}

#[test]
fn bulk_string_body_may_contain_terminator_bytes() {
    assert_eq!(
        parse(b"$4\r\na\r\nb\r\n"),
        Outcome::Complete(Value::BulkString(Some(b"a\r\nb".to_vec())), 10)
    );
}

#[test]
fn empty_buffer_is_incomplete() {
    assert_eq!(parse(b""), Outcome::Incomplete);
}

#[test]
fn array_missing_elements_is_incomplete() {
    assert_eq!(parse(b"*2\r\n+ok\r\n"), Outcome::Incomplete);
    assert_eq!(parse(b"*2\r\n"), Outcome::Incomplete);
}
