use miniredis::resp::Value;

/// Serializes, parses the result back, and checks that the whole encoding
/// was consumed and the value survived (compared through its canonical
/// encoding).
fn assert_roundtrip(v: &Value) {
    let bytes = v.serialize();
    let (parsed, consumed) = Value::parse(&bytes).expect("round trip must parse");
    assert_eq!(consumed, bytes.len());
    assert_eq!(parsed.serialize(), bytes);
}

#[test]
fn roundtrip_simple_string() {
    assert_roundtrip(&Value::SimpleString(b"OK".to_vec()));
    assert_roundtrip(&Value::SimpleString(Vec::new()));
}

#[test]
fn roundtrip_bulk_string_with_embedded_crlf() {
    assert_roundtrip(&Value::BulkString(b"ab\r\ncd\n\r!".to_vec()));
    assert_roundtrip(&Value::BulkString(Vec::new()));
    assert_roundtrip(&Value::BulkString(vec![0u8, 255, 13, 10, 7]));
}

#[test]
fn roundtrip_null_bulk_string() {
    assert_roundtrip(&Value::NullString);
}

#[test]
fn roundtrip_integers() {
    assert_roundtrip(&Value::Integer(0));
    assert_roundtrip(&Value::Integer(42));
    assert_roundtrip(&Value::Integer(-42));
    assert_roundtrip(&Value::Integer(i64::MAX));
    assert_roundtrip(&Value::Integer(i64::MIN));
}

#[test]
fn roundtrip_nested_arrays() {
    let inner = Value::Array(vec![
        Value::BulkString(b"with\r\nnewlines".to_vec()),
        Value::Integer(-7),
        Value::NullString,
    ]);
    let outer = Value::Array(vec![
        inner,
        Value::Array(Vec::new()),
        Value::SimpleString(b"status".to_vec()),
    ]);
    assert_roundtrip(&outer);
}

#[test]
fn serialize_exact_bytes() {
    assert_eq!(
        Value::SimpleString(b"OK".to_vec()).serialize(),
        b"+OK\r\n".to_vec()
    );
    assert_eq!(
        Value::BulkString(b"hello".to_vec()).serialize(),
        b"$5\r\nhello\r\n".to_vec()
    );
    assert_eq!(Value::Integer(-42).serialize(), b":-42\r\n".to_vec());
    assert_eq!(Value::NullString.serialize(), b"$-1\r\n".to_vec());
    assert_eq!(
        Value::Array(vec![Value::BulkString(b"PING".to_vec())]).serialize(),
        b"*1\r\n$4\r\nPING\r\n".to_vec()
    );
    assert_eq!(Value::Array(Vec::new()).serialize(), b"*0\r\n".to_vec());
}

#[test]
fn parse_is_length_driven_not_line_driven() {
    // The payload holds CRLF bytes; a line-splitting parser would stop
    // short, a length-driven one must consume exactly the declared count.
    let bytes = b"$7\r\nab\r\ncd!\r\n".to_vec();
    let (parsed, consumed) = Value::parse(&bytes).expect("must parse");
    assert_eq!(consumed, bytes.len());
    match parsed {
        Value::BulkString(payload) => assert_eq!(payload, b"ab\r\ncd!".to_vec()),
        _ => panic!("expected a bulk string"),
    }
}

#[test]
fn parse_incomplete_input_yields_nothing() {
    assert!(Value::parse(b"").is_none());
    assert!(Value::parse(b"$5\r\nhel").is_none());
    assert!(Value::parse(b"$5\r\nhello").is_none());
    assert!(Value::parse(b"*2\r\n$1\r\na\r\n").is_none());
    assert!(Value::parse(b":12").is_none());
    assert!(Value::parse(b"+status").is_none());
}

#[test]
fn parse_malformed_input_yields_nothing() {
    assert!(Value::parse(b"xhello\r\n").is_none());
    assert!(Value::parse(b":12a\r\n").is_none());
    assert!(Value::parse(b":\r\n").is_none());
    assert!(Value::parse(b"$abc\r\nxx\r\n").is_none());
    assert!(Value::parse(b"$5\r\nhello!!\r\n").is_none());
    assert!(Value::parse(b":99999999999999999999999999\r\n").is_none());
}

#[test]
fn parse_null_markers() {
    let (v, n) = Value::parse(b"$-1\r\n").expect("null bulk string");
    assert_eq!(n, 5);
    assert!(matches!(v, Value::NullString));
    let (v, n) = Value::parse(b"*-1\r\n").expect("null array");
    assert_eq!(n, 5);
    assert!(matches!(v, Value::NullString));
}

#[test]
fn parse_consumes_exactly_one_value() {
    let bytes = b"+first\r\n+second\r\n".to_vec();
    let (v, n) = Value::parse(&bytes).expect("must parse");
    assert_eq!(n, 8);
    assert_eq!(v.serialize(), b"+first\r\n".to_vec());
}

#[test]
fn parse_signed_integer_forms() {
    let (v, _) = Value::parse(b":+5\r\n").expect("plus sign accepted");
    assert_eq!(v.serialize(), b":5\r\n".to_vec());
    let (v, _) = Value::parse(b":-0\r\n").expect("negative zero accepted");
    assert_eq!(v.serialize(), b":0\r\n".to_vec());
}
