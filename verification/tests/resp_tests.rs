use respkv::resp::{decode, parse_simple_string, parse_bulk_string, parse_array, parse_int,
    read_until_clrf, Value};
use respkv::DecodeError;

#[test]
fn test_parse_simple_string_valid() {
    let buffer: Vec<u8> = b"+OK\r\n".to_vec();
    let result = parse_simple_string(&buffer);
    assert!(result.is_ok());
    let (value, len) = result.unwrap();
    assert_eq!(len, 5); // "+OK\r\n" is 5 bytes long
    match value {
        Value::SimpleString(s) => assert_eq!(s, b"OK".to_vec()),
        _ => panic!("Expected SimpleString"),
    }
}

#[test]
fn test_parse_simple_string_empty() {
    let buffer: Vec<u8> = b"+\r\n".to_vec();
    let result = parse_simple_string(&buffer);
    assert!(result.is_ok());
    let (value, len) = result.unwrap();
    assert_eq!(len, 3); // "+\r\n" is 3 bytes long
    match value {
        Value::SimpleString(s) => assert_eq!(s, b"".to_vec()),
        _ => panic!("Expected SimpleString"),
    }
}

#[test]
fn test_parse_simple_string_no_crlf() {
    let buffer: Vec<u8> = b"+Hello World".to_vec();
    let result = parse_simple_string(&buffer);
    assert!(result.is_err());
    assert_eq!(result.unwrap_err(), DecodeError::Incomplete);
}

#[test]
fn test_parse_simple_string_with_extra_data() {
    let buffer: Vec<u8> = b"+Message\r\nExtraData".to_vec();
    let result = parse_simple_string(&buffer);
    assert!(result.is_ok());
    let (value, len) = result.unwrap();
    // len should represent the consumed part, which is "+Message\r\n"
    assert_eq!(len, 10);
    match value {
        Value::SimpleString(s) => assert_eq!(s, b"Message".to_vec()),
        _ => panic!("Expected SimpleString"),
    }
}

#[test]
fn parse_bulk_string_exact() {
    let buffer: Vec<u8> = b"$3\r\nbar\r\n".to_vec();
    let (value, len) = parse_bulk_string(&buffer).unwrap();
    assert_eq!(len, 9);
    match value {
        Value::BulkString(s) => assert_eq!(s, b"bar".to_vec()),
        _ => panic!("Expected BulkString"),
    }
}

#[test]
fn parse_bulk_string_null() {
    let buffer: Vec<u8> = b"$-1\r\n".to_vec();
    let (value, len) = parse_bulk_string(&buffer).unwrap();
    assert_eq!(len, 5);
    assert!(matches!(value, Value::Null));
}

#[test]
fn parse_bulk_string_declared_length_too_long_is_incomplete() {
    // Declared length 3 with only 2 payload bytes before CRLF: the
    // buffer is a strict prefix of some 9-byte frame, so the decoder
    // asks for more bytes rather than failing or succeeding bogusly.
    let buffer: Vec<u8> = b"$3\r\nab\r\n".to_vec();
    assert_eq!(decode(&buffer).unwrap_err(), DecodeError::Incomplete);
    // Once a ninth byte arrives the terminator check fails for real.
    let longer: Vec<u8> = b"$3\r\nab\r\n\n".to_vec();
    assert_eq!(decode(&longer).unwrap_err(), DecodeError::MalformedBulkString);
}

#[test]
fn parse_array_nested() {
    let buffer: Vec<u8> = b"*2\r\n$3\r\nfoo\r\n:42\r\n".to_vec();
    let (value, len) = parse_array(&buffer).unwrap();
    assert_eq!(len, buffer.len());
    match value {
        Value::Array(items) => {
            assert_eq!(items.len(), 2);
            assert!(matches!(&items[0], Value::BulkString(s) if s == &b"foo".to_vec()));
            assert!(matches!(&items[1], Value::Integer(42)));
        },
        _ => panic!("Expected Array"),
    }
}

#[test]
fn parse_int_exact_values() {
    assert_eq!(parse_int(&b"123".to_vec()).unwrap(), 123);
    assert_eq!(parse_int(&b"-42".to_vec()).unwrap(), -42);
    assert_eq!(parse_int(&b"+7".to_vec()).unwrap(), 7);
    assert_eq!(parse_int(&b"0".to_vec()).unwrap(), 0);
    assert_eq!(parse_int(&b"9223372036854775807".to_vec()).unwrap(), i64::MAX);
    assert_eq!(parse_int(&b"-9223372036854775808".to_vec()).unwrap(), i64::MIN);
}

#[test]
fn parse_int_rejects() {
    assert_eq!(parse_int(&b"".to_vec()).unwrap_err(), DecodeError::InvalidInteger);
    assert_eq!(parse_int(&b"12a".to_vec()).unwrap_err(), DecodeError::InvalidInteger);
    assert_eq!(parse_int(&b"-".to_vec()).unwrap_err(), DecodeError::InvalidInteger);
    assert_eq!(
        parse_int(&b"9223372036854775808".to_vec()).unwrap_err(),
        DecodeError::InvalidInteger
    );
    assert_eq!(
        parse_int(&b"99999999999999999999999".to_vec()).unwrap_err(),
        DecodeError::InvalidInteger
    );
}

#[test]
fn read_until_clrf_finds_first_line() {
    let (line, consumed) = read_until_clrf(&b"abc\r\ndef".to_vec()).unwrap();
    assert_eq!(line, b"abc".to_vec());
    assert_eq!(consumed, 5);
    assert!(read_until_clrf(&b"abc".to_vec()).is_none());
}

#[test]
fn decode_error_variants() {
    assert_eq!(decode(&b"%x\r\n".to_vec()).unwrap_err(), DecodeError::UnknownType);
    assert_eq!(decode(&b":ab\r\n".to_vec()).unwrap_err(), DecodeError::InvalidInteger);
    assert_eq!(decode(&b"*1000001\r\n".to_vec()).unwrap_err(), DecodeError::LimitExceeded);
    assert_eq!(decode(&b"".to_vec()).unwrap_err(), DecodeError::Incomplete);
}

#[test]
fn decode_depth_limit() {
    let mut buffer: Vec<u8> = Vec::new();
    for _ in 0..33 {
        buffer.extend_from_slice(b"*1\r\n");
    }
    assert_eq!(decode(&buffer).unwrap_err(), DecodeError::LimitExceeded);
    // One level fewer still awaits its innermost element.
    let mut shallower: Vec<u8> = Vec::new();
    for _ in 0..32 {
        shallower.extend_from_slice(b"*1\r\n");
    }
    assert_eq!(decode(&shallower).unwrap_err(), DecodeError::Incomplete);
}

#[test]
fn serialize_every_variant() {
    assert_eq!(Value::SimpleString(b"OK".to_vec()).serialize(), b"+OK\r\n".to_vec());
    assert_eq!(Value::Error(b"ERR boom".to_vec()).serialize(), b"-ERR boom\r\n".to_vec());
    assert_eq!(Value::Integer(10).serialize(), b":10\r\n".to_vec());
    assert_eq!(Value::Integer(-5).serialize(), b":-5\r\n".to_vec());
    assert_eq!(Value::Integer(i64::MIN).serialize(), b":-9223372036854775808\r\n".to_vec());
    assert_eq!(Value::BulkString(b"".to_vec()).serialize(), b"$0\r\n\r\n".to_vec());
    assert_eq!(Value::BulkString(b"hey".to_vec()).serialize(), b"$3\r\nhey\r\n".to_vec());
    assert_eq!(Value::Null.serialize(), b"$-1\r\n".to_vec());
    let arr = Value::Array(vec![
        Value::BulkString(b"a".to_vec()),
        Value::Integer(7),
    ]);
    assert_eq!(arr.serialize(), b"*2\r\n$1\r\na\r\n:7\r\n".to_vec());
    assert_eq!(Value::Array(vec![]).serialize(), b"*0\r\n".to_vec());
}

#[test]
fn decode_of_encode_round_trips() {
    let v = Value::Array(vec![
        Value::SimpleString(b"hello".to_vec()),
        Value::Array(vec![Value::Integer(-3), Value::Null]),
        Value::BulkString(b"with\r\nnewlines".to_vec()),
    ]);
    let bytes = v.serialize();
    let (back, consumed) = decode(&bytes).unwrap();
    assert_eq!(consumed, bytes.len());
    assert_eq!(back.serialize(), bytes);
}

#[test]
fn decode_strict_prefixes_are_incomplete() {
    let v = Value::Array(vec![
        Value::BulkString(b"foo".to_vec()),
        Value::SimpleString(b"bar".to_vec()),
    ]);
    let bytes = v.serialize();
    for p in 0..bytes.len() {
        let prefix: Vec<u8> = bytes[..p].to_vec();
        assert_eq!(decode(&prefix).unwrap_err(), DecodeError::Incomplete);
    }
}

#[test]
fn decode_leaves_trailing_bytes() {
    let mut buffer: Vec<u8> = b"+first\r\n".to_vec();
    buffer.extend_from_slice(b"+second\r\n");
    let (v1, c1) = decode(&buffer).unwrap();
    assert!(matches!(v1, Value::SimpleString(s) if s == b"first".to_vec()));
    let rest: Vec<u8> = buffer[c1..].to_vec();
    let (v2, c2) = decode(&rest).unwrap();
    assert!(matches!(v2, Value::SimpleString(s) if s == b"second".to_vec()));
    assert_eq!(c1 + c2, buffer.len());
    // Decoding only the consumed bytes reproduces the first frame.
    let head: Vec<u8> = buffer[..c1].to_vec();
    let (v1b, c1b) = decode(&head).unwrap();
    assert_eq!(c1b, c1);
    assert!(matches!(v1b, Value::SimpleString(s) if s == b"first".to_vec()));
}
