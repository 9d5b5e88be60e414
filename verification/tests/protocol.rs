use toy_redis::protocol::resp::{parse, parse_i64_bytes, ParseError, RespValue};
use toy_redis::protocol::writer::{
    encode_array_header, encode_bulk_string, encode_error, encode_int, encode_null,
    encode_simple_string, push_decimal,
};

#[test]
fn parse_simple_string() {
    let (v, n) = parse(b"+OK\r\nrest").unwrap();
    assert_eq!(v, RespValue::SimpleString(b"OK"));
    assert_eq!(n, 5);
}

#[test]
fn parse_error_value() {
    let (v, n) = parse(b"-ERR bad\r\n").unwrap();
    assert_eq!(v, RespValue::Error(b"ERR bad"));
    assert_eq!(n, 10);
}

#[test]
fn parse_integer_values() {
    assert_eq!(parse(b":42\r\n").unwrap(), (RespValue::Integer(42), 5));
    assert_eq!(parse(b":-7\r\n").unwrap(), (RespValue::Integer(-7), 5));
    assert_eq!(parse(b":+3\r\n").unwrap(), (RespValue::Integer(3), 5));
    assert_eq!(
        parse(b":-9223372036854775808\r\n").unwrap(),
        (RespValue::Integer(i64::MIN), 23)
    );
}

#[test]
fn parse_bulk_string_value() {
    let (v, n) = parse(b"$5\r\nhello\r\n").unwrap();
    assert_eq!(v, RespValue::BulkString(b"hello"));
    assert_eq!(n, 11);
    let (e, m) = parse(b"$0\r\n\r\n").unwrap();
    assert_eq!(e, RespValue::BulkString(b""));
    assert_eq!(m, 6);
}

#[test]
fn parse_bulk_may_hold_crlf() {
    let (v, n) = parse(b"$4\r\na\r\nb\r\n").unwrap();
    assert_eq!(v, RespValue::BulkString(b"a\r\nb"));
    assert_eq!(n, 10);
}

#[test]
fn parse_null_values() {
    assert_eq!(parse(b"$-1\r\n").unwrap(), (RespValue::Null, 5));
    assert_eq!(parse(b"*-1\r\n").unwrap(), (RespValue::Null, 5));
}

#[test]
fn parse_array_value() {
    let (v, n) = parse(b"*2\r\n$3\r\nGET\r\n$3\r\nfoo\r\n").unwrap();
    assert_eq!(
        v,
        RespValue::Array(vec![RespValue::BulkString(b"GET"), RespValue::BulkString(b"foo")])
    );
    assert_eq!(n, 22);
}

#[test]
fn parse_nested_array() {
    let (v, n) = parse(b"*2\r\n*1\r\n:1\r\n+x\r\n").unwrap();
    assert_eq!(
        v,
        RespValue::Array(vec![
            RespValue::Array(vec![RespValue::Integer(1)]),
            RespValue::SimpleString(b"x"),
        ])
    );
    assert_eq!(n, 16);
}

#[test]
fn parse_empty_array() {
    assert_eq!(parse(b"*0\r\n").unwrap(), (RespValue::Array(vec![]), 4));
}

#[test]
fn parse_incomplete_inputs() {
    assert!(matches!(parse(b""), Err(ParseError::Incomplete)));
    assert!(matches!(parse(b"+OK"), Err(ParseError::Incomplete)));
    assert!(matches!(parse(b"$5\r\nhel"), Err(ParseError::Incomplete)));
    assert!(matches!(parse(b"*2\r\n$3\r\nGET\r\n"), Err(ParseError::Incomplete)));
}

#[test]
fn parse_invalid_inputs() {
    assert!(matches!(parse(b"?x\r\n"), Err(ParseError::Invalid("unknown type byte"))));
    assert!(matches!(parse(b":12a\r\n"), Err(ParseError::Invalid("bad integer"))));
    assert!(matches!(parse(b":\r\n"), Err(ParseError::Invalid("bad integer"))));
    assert!(matches!(parse(b"$-2\r\n"), Err(ParseError::Invalid("negetive bulk length"))));
    assert!(matches!(parse(b":\xff\r\n"), Err(ParseError::Invalid("non-utf8 integer"))));
    assert!(matches!(
        parse(b":9223372036854775808\r\n"),
        Err(ParseError::Invalid("bad integer"))
    ));
}

#[test]
fn parse_i64_bytes_cases() {
    assert_eq!(parse_i64_bytes(b"0"), Some(0));
    assert_eq!(parse_i64_bytes(b"-12"), Some(-12));
    assert_eq!(parse_i64_bytes(b"+5"), Some(5));
    assert_eq!(parse_i64_bytes(b"9223372036854775807"), Some(i64::MAX));
    assert_eq!(parse_i64_bytes(b""), None);
    assert_eq!(parse_i64_bytes(b"-"), None);
    assert_eq!(parse_i64_bytes(b"1 "), None);
}

#[test]
fn encoders_write_exact_frames() {
    assert_eq!(encode_simple_string(b"PONG"), b"+PONG\r\n".to_vec());
    assert_eq!(encode_error(b"ERR x"), b"-ERR x\r\n".to_vec());
    assert_eq!(encode_bulk_string(b"bar"), b"$3\r\nbar\r\n".to_vec());
    assert_eq!(encode_bulk_string(b""), b"$0\r\n\r\n".to_vec());
    assert_eq!(encode_int(0), b":0\r\n".to_vec());
    assert_eq!(encode_int(-25), b":-25\r\n".to_vec());
    assert_eq!(encode_int(i64::MIN), b":-9223372036854775808\r\n".to_vec());
    assert_eq!(encode_null(), b"$-1\r\n".to_vec());
    assert_eq!(encode_array_header(12), b"*12\r\n".to_vec());
}

#[test]
fn push_decimal_appends_digits() {
    let mut out = b"n=".to_vec();
    push_decimal(&mut out, 1234567890);
    assert_eq!(out, b"n=1234567890".to_vec());
}

#[test]
fn encoded_frames_parse_back() {
    let bulk = encode_bulk_string(b"a\r\nb");
    assert_eq!(parse(&bulk).unwrap(), (RespValue::BulkString(b"a\r\nb"), bulk.len()));
    let int = encode_int(-99);
    assert_eq!(parse(&int).unwrap(), (RespValue::Integer(-99), int.len()));
    let simple = encode_simple_string(b"OK");
    assert_eq!(parse(&simple).unwrap(), (RespValue::SimpleString(b"OK"), simple.len()));
    let null = encode_null();
    assert_eq!(parse(&null).unwrap(), (RespValue::Null, 5));
}

#[test]
fn parse_reads_a_value_from_its_own_bytes() {
    let frame = b"*2\r\n$3\r\nGET\r\n$3\r\nfoo\r\n";
    let (v, n) = parse(frame).unwrap();
    let mut longer = frame.to_vec();
    longer.extend_from_slice(b"*1\r\n$4\r\nPING\r\n");
    let (w, m) = parse(&longer).unwrap();
    assert_eq!(v, w);
    assert_eq!(n, m);
    assert_eq!(n, frame.len());
}
