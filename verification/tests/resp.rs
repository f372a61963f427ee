use anand_redis::decimal::{parse_i64, parse_u64, push_i64};
use anand_redis::resp::{parse, parse_integer, serialize, strip_crlf, RespError, Value};

fn text(s: &str) -> String {
    s.to_string()
}

#[test]
fn serialize_each_kind() {
    assert_eq!(serialize(&Value::SimpleString(text("OK"))), b"+OK\r\n".to_vec());
    assert_eq!(serialize(&Value::Error(text("ERR bad"))), b"-ERR bad\r\n".to_vec());
    assert_eq!(serialize(&Value::Integer(-42)), b":-42\r\n".to_vec());
    assert_eq!(serialize(&Value::Integer(i64::MIN)), b":-9223372036854775808\r\n".to_vec());
    assert_eq!(serialize(&Value::BulkString(b"hello".to_vec())), b"$5\r\nhello\r\n".to_vec());
    assert_eq!(serialize(&Value::BulkString(Vec::new())), b"$0\r\n\r\n".to_vec());
    assert_eq!(serialize(&Value::Null), b"$-1\r\n".to_vec());
    let arr = Value::Array(vec![Value::Integer(1), Value::BulkString(b"a".to_vec())]);
    assert_eq!(serialize(&arr), b"*2\r\n:1\r\n$1\r\na\r\n".to_vec());
    assert_eq!(serialize(&Value::Array(Vec::new())), b"*0\r\n".to_vec());
}

#[test]
fn parse_each_kind() {
    assert_eq!(parse(b"+PONG\r\n"), Ok((Value::SimpleString(text("PONG")), 7)));
    assert_eq!(parse(b"-ERR x\r\n"), Ok((Value::Error(text("ERR x")), 8)));
    assert_eq!(parse(b":+17\r\n"), Ok((Value::Integer(17), 6)));
    assert_eq!(parse(b"$3\r\nfoo\r\nrest"), Ok((Value::BulkString(b"foo".to_vec()), 9)));
    assert_eq!(parse(b"$-1\r\n"), Ok((Value::Null, 5)));
    assert_eq!(parse(b"*-1\r\n"), Ok((Value::Null, 5)));
    assert_eq!(
        parse(b"*2\r\n$4\r\nECHO\r\n$2\r\nhi\r\n"),
        Ok((
            Value::Array(vec![Value::BulkString(b"ECHO".to_vec()), Value::BulkString(b"hi".to_vec())]),
            22
        ))
    );
    // A bulk string is binary-safe: CR and LF inside it are data.
    assert_eq!(parse(b"$4\r\na\r\nb\r\n"), Ok((Value::BulkString(b"a\r\nb".to_vec()), 10)));
}

#[test]
fn parse_errors() {
    assert_eq!(parse(b""), Err(RespError::Incomplete));
    assert_eq!(parse(b"+PONG"), Err(RespError::Incomplete));
    assert_eq!(parse(b"$5\r\nhel"), Err(RespError::Incomplete));
    assert_eq!(parse(b"*2\r\n:1\r\n"), Err(RespError::Incomplete));
    assert_eq!(parse(b"+PONG\n"), Err(RespError::MissingCrlf));
    assert_eq!(parse(b"\n"), Err(RespError::MissingCrlf));
    assert_eq!(parse(b"\r\n"), Err(RespError::UnknownPrefix));
    assert_eq!(parse(b"!x\r\n"), Err(RespError::UnknownPrefix));
    assert_eq!(parse(b"+\xff\r\n"), Err(RespError::InvalidUtf8));
    assert_eq!(parse(b":12a\r\n"), Err(RespError::InvalidInteger));
    assert_eq!(parse(b":9223372036854775808\r\n"), Err(RespError::InvalidInteger));
    assert_eq!(parse(b"$-2\r\n"), Err(RespError::NegativeBulkLength));
    assert_eq!(parse(b"$2\r\nabXY"), Err(RespError::MissingBulkCrlf));
    assert_eq!(parse(b"*-3\r\n"), Err(RespError::NegativeArrayLength));
    assert_eq!(RespError::MissingCrlf.message(), "line missing CRLF terminator");
}

#[test]
fn parse_reads_multibyte_text() {
    let bytes = "+h\u{e9}llo \u{1f600}\r\n".as_bytes().to_vec();
    assert_eq!(parse(&bytes), Ok((Value::SimpleString(text("h\u{e9}llo \u{1f600}")), bytes.len())));
}

#[test]
fn serialize_then_parse_roundtrip() {
    let v = Value::Array(vec![
        Value::SimpleString(text("caf\u{e9}")),
        Value::Error(text("ERR no")),
        Value::Integer(-7),
        Value::BulkString(b"bin\r\n\x00".to_vec()),
        Value::Null,
        Value::Array(vec![Value::Array(Vec::new()), Value::Integer(i64::MAX)]),
    ]);
    let mut bytes = serialize(&v);
    let n = bytes.len();
    bytes.extend_from_slice(b"+next\r\n");
    assert_eq!(parse(&bytes), Ok((v, n)));
}

#[test]
fn decimal_integers() {
    assert_eq!(parse_i64(b"-0"), Some(0));
    assert_eq!(parse_i64(b"+5"), Some(5));
    assert_eq!(parse_i64(b"007"), Some(7));
    assert_eq!(parse_i64(b"-9223372036854775808"), Some(i64::MIN));
    assert_eq!(parse_i64(b"9223372036854775807"), Some(i64::MAX));
    assert_eq!(parse_i64(b"9223372036854775808"), None);
    assert_eq!(parse_i64(b"-"), None);
    assert_eq!(parse_i64(b"+"), None);
    assert_eq!(parse_i64(b""), None);
    assert_eq!(parse_i64(b" 1"), None);
    assert_eq!(parse_u64(b"18446744073709551615"), Some(u64::MAX));
    assert_eq!(parse_u64(b"18446744073709551616"), None);
    assert_eq!(parse_u64(b"-1"), None);
    assert_eq!(parse_u64(b"+3"), Some(3));
    for n in [0i64, 9, 10, -1, 123456789, i64::MIN, i64::MAX] {
        let mut out = Vec::new();
        push_i64(&mut out, n);
        assert_eq!(out, n.to_string().into_bytes());
        assert_eq!(parse_i64(&out), Some(n));
    }
}

#[test]
fn line_helpers() {
    assert_eq!(strip_crlf(b"abc\r\n"), Ok(&b"abc"[..]));
    assert_eq!(strip_crlf(b"\r\n"), Ok(&b""[..]));
    assert_eq!(strip_crlf(b"abc\n"), Err(RespError::MissingCrlf));
    assert_eq!(strip_crlf(b"\n"), Err(RespError::MissingCrlf));
    assert_eq!(parse_integer(b"-12"), Some(-12));
    assert_eq!(parse_integer(b"1.5"), None);
}
