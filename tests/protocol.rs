use resp_kv::decimal::{parse_i64, parse_u64};
use resp_kv::protocol::{encode, parse, RespParseError, RespValue};

fn bulk(s: &[u8]) -> RespValue {
    RespValue::BulkString(Some(s.to_vec()))
}

#[test]
fn parses_simple_string() {
    let (v, rest) = parse(b"+OK\r\nmore").unwrap();
    assert_eq!(v, RespValue::SimpleString(b"OK".to_vec()));
    assert_eq!(rest, b"more");
}

#[test]
fn parses_error_line() {
    let (v, rest) = parse(b"-ERR bad thing\r\n").unwrap();
    assert_eq!(v, RespValue::Error(b"ERR bad thing".to_vec()));
    assert!(rest.is_empty());
}

#[test]
fn parses_integers() {
    assert_eq!(parse(b":42\r\n").unwrap().0, RespValue::Integer(42));
    assert_eq!(parse(b":-7\r\n").unwrap().0, RespValue::Integer(-7));
    assert_eq!(parse(b":+7\r\n").unwrap().0, RespValue::Integer(7));
    assert_eq!(
        parse(b":-9223372036854775808\r\n").unwrap().0,
        RespValue::Integer(i64::MIN)
    );
    assert_eq!(parse(b":12a\r\n").unwrap_err(), RespParseError::InvalidFormat);
    assert_eq!(
        parse(b":9223372036854775808\r\n").unwrap_err(),
        RespParseError::InvalidFormat
    );
}

#[test]
fn parses_bulk_strings() {
    let (v, rest) = parse(b"$5\r\nhello\r\n:1\r\n").unwrap();
    assert_eq!(v, bulk(b"hello"));
    assert_eq!(rest, b":1\r\n");
    assert_eq!(parse(b"$0\r\n\r\n").unwrap().0, bulk(b""));
    assert_eq!(parse(b"$-1\r\n").unwrap().0, RespValue::BulkString(None));
}

#[test]
fn bulk_payload_is_binary_safe() {
    let (v, _) = parse(b"$4\r\n\xff\r\n\x00\r\n").unwrap();
    assert_eq!(v, bulk(b"\xff\r\n\x00"));
}

#[test]
fn parses_arrays() {
    let (v, rest) = parse(b"*2\r\n$5\r\nhello\r\n$5\r\nworld\r\n").unwrap();
    assert_eq!(v, RespValue::Array(vec![bulk(b"hello"), bulk(b"world")]));
    assert!(rest.is_empty());
    let (v, _) = parse(b"*2\r\n*1\r\n:1\r\n+x\r\n").unwrap();
    assert_eq!(
        v,
        RespValue::Array(vec![
            RespValue::Array(vec![RespValue::Integer(1)]),
            RespValue::SimpleString(b"x".to_vec())
        ])
    );
}

#[test]
fn null_array_decodes_as_empty() {
    assert_eq!(parse(b"*-1\r\n").unwrap().0, RespValue::Array(vec![]));
    assert_eq!(parse(b"*0\r\n").unwrap().0, RespValue::Array(vec![]));
}

#[test]
fn incomplete_inputs() {
    for input in [
        &b"+OK"[..],
        b"+OK\r",
        b"$5\r\nhel",
        b"$5\r\nhello\r",
        b"$5",
        b"*2\r\n$1\r\na\r\n$1\r\n",
        b"*1\r\n$4\r\nPI",
        b":12",
    ] {
        assert_eq!(parse(input).unwrap_err(), RespParseError::Incomplete);
    }
}

#[test]
fn invalid_inputs() {
    for input in [
        &b""[..],
        b"?x\r\n",
        b"$abc\r\n",
        b"$3\r\nabcde\r\n",
        b"$-2\r\n",
        b"*-3\r\n",
        b"*x\r\n",
        b"*2\r\n$1\r\na\r\n",
    ] {
        assert_eq!(parse(input).unwrap_err(), RespParseError::InvalidFormat);
    }
}

#[test]
fn encodes_each_kind() {
    assert_eq!(encode(&RespValue::SimpleString(b"PONG".to_vec())), b"+PONG\r\n");
    assert_eq!(encode(&RespValue::Error(b"ERR x".to_vec())), b"-ERR x\r\n");
    assert_eq!(encode(&RespValue::Integer(-15)), b":-15\r\n");
    assert_eq!(encode(&RespValue::Integer(i64::MIN)), b":-9223372036854775808\r\n");
    assert_eq!(encode(&bulk(b"foo")), b"$3\r\nfoo\r\n");
    assert_eq!(encode(&RespValue::BulkString(None)), b"$-1\r\n");
    assert_eq!(
        encode(&RespValue::Array(vec![bulk(b"a"), RespValue::Integer(10)])),
        b"*2\r\n$1\r\na\r\n:10\r\n"
    );
}

#[test]
fn encode_then_parse_round_trips() {
    let values = vec![
        RespValue::SimpleString(b"hello world".to_vec()),
        RespValue::Error(b"WRONGTYPE no".to_vec()),
        RespValue::Integer(i64::MAX),
        RespValue::Integer(i64::MIN),
        RespValue::Integer(0),
        bulk(b"with\r\ninside"),
        RespValue::BulkString(None),
        RespValue::Array(vec![]),
        RespValue::Array(vec![
            bulk(b"SET"),
            RespValue::Array(vec![RespValue::Integer(3), RespValue::BulkString(None)]),
        ]),
    ];
    for v in values {
        let bytes = encode(&v);
        let mut with_tail = bytes.clone();
        with_tail.extend_from_slice(b"tail");
        let (back, rest) = parse(&with_tail).unwrap();
        assert_eq!(back, v);
        assert_eq!(rest, b"tail");
    }
}

#[test]
fn reads_numerals_like_from_str() {
    let cases: [&[u8]; 9] = [b"0", b"+5", b"-5", b"-", b"+", b"", b"1x", b"18446744073709551615", b"18446744073709551616"];
    for c in cases {
        let text = std::str::from_utf8(c).unwrap();
        assert_eq!(parse_i64(c, 0, c.len()), text.parse::<i64>().ok(), "i64 {:?}", text);
        assert_eq!(parse_u64(c, 0, c.len()), text.parse::<u64>().ok(), "u64 {:?}", text);
    }
}
