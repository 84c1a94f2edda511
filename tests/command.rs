use resp_kv::command::{parse_command, Command};
use resp_kv::protocol::{parse, RespParseError, RespValue};

fn cmd(parts: &[&[u8]]) -> RespValue {
    RespValue::Array(parts.iter().map(|p| RespValue::BulkString(Some(p.to_vec()))).collect())
}

#[test]
fn ping_with_and_without_message() {
    assert_eq!(parse_command(cmd(&[b"PING"])).unwrap(), Command::Ping(None));
    assert_eq!(parse_command(cmd(&[b"ping", b"hi"])).unwrap(), Command::Ping(Some(b"hi".to_vec())));
    let odd = RespValue::Array(vec![
        RespValue::BulkString(Some(b"PING".to_vec())),
        RespValue::Integer(3),
    ]);
    assert_eq!(parse_command(odd).unwrap(), Command::Ping(None));
}

#[test]
fn echo_and_get_need_an_argument() {
    assert_eq!(parse_command(cmd(&[b"Echo", b"foo"])).unwrap(), Command::Echo(b"foo".to_vec()));
    assert_eq!(parse_command(cmd(&[b"ECHO"])).unwrap_err(), RespParseError::InvalidFormat);
    assert_eq!(parse_command(cmd(&[b"get", b"k"])).unwrap(), Command::Get(b"k".to_vec()));
    assert_eq!(parse_command(cmd(&[b"GET"])).unwrap_err(), RespParseError::InvalidFormat);
}

#[test]
fn set_with_and_without_px() {
    assert_eq!(
        parse_command(cmd(&[b"SET", b"k", b"v"])).unwrap(),
        Command::SetKey { key: b"k".to_vec(), value: b"v".to_vec(), px: None }
    );
    assert_eq!(
        parse_command(cmd(&[b"set", b"k", b"v", b"px", b"100"])).unwrap(),
        Command::SetKey { key: b"k".to_vec(), value: b"v".to_vec(), px: Some(100) }
    );
    assert_eq!(
        parse_command(cmd(&[b"SET", b"k", b"v", b"EX", b"100"])).unwrap(),
        Command::SetKey { key: b"k".to_vec(), value: b"v".to_vec(), px: None }
    );
    assert_eq!(
        parse_command(cmd(&[b"SET", b"k", b"v", b"PX", b"-1"])).unwrap(),
        Command::SetKey { key: b"k".to_vec(), value: b"v".to_vec(), px: None }
    );
    assert_eq!(
        parse_command(cmd(&[b"SET", b"k", b"v", b"PX"])).unwrap(),
        Command::SetKey { key: b"k".to_vec(), value: b"v".to_vec(), px: None }
    );
    assert_eq!(parse_command(cmd(&[b"SET", b"k"])).unwrap_err(), RespParseError::InvalidFormat);
}

#[test]
fn unknown_keeps_the_name_as_sent() {
    assert_eq!(parse_command(cmd(&[b"flushAll"])).unwrap(), Command::Unknown(b"flushAll".to_vec()));
}

#[test]
fn malformed_commands_are_rejected() {
    assert_eq!(
        parse_command(RespValue::SimpleString(b"PING".to_vec())).unwrap_err(),
        RespParseError::InvalidFormat
    );
    assert_eq!(parse_command(RespValue::Array(vec![])).unwrap_err(), RespParseError::InvalidFormat);
    assert_eq!(
        parse_command(RespValue::Array(vec![RespValue::Integer(1)])).unwrap_err(),
        RespParseError::InvalidFormat
    );
}

#[test]
fn decoded_frame_to_command() {
    let (v, _) = parse(b"*3\r\n$3\r\nSET\r\n$1\r\nx\r\n$1\r\n1\r\n").unwrap();
    assert_eq!(
        parse_command(v).unwrap(),
        Command::SetKey { key: b"x".to_vec(), value: b"1".to_vec(), px: None }
    );
}
