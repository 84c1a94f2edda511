use resp_kv::command::Command;
use resp_kv::session::handle_command;
use resp_kv::store::Store;

#[test]
fn miss_is_repeatable() {
    let mut s = Store::new();
    assert_eq!(s.get(&b"nope".to_vec(), 0), None);
    assert_eq!(s.get(&b"nope".to_vec(), 5), None);
}

#[test]
fn value_expires_after_px() {
    let mut s = Store::new();
    s.set(b"k".to_vec(), b"v".to_vec(), Some(10), 1000);
    assert_eq!(s.get(&b"k".to_vec(), 1005), Some(b"v".to_vec()));
    assert_eq!(s.get(&b"k".to_vec(), 1010), Some(b"v".to_vec()));
    assert_eq!(s.get(&b"k".to_vec(), 1011), None);
    assert_eq!(s.get(&b"k".to_vec(), 1005), None);
}

#[test]
fn overwrite_drops_the_expiry() {
    let mut s = Store::new();
    s.set(b"k".to_vec(), b"v1".to_vec(), Some(100000), 0);
    s.set(b"k".to_vec(), b"v2".to_vec(), None, 1);
    assert_eq!(s.get(&b"k".to_vec(), 1), Some(b"v2".to_vec()));
    assert_eq!(s.get(&b"k".to_vec(), 200000), Some(b"v2".to_vec()));
}

#[test]
fn huge_px_never_expires() {
    let mut s = Store::new();
    s.set(b"k".to_vec(), b"v".to_vec(), Some(u64::MAX), 10);
    assert_eq!(s.get(&b"k".to_vec(), u64::MAX), Some(b"v".to_vec()));
}

#[test]
fn keys_are_independent() {
    let mut s = Store::new();
    s.set(b"a".to_vec(), b"1".to_vec(), Some(1), 0);
    s.set(b"b".to_vec(), b"2".to_vec(), None, 0);
    assert_eq!(s.get(&b"a".to_vec(), 5), None);
    assert_eq!(s.get(&b"b".to_vec(), 5), Some(b"2".to_vec()));
}

#[test]
fn replies_to_each_command() {
    let mut s = Store::new();
    assert_eq!(handle_command(Command::Ping(None), &mut s, 0), b"+PONG\r\n");
    assert_eq!(handle_command(Command::Ping(Some(b"hey".to_vec())), &mut s, 0), b"+hey\r\n");
    assert_eq!(handle_command(Command::Echo(b"foo".to_vec()), &mut s, 0), b"$3\r\nfoo\r\n");
    let set = Command::SetKey { key: b"x".to_vec(), value: b"1".to_vec(), px: None };
    assert_eq!(handle_command(set, &mut s, 0), b"+OK\r\n");
    assert_eq!(handle_command(Command::Get(b"x".to_vec()), &mut s, 0), b"$1\r\n1\r\n");
    assert_eq!(handle_command(Command::Get(b"y".to_vec()), &mut s, 0), b"$-1\r\n");
    assert_eq!(
        handle_command(Command::Unknown(b"Nope".to_vec()), &mut s, 0),
        b"-ERR unknown command 'Nope'\r\n"
    );
}
