use resp_kv::command::Command;
use resp_kv::session::{Served, Session, Step};
use resp_kv::store::Store;

fn served(reply: &[u8], close: bool) -> Served {
    Served { reply: reply.to_vec(), close }
}

#[test]
fn fragmented_frame_yields_one_reply() {
    let mut store = Store::new();
    let mut session = Session::new();
    session.receive(b"*1\r\n$4\r\nPI");
    assert_eq!(session.serve(&mut store, 0), served(b"", false));
    assert_eq!(session.buffered(), b"*1\r\n$4\r\nPI");
    session.receive(b"NG\r\n");
    assert_eq!(session.serve(&mut store, 0), served(b"+PONG\r\n", false));
    assert!(session.buffered().is_empty());
}

#[test]
fn concrete_conversation() {
    let mut store = Store::new();
    let mut session = Session::new();
    let exchanges: [(&[u8], &[u8]); 6] = [
        (b"*1\r\n$4\r\nPING\r\n", b"+PONG\r\n"),
        (b"*2\r\n$4\r\nECHO\r\n$3\r\nfoo\r\n", b"$3\r\nfoo\r\n"),
        (b"*3\r\n$3\r\nSET\r\n$1\r\nx\r\n$1\r\n1\r\n", b"+OK\r\n"),
        (b"*2\r\n$3\r\nGET\r\n$1\r\nx\r\n", b"$1\r\n1\r\n"),
        (b"*2\r\n$3\r\nGET\r\n$1\r\ny\r\n", b"$-1\r\n"),
        (b"*1\r\n$7\r\nUNKNOWN\r\n", b"-ERR unknown command 'UNKNOWN'\r\n"),
    ];
    for (request, reply) in exchanges {
        session.receive(request);
        assert_eq!(session.serve(&mut store, 0), served(reply, false));
    }
}

#[test]
fn several_frames_in_one_read() {
    let mut store = Store::new();
    let mut session = Session::new();
    session.receive(b"*1\r\n$4\r\nPING\r\n*2\r\n$4\r\nECHO\r\n$2\r\nhi\r\n*1\r\n$4");
    assert_eq!(session.serve(&mut store, 0), served(b"+PONG\r\n$2\r\nhi\r\n", false));
    assert_eq!(session.buffered(), b"*1\r\n$4");
}

#[test]
fn malformed_frame_closes() {
    let mut store = Store::new();
    let mut session = Session::new();
    session.receive(b"?oops\r\n");
    assert_eq!(session.serve(&mut store, 0), served(b"-ERR parse error\r\n", true));
}

#[test]
fn frame_that_is_no_command_closes() {
    let mut store = Store::new();
    let mut session = Session::new();
    session.receive(b"+PING\r\n");
    assert_eq!(session.serve(&mut store, 0), served(b"-ERR invalid command\r\n", true));
    let mut other = Session::new();
    other.receive(b"*1\r\n$4\r\nECHO\r\n");
    assert_eq!(other.serve(&mut store, 0), served(b"-ERR invalid command\r\n", true));
}

#[test]
fn next_step_one_at_a_time() {
    let mut session = Session::new();
    assert_eq!(session.next_step(), Step::NeedMore);
    session.receive(b"*2\r\n$3\r\nGET\r\n$1\r\nk\r\n");
    assert_eq!(session.next_step(), Step::Execute(Command::Get(b"k".to_vec())));
    assert_eq!(session.next_step(), Step::NeedMore);
}

#[test]
fn expiry_through_the_session() {
    let mut store = Store::new();
    let mut session = Session::new();
    session.receive(b"*5\r\n$3\r\nSET\r\n$1\r\nk\r\n$1\r\nv\r\n$2\r\nPX\r\n$2\r\n10\r\n");
    assert_eq!(session.serve(&mut store, 100), served(b"+OK\r\n", false));
    session.receive(b"*2\r\n$3\r\nGET\r\n$1\r\nk\r\n");
    assert_eq!(session.serve(&mut store, 109), served(b"$1\r\nv\r\n", false));
    session.receive(b"*2\r\n$3\r\nGET\r\n$1\r\nk\r\n");
    assert_eq!(session.serve(&mut store, 111), served(b"$-1\r\n", false));
}

#[test]
fn buffer_limit_closes_on_a_long_incomplete_frame() {
    let mut store = Store::new();
    let mut session = Session::with_limit(8);
    session.receive(b"*1\r\n$4\r\nPI");
    assert_eq!(
        session.serve(&mut store, 0),
        served(b"-ERR buffer limit exceeded\r\n", true)
    );
}

#[test]
fn buffer_limit_spares_complete_frames_and_short_waits() {
    let mut store = Store::new();
    let mut session = Session::with_limit(8);
    session.receive(b"*1\r\n$4\r\nPING\r\n*1\r\n$4");
    assert_eq!(session.serve(&mut store, 0), served(b"+PONG\r\n", false));
    assert_eq!(session.buffered(), b"*1\r\n$4");
}
