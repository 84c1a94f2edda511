//! A connection's side of the protocol: executing commands against the
//! store to produce replies, and cutting frames out of the bytes that a
//! connection has received so far.

use vstd::prelude::*;
use crate::command::{interpret, parse_command, Cmd, Command};
use crate::protocol::{decode_at, encode, encoding, lemma_decode_bounds, parse, Decoded, Resp, RespValue};
use crate::store::{after_read, after_write, lookup, Store};

verus! {

pub open spec fn text_pong() -> Seq<u8> {
    seq![80u8, 79, 78, 71]
}

pub open spec fn text_ok() -> Seq<u8> {
    seq![79u8, 75]
}

/// `ERR unknown command '`
pub open spec fn text_unknown() -> Seq<u8> {
    seq![69u8, 82, 82, 32, 117, 110, 107, 110, 111, 119, 110, 32, 99, 111, 109, 109, 97, 110, 100, 32, 39]
}

/// `ERR parse error`
pub open spec fn text_parse_error() -> Seq<u8> {
    seq![69u8, 82, 82, 32, 112, 97, 114, 115, 101, 32, 101, 114, 114, 111, 114]
}

/// `ERR invalid command`
pub open spec fn text_invalid_command() -> Seq<u8> {
    seq![69u8, 82, 82, 32, 105, 110, 118, 97, 108, 105, 100, 32, 99, 111, 109, 109, 97, 110, 100]
}

/// `ERR buffer limit exceeded`
pub open spec fn text_limit_exceeded() -> Seq<u8> {
    seq![69u8, 82, 82, 32, 98, 117, 102, 102, 101, 114, 32, 108, 105, 109, 105, 116, 32, 101, 120, 99, 101, 101, 100, 101, 100]
}

/// The reply to a command run against store contents `m` at time `now`.
pub open spec fn reply_of(c: Cmd, m: Map<Seq<u8>, (Seq<u8>, Option<u64>)>, now: u64) -> Seq<u8> {
    match c {
        Cmd::Ping(None) => encoding(Resp::Simple(text_pong())),
        Cmd::Ping(Some(msg)) => encoding(Resp::Simple(msg)),
        Cmd::Echo(msg) => encoding(Resp::Bulk(Some(msg))),
        Cmd::SetKey(_, _, _) => encoding(Resp::Simple(text_ok())),
        Cmd::Get(k) => encoding(Resp::Bulk(lookup(m, k, now))),
        Cmd::Unknown(name) => encoding(Resp::Error(text_unknown() + name + seq![39u8])),
    }
}

/// The store contents after a command runs against `m` at time `now`.
pub open spec fn effect_of(c: Cmd, m: Map<Seq<u8>, (Seq<u8>, Option<u64>)>, now: u64) -> Map<
    Seq<u8>,
    (Seq<u8>, Option<u64>),
> {
    match c {
        Cmd::SetKey(k, v, px) => after_write(m, k, v, px, now),
        Cmd::Get(k) => after_read(m, k, now),
        _ => m,
    }
}

fn bytes_of(src: &Vec<u8>, out: &mut Vec<u8>)
    ensures
        final(out)@ == old(out)@ + src@,
{
    let ghost start = out@;
    let mut i: usize = 0;
    while i < src.len()
        invariant
            i <= src@.len(),
            out@ == start + src@.subrange(0, i as int),
        decreases src@.len() - i,
    {
        out.push(src[i]);
        i += 1;
        assert(out@ =~= start + src@.subrange(0, i as int));
    }
    assert(src@.subrange(0, i as int) =~= src@);
}

/// Runs a command against the store at time `now` and gives the encoded
/// reply.
pub fn handle_command(cmd: Command, store: &mut Store, now: u64) -> (reply: Vec<u8>)
    requires
        old(store).wf(),
    ensures
        final(store).wf(),
        reply@ == reply_of(cmd@, old(store)@, now),
        final(store)@ == effect_of(cmd@, old(store)@, now),
{
    match cmd {
        Command::Ping(None) => {
            let t: Vec<u8> = vec![80u8, 79, 78, 71];
            assert(t@ =~= text_pong());
            encode(&RespValue::SimpleString(t))
        },
        Command::Ping(Some(msg)) => encode(&RespValue::SimpleString(msg)),
        Command::Echo(msg) => encode(&RespValue::BulkString(Some(msg))),
        Command::SetKey { key, value, px } => {
            store.set(key, value, px, now);
            let t: Vec<u8> = vec![79u8, 75];
            assert(t@ =~= text_ok());
            encode(&RespValue::SimpleString(t))
        },
        Command::Get(key) => {
            let found = store.get(&key, now);
            encode(&RespValue::BulkString(found))
        },
        Command::Unknown(name) => {
            let mut t: Vec<u8> = vec![
                69u8, 82, 82, 32, 117, 110, 107, 110, 111, 119, 110, 32, 99, 111, 109, 109, 97, 110, 100, 32, 39,
            ];
            assert(t@ =~= text_unknown());
            bytes_of(&name, &mut t);
            t.push(39);
            assert(t@ =~= text_unknown() + name@ + seq![39u8]);
            encode(&RespValue::Error(t))
        },
    }
}

/// What a session does next, in the model.
pub enum Action {
    /// Run this command and write its reply.
    Execute(Cmd),
    /// Wait for more bytes.
    NeedMore,
    /// Write this reply, then close the connection.
    Close(Seq<u8>),
}

/// What a session does next.
#[derive(Debug, PartialEq, Eq)]
pub enum Step {
    /// Run this command against the store and write its reply.
    Execute(Command),
    /// Wait for more bytes from the peer.
    NeedMore,
    /// Write this reply, then close the connection.
    Close(Vec<u8>),
}

impl View for Step {
    type V = Action;

    open spec fn view(&self) -> Action {
        match self {
            Step::Execute(c) => Action::Execute(c@),
            Step::NeedMore => Action::NeedMore,
            Step::Close(r) => Action::Close(r@),
        }
    }
}

/// The next action of a session whose buffer holds `buf`, and what stays
/// buffered after it. An empty buffer waits; an incomplete frame waits and
/// stays buffered, unless the buffer has grown beyond `limit`, which closes
/// the connection after an error reply; a malformed frame, or a frame that
/// is no command, closes the connection after an error reply.
pub open spec fn step_of(buf: Seq<u8>, limit: Option<usize>) -> (Action, Seq<u8>) {
    if buf.len() == 0 {
        (Action::NeedMore, buf)
    } else {
        match decode_at(buf, 0) {
            Decoded::Incomplete => match limit {
                Some(l) if buf.len() > l => (
                    Action::Close(encoding(Resp::Error(text_limit_exceeded()))),
                    buf,
                ),
                _ => (Action::NeedMore, buf),
            },
            Decoded::Invalid => (Action::Close(encoding(Resp::Error(text_parse_error()))), buf),
            Decoded::Done(v, p) => {
                let rest = buf.subrange(p, buf.len() as int);
                match interpret(v) {
                    Some(c) => (Action::Execute(c), rest),
                    None => (Action::Close(encoding(Resp::Error(text_invalid_command()))), rest),
                }
            },
        }
    }
}

/// Serving every complete frame of `buf` against store contents `m` at
/// time `now`: the replies written, the store after, the bytes left
/// buffered, and whether the connection is to be closed.
pub open spec fn run(
    buf: Seq<u8>,
    limit: Option<usize>,
    m: Map<Seq<u8>, (Seq<u8>, Option<u64>)>,
    now: u64,
) -> (
    Seq<u8>,
    Map<Seq<u8>, (Seq<u8>, Option<u64>)>,
    Seq<u8>,
    bool,
)
    decreases buf.len(),
{
    let (a, rest) = step_of(buf, limit);
    match a {
        Action::NeedMore => (Seq::empty(), m, rest, false),
        Action::Close(r) => (r, m, rest, true),
        Action::Execute(c) => if rest.len() < buf.len() {
            let t = run(rest, limit, effect_of(c, m, now), now);
            (reply_of(c, m, now) + t.0, t.1, t.2, t.3)
        } else {
            (Seq::empty(), m, rest, false)
        },
    }
}

/// What serving the buffered bytes produced.
#[derive(Debug, PartialEq, Eq)]
pub struct Served {
    /// The replies, in order, to write to the peer.
    pub reply: Vec<u8>,
    /// Whether the connection is to be closed after writing them.
    pub close: bool,
}

/// One connection: the bytes received and not yet consumed, and the
/// most that may be buffered while a frame is incomplete (`None`: no bound).
pub struct Session {
    buffer: Vec<u8>,
    limit: Option<usize>,
}

impl View for Session {
    type V = Seq<u8>;

    closed spec fn view(&self) -> Seq<u8> {
        self.buffer@
    }
}

impl Session {
    /// The bound on buffered bytes while a frame is incomplete.
    pub closed spec fn limit(&self) -> Option<usize> {
        self.limit
    }

    /// A session with nothing buffered and no bound on its buffer.
    pub fn new() -> (r: Session)
        ensures
            r@ == Seq::<u8>::empty(),
            r.limit() is None,
    {
        Session { buffer: Vec::new(), limit: None }
    }

    /// A session with nothing buffered that closes the connection once
    /// more than `max_buffer` bytes wait for an incomplete frame.
    pub fn with_limit(max_buffer: usize) -> (r: Session)
        ensures
            r@ == Seq::<u8>::empty(),
            r.limit() == Some(max_buffer),
    {
        Session { buffer: Vec::new(), limit: Some(max_buffer) }
    }

    /// The bytes buffered and not yet consumed.
    pub fn buffered(&self) -> (r: &[u8])
        ensures
            r@ == self@,
    {
        self.buffer.as_slice()
    }

    /// Appends bytes read from the peer.
    pub fn receive(&mut self, data: &[u8])
        ensures
            final(self)@ == old(self)@ + data@,
            final(self).limit() == old(self).limit(),
    {
        let ghost start = self.buffer@;
        let mut i: usize = 0;
        while i < data.len()
            invariant
                i <= data@.len(),
                self.buffer@ == start + data@.subrange(0, i as int),
                self.limit == old(self).limit,
            decreases data@.len() - i,
        {
            self.buffer.push(data[i]);
            i += 1;
            assert(self.buffer@ =~= start + data@.subrange(0, i as int));
        }
        assert(data@.subrange(0, i as int) =~= data@);
    }

    /// Decides what to do next with the buffered bytes, consuming the
    /// frame that was decoded, if any.
    pub fn next_step(&mut self) -> (r: Step)
        ensures
            (r@, final(self)@) == step_of(old(self)@, old(self).limit()),
            final(self).limit() == old(self).limit(),
    {
        if self.buffer.len() == 0 {
            return Step::NeedMore;
        }
        let decoded = parse(self.buffer.as_slice());
        match decoded {
            Ok((v, rest)) => {
                let mut left: Vec<u8> = Vec::new();
                let mut i: usize = 0;
                while i < rest.len()
                    invariant
                        i <= rest@.len(),
                        left@ == rest@.subrange(0, i as int),
                    decreases rest@.len() - i,
                {
                    left.push(rest[i]);
                    i += 1;
                    assert(left@ =~= rest@.subrange(0, i as int));
                }
                assert(left@ =~= rest@);
                self.buffer = left;
                match parse_command(v) {
                    Ok(c) => Step::Execute(c),
                    Err(_) => {
                        let t: Vec<u8> = vec![
                            69u8, 82, 82, 32, 105, 110, 118, 97, 108, 105, 100, 32, 99, 111, 109, 109, 97, 110, 100,
                        ];
                        assert(t@ =~= text_invalid_command());
                        Step::Close(encode(&RespValue::Error(t)))
                    },
                }
            },
            Err(crate::protocol::RespParseError::Incomplete) => match self.limit {
                Some(l) if self.buffer.len() > l => {
                    let t: Vec<u8> = vec![
                        69u8, 82, 82, 32, 98, 117, 102, 102, 101, 114, 32, 108, 105, 109, 105, 116, 32, 101, 120, 99, 101,
                        101, 100, 101, 100,
                    ];
                    assert(t@ =~= text_limit_exceeded());
                    Step::Close(encode(&RespValue::Error(t)))
                },
                _ => Step::NeedMore,
            },
            Err(crate::protocol::RespParseError::InvalidFormat) => {
                let t: Vec<u8> = vec![69u8, 82, 82, 32, 112, 97, 114, 115, 101, 32, 101, 114, 114, 111, 114];
                assert(t@ =~= text_parse_error());
                Step::Close(encode(&RespValue::Error(t)))
            },
        }
    }

    /// Serves every complete frame buffered so far against the store at
    /// time `now`, in order, until more bytes are needed or the connection
    /// is to be closed.
    pub fn serve(&mut self, store: &mut Store, now: u64) -> (r: Served)
        requires
            old(store).wf(),
        ensures
            final(store).wf(),
            (r.reply@, final(store)@, final(self)@, r.close) == run(
                old(self)@,
                old(self).limit(),
                old(store)@,
                now,
            ),
            final(self).limit() == old(self).limit(),
    {
        let mut out: Vec<u8> = Vec::new();
        loop
            invariant
                store.wf(),
                self.limit() == old(self).limit(),
                run(old(self)@, old(self).limit(), old(store)@, now) == (
                    out@ + run(self@, self.limit(), store@, now).0,
                    run(self@, self.limit(), store@, now).1,
                    run(self@, self.limit(), store@, now).2,
                    run(self@, self.limit(), store@, now).3,
                ),
            decreases self@.len(),
        {
            let ghost buf = self@;
            let ghost m = store@;
            proof {
                lemma_decode_bounds(buf, 0);
            }
            match self.next_step() {
                Step::NeedMore => {
                    assert(out@ + Seq::<u8>::empty() =~= out@);
                    return Served { reply: out, close: false };
                },
                Step::Close(reply) => {
                    bytes_of(&reply, &mut out);
                    return Served { reply: out, close: true };
                },
                Step::Execute(c) => {
                    let ghost before = out@;
                    let ghost cv = c@;
                    let reply = handle_command(c, store, now);
                    bytes_of(&reply, &mut out);
                    assert(out@ == before + reply_of(cv, m, now));
                    let ghost t = run(self@, self.limit(), store@, now);
                    assert(before + (reply_of(cv, m, now) + t.0) =~= out@ + t.0);
                },
            }
        }
    }
}

} // verus!
