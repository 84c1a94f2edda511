//! The command interpreter: from a decoded array of bulk strings to a
//! typed command.

use vstd::prelude::*;
use crate::decimal::{parse_u64, u64_of};
use crate::protocol::{lemma_views, Resp, RespParseError, RespValue};

verus! {

/// A typed command.
#[derive(Debug, PartialEq, Eq)]
pub enum Command {
    /// `PING [message]`.
    Ping(Option<Vec<u8>>),
    /// `ECHO message`.
    Echo(Vec<u8>),
    /// `GET key`.
    Get(Vec<u8>),
    /// `SET key value [PX milliseconds]`.
    SetKey { key: Vec<u8>, value: Vec<u8>, px: Option<u64> },
    /// Any other command name, as it was sent.
    Unknown(Vec<u8>),
}

/// The mathematical value of a `Command`.
pub enum Cmd {
    Ping(Option<Seq<u8>>),
    Echo(Seq<u8>),
    Get(Seq<u8>),
    SetKey(Seq<u8>, Seq<u8>, Option<u64>),
    Unknown(Seq<u8>),
}

pub open spec fn opt_view(o: Option<Vec<u8>>) -> Option<Seq<u8>> {
    match o {
        Some(v) => Some(v@),
        None => None,
    }
}

impl View for Command {
    type V = Cmd;

    open spec fn view(&self) -> Cmd {
        match self {
            Command::Ping(m) => Cmd::Ping(opt_view(*m)),
            Command::Echo(m) => Cmd::Echo(m@),
            Command::Get(k) => Cmd::Get(k@),
            Command::SetKey { key, value, px } => Cmd::SetKey(key@, value@, *px),
            Command::Unknown(n) => Cmd::Unknown(n@),
        }
    }
}

/// ASCII upper case of one byte.
pub open spec fn ascii_upper(b: u8) -> u8 {
    if 97 <= b <= 122 {
        (b - 32) as u8
    } else {
        b
    }
}

/// Whether `name` equals the upper-case `word`, ignoring ASCII case.
pub open spec fn same_word(name: Seq<u8>, word: Seq<u8>) -> bool {
    name.len() == word.len() && forall|i: int| 0 <= i < name.len() ==> ascii_upper(#[trigger] name[i]) == word[i]
}

pub open spec fn word_ping() -> Seq<u8> {
    seq![80u8, 73, 78, 71]
}

pub open spec fn word_echo() -> Seq<u8> {
    seq![69u8, 67, 72, 79]
}

pub open spec fn word_get() -> Seq<u8> {
    seq![71u8, 69, 84]
}

pub open spec fn word_set() -> Seq<u8> {
    seq![83u8, 69, 84]
}

pub open spec fn word_px() -> Seq<u8> {
    seq![80u8, 88]
}

/// The payload of element `i`, where it is a present bulk string.
pub open spec fn bulk_at(items: Seq<Resp>, i: int) -> Option<Seq<u8>> {
    if 0 <= i < items.len() {
        match items[i] {
            Resp::Bulk(Some(b)) => Some(b),
            _ => None,
        }
    } else {
        None
    }
}

/// The expiry of a `SET`: elements four and five, where they are `PX` and
/// a non-negative integer; otherwise none.
pub open spec fn px_option(items: Seq<Resp>) -> Option<u64> {
    if items.len() >= 5 {
        match (bulk_at(items, 3), bulk_at(items, 4)) {
            (Some(o), Some(ms)) => if same_word(o, word_px()) {
                u64_of(ms)
            } else {
                None
            },
            _ => None,
        }
    } else {
        None
    }
}

/// The command that a decoded value stands for; `None` where the value is
/// not a well-formed command.
pub open spec fn interpret(v: Resp) -> Option<Cmd> {
    match v {
        Resp::Array(items) => match bulk_at(items, 0) {
            None => None,
            Some(name) => if same_word(name, word_ping()) {
                Some(Cmd::Ping(bulk_at(items, 1)))
            } else if same_word(name, word_echo()) {
                match bulk_at(items, 1) {
                    Some(m) => Some(Cmd::Echo(m)),
                    None => None,
                }
            } else if same_word(name, word_get()) {
                match bulk_at(items, 1) {
                    Some(k) => Some(Cmd::Get(k)),
                    None => None,
                }
            } else if same_word(name, word_set()) {
                match (bulk_at(items, 1), bulk_at(items, 2)) {
                    (Some(k), Some(val)) => Some(Cmd::SetKey(k, val, px_option(items))),
                    _ => None,
                }
            } else {
                Some(Cmd::Unknown(name))
            },
        },
        _ => None,
    }
}

fn equals_word(name: &Vec<u8>, word: &Vec<u8>) -> (r: bool)
    ensures
        r == same_word(name@, word@),
{
    if name.len() != word.len() {
        return false;
    }
    let mut i: usize = 0;
    while i < name.len()
        invariant
            i <= name@.len(),
            name@.len() == word@.len(),
            forall|j: int| 0 <= j < i ==> ascii_upper(#[trigger] name@[j]) == word@[j],
        decreases name@.len() - i,
    {
        let b = name[i];
        let u = if 97 <= b && b <= 122 {
            b - 32
        } else {
            b
        };
        if u != word[i] {
            return false;
        }
        i += 1;
    }
    true
}

/// The payload of element `i`, where it is a present bulk string.
fn bulk_item(items: &Vec<RespValue>, i: usize) -> (r: Option<&Vec<u8>>)
    ensures
        match bulk_at(crate::protocol::views(items@), i as int) {
            Some(b) => r matches Some(x) && x@ == b,
            None => r is None,
        },
{
    proof {
        lemma_views(items@);
    }
    if i < items.len() {
        match &items[i] {
            RespValue::BulkString(Some(b)) => Some(b),
            _ => None,
        }
    } else {
        None
    }
}

fn copy_bytes(b: &Vec<u8>) -> (r: Vec<u8>)
    ensures
        r@ == b@,
{
    let mut out: Vec<u8> = Vec::new();
    let mut i: usize = 0;
    while i < b.len()
        invariant
            i <= b@.len(),
            out@ == b@.subrange(0, i as int),
        decreases b@.len() - i,
    {
        out.push(b[i]);
        i += 1;
        assert(out@ =~= b@.subrange(0, i as int));
    }
    assert(out@ =~= b@);
    out
}

/// Maps a decoded value to a command: an array whose first element is a
/// present bulk string naming the command (in any ASCII case).
pub fn parse_command(value: RespValue) -> (r: Result<Command, RespParseError>)
    ensures
        match interpret(value@) {
            Some(c) => r matches Ok(x) && x@ == c,
            None => r matches Err(RespParseError::InvalidFormat),
        },
{
    let items = match &value {
        RespValue::Array(items) => items,
        _ => return Err(RespParseError::InvalidFormat),
    };
    assert(value@ == Resp::Array(crate::protocol::views(items@)));
    proof {
        lemma_views(items@);
    }
    let name = match bulk_item(items, 0) {
        Some(n) => n,
        None => return Err(RespParseError::InvalidFormat),
    };
    let w_ping: Vec<u8> = vec![80u8, 73, 78, 71];
    let w_echo: Vec<u8> = vec![69u8, 67, 72, 79];
    let w_get: Vec<u8> = vec![71u8, 69, 84];
    let w_set: Vec<u8> = vec![83u8, 69, 84];
    let w_px: Vec<u8> = vec![80u8, 88];
    assert(w_ping@ =~= word_ping());
    assert(w_echo@ =~= word_echo());
    assert(w_get@ =~= word_get());
    assert(w_set@ =~= word_set());
    assert(w_px@ =~= word_px());
    if equals_word(name, &w_ping) {
        let msg = match bulk_item(items, 1) {
            Some(m) => Some(copy_bytes(m)),
            None => None,
        };
        Ok(Command::Ping(msg))
    } else if equals_word(name, &w_echo) {
        match bulk_item(items, 1) {
            Some(m) => Ok(Command::Echo(copy_bytes(m))),
            None => Err(RespParseError::InvalidFormat),
        }
    } else if equals_word(name, &w_get) {
        match bulk_item(items, 1) {
            Some(k) => Ok(Command::Get(copy_bytes(k))),
            None => Err(RespParseError::InvalidFormat),
        }
    } else if equals_word(name, &w_set) {
        let key = match bulk_item(items, 1) {
            Some(k) => copy_bytes(k),
            None => return Err(RespParseError::InvalidFormat),
        };
        let val = match bulk_item(items, 2) {
            Some(v) => copy_bytes(v),
            None => return Err(RespParseError::InvalidFormat),
        };
        let mut px: Option<u64> = None;
        if items.len() >= 5 {
            match (bulk_item(items, 3), bulk_item(items, 4)) {
                (Some(opt), Some(ms)) => {
                    if equals_word(opt, &w_px) {
                        px = parse_u64(ms.as_slice(), 0, ms.len());
                        assert(ms@.subrange(0, ms@.len() as int) =~= ms@);
                    }
                },
                _ => {},
            }
        }
        Ok(Command::SetKey { key, value: val, px })
    } else {
        Ok(Command::Unknown(copy_bytes(name)))
    }
}

} // verus!
