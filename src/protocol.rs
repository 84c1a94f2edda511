//! The wire format: decoded values, the frame decoder, and the encoder.
//!
//! A frame starts with a tag byte (`+` status, `-` error, `:` integer,
//! `$` bulk string, `*` array), then a line that ends in CR LF. Bulk strings
//! carry a byte count and a payload followed by CR LF; arrays carry an
//! element count followed by that many frames. The decoder works on raw
//! bytes, so payloads are binary-safe.

use vstd::prelude::*;
use crate::decimal::{
    all_digits, i64_of, int_numeral, lemma_nat_digits, lemma_numeral_round_trip, parse_i64,
    push_digits, push_numeral,
};

verus! {

/// A decoded wire value.
#[derive(Debug, PartialEq)]
pub enum RespValue {
    /// A status line (`+...`).
    SimpleString(Vec<u8>),
    /// An error line (`-...`); its first word is conventionally an error kind.
    Error(Vec<u8>),
    /// A signed 64-bit integer (`:...`).
    Integer(i64),
    /// A bulk string (`$n` and a payload), or the null bulk string (`$-1`).
    BulkString(Option<Vec<u8>>),
    /// An array of values (`*n`); the null array (`*-1`) decodes as empty.
    Array(Vec<RespValue>),
}

/// Why a buffer did not decode.
#[derive(Debug, Clone, Copy, PartialEq, Eq)]
pub enum RespParseError {
    /// More bytes are needed; decode the same buffer again once they came.
    Incomplete,
    /// The bytes are not a frame.
    InvalidFormat,
}

/// The mathematical value of a `RespValue`.
pub enum Resp {
    Simple(Seq<u8>),
    Error(Seq<u8>),
    Integer(int),
    Bulk(Option<Seq<u8>>),
    Array(Seq<Resp>),
}

impl View for RespValue {
    type V = Resp;

    open spec fn view(&self) -> Resp
        decreases self,
    {
        match self {
            RespValue::SimpleString(t) => Resp::Simple(t@),
            RespValue::Error(t) => Resp::Error(t@),
            RespValue::Integer(i) => Resp::Integer(*i as int),
            RespValue::BulkString(None) => Resp::Bulk(None),
            RespValue::BulkString(Some(b)) => Resp::Bulk(Some(b@)),
            RespValue::Array(items) => Resp::Array(views(items@)),
        }
    }
}

/// The views of a sequence of values.
pub open spec fn views(items: Seq<RespValue>) -> Seq<Resp>
    decreases items,
{
    if items.len() == 0 {
        Seq::empty()
    } else {
        views(items.subrange(0, items.len() - 1)).push(items[items.len() - 1]@)
    }
}

/// The views of a sequence are its elements' views, one for one.
pub proof fn lemma_views(items: Seq<RespValue>)
    ensures
        views(items).len() == items.len(),
        forall|i: int| 0 <= i < items.len() ==> #[trigger] views(items)[i] == items[i]@,
    decreases items.len(),
{
    if items.len() > 0 {
        let sub = items.subrange(0, items.len() - 1);
        lemma_views(sub);
        assert(views(items) == views(sub).push(items[items.len() - 1]@));
        assert(views(items).len() == items.len());
        assert(forall|i: int| 0 <= i < sub.len() ==> sub[i] == items[i]);
    } else {
        assert(views(items) == Seq::<Resp>::empty());
    }
}

/// Viewing a sequence with one more element adds that element's view.
pub proof fn lemma_views_push(items: Seq<RespValue>, v: RespValue)
    ensures
        views(items.push(v)) == views(items).push(v@),
{
    assert(items.push(v).subrange(0, items.len() as int) =~= items);
}

/// The outcome of decoding one frame at a position of a byte sequence.
pub enum Decoded {
    /// A value, and the position just past its frame.
    Done(Resp, int),
    Incomplete,
    Invalid,
}

/// The first position `j >= from` where CR LF starts.
pub open spec fn find_crlf(s: Seq<u8>, from: int) -> Option<int>
    decreases s.len() - from,
{
    if from < 0 || from + 1 >= s.len() {
        None
    } else if s[from] == 13 && s[from + 1] == 10 {
        Some(from)
    } else {
        find_crlf(s, from + 1)
    }
}

/// The frame decoder: what one frame starting at `pos` of `s` decodes to.
pub open spec fn decode_at(s: Seq<u8>, pos: int) -> Decoded
    decreases s.len() - pos, 0int, 0int,
    via decode_at_decreases
{
    if pos < 0 || pos >= s.len() {
        Decoded::Invalid
    } else {
        let tag = s[pos];
        if tag != 43 && tag != 45 && tag != 58 && tag != 36 && tag != 42 {
            Decoded::Invalid
        } else {
            match find_crlf(s, pos + 1) {
                None => Decoded::Incomplete,
                Some(e) => {
                    let line = s.subrange(pos + 1, e);
                    let next = e + 2;
                    if tag == 43 {
                        Decoded::Done(Resp::Simple(line), next)
                    } else if tag == 45 {
                        Decoded::Done(Resp::Error(line), next)
                    } else {
                        match i64_of(line) {
                            None => Decoded::Invalid,
                            Some(n) => if tag == 58 {
                                Decoded::Done(Resp::Integer(n as int), next)
                            } else if n == -1 {
                                if tag == 36 {
                                    Decoded::Done(Resp::Bulk(None), next)
                                } else {
                                    Decoded::Done(Resp::Array(Seq::empty()), next)
                                }
                            } else if n < 0 {
                                Decoded::Invalid
                            } else if tag == 42 {
                                decode_items(s, next, n as nat)
                            } else if s.len() - next < n + 2 {
                                Decoded::Incomplete
                            } else if s[next + n] != 13 || s[next + n + 1] != 10 {
                                Decoded::Invalid
                            } else {
                                Decoded::Done(Resp::Bulk(Some(s.subrange(next, next + n))), next + n + 2)
                            },
                        }
                    }
                },
            }
        }
    }
}

#[via_fn]
proof fn decode_at_decreases(s: Seq<u8>, pos: int) {
    lemma_find_crlf(s, pos + 1);
}

/// Decodes `count` frames one after the other from `pos`; the result, when
/// done, is the array of them.
pub open spec fn decode_items(s: Seq<u8>, pos: int, count: nat) -> Decoded
    decreases s.len() - pos, 1int, count,
{
    if count == 0 {
        Decoded::Done(Resp::Array(Seq::empty()), pos)
    } else {
        match decode_items(s, pos, (count - 1) as nat) {
            Decoded::Done(Resp::Array(items), p) => if pos <= p <= s.len() {
                match decode_at(s, p) {
                    Decoded::Done(v, q) => Decoded::Done(Resp::Array(items.push(v)), q),
                    other => other,
                }
            } else {
                Decoded::Invalid
            },
            Decoded::Done(_, _) => Decoded::Invalid,
            other => other,
        }
    }
}

/// A decoded frame ends after its start and within the bytes.
pub proof fn lemma_decode_bounds(s: Seq<u8>, pos: int)
    ensures
        decode_at(s, pos) matches Decoded::Done(_, p) ==> pos < p <= s.len(),
    decreases s.len() - pos, 0int, 0int,
{
    if 0 <= pos < s.len() {
        match find_crlf(s, pos + 1) {
            Some(e) => {
                lemma_find_crlf(s, pos + 1);
                let line = s.subrange(pos + 1, e);
                match i64_of(line) {
                    Some(n) => if s[pos] == 42 && n >= 0 {
                        lemma_items_bounds(s, e + 2, n as nat);
                    },
                    None => {},
                }
            },
            None => {},
        }
    }
}

/// Decoded items end at or after their start and within the bytes, and
/// are as many as asked for.
pub proof fn lemma_items_bounds(s: Seq<u8>, pos: int, count: nat)
    requires
        0 <= pos <= s.len(),
    ensures
        decode_items(s, pos, count) matches Decoded::Done(r, p) ==> pos <= p <= s.len() && r is Array
            && r->Array_0.len() == count,
    decreases s.len() - pos, 1int, count,
{
    if count > 0 {
        lemma_items_bounds(s, pos, (count - 1) as nat);
        match decode_items(s, pos, (count - 1) as nat) {
            Decoded::Done(Resp::Array(items), p) => if pos <= p <= s.len() {
                lemma_decode_bounds(s, p);
            },
            _ => {},
        }
    }
}

/// A CR LF that is found is at or after where the search began.
pub proof fn lemma_find_crlf(s: Seq<u8>, from: int)
    ensures
        find_crlf(s, from) matches Some(e) ==> from <= e && e + 1 < s.len() && s[e] == 13 && s[e
            + 1] == 10,
    decreases s.len() - from,
{
    if !(from < 0 || from + 1 >= s.len()) && !(s[from] == 13 && s[from + 1] == 10) {
        lemma_find_crlf(s, from + 1);
    }
}

/// Once decoding the first `k` items fails, decoding more fails the same way.
pub proof fn lemma_items_fail(s: Seq<u8>, pos: int, k: nat, count: nat)
    requires
        k <= count,
        !(decode_items(s, pos, k) is Done),
    ensures
        decode_items(s, pos, count) == decode_items(s, pos, k),
    decreases count,
{
    if count > k {
        lemma_items_fail(s, pos, k, (count - 1) as nat);
    }
}


/// Whether an executable decoding result agrees with the decoder.
pub open spec fn agrees(r: Result<(RespValue, usize), RespParseError>, d: Decoded) -> bool {
    match d {
        Decoded::Done(v, p) => r matches Ok((x, q)) && x@ == v && q == p,
        Decoded::Incomplete => r matches Err(RespParseError::Incomplete),
        Decoded::Invalid => r matches Err(RespParseError::InvalidFormat),
    }
}

/// Where the first CR LF at or after `from` starts.
fn locate_crlf(buf: &[u8], from: usize) -> (r: Option<usize>)
    requires
        from <= buf@.len(),
    ensures
        buf@.len() <= usize::MAX,
        match r {
            Some(e) => find_crlf(buf@, from as int) == Some(e as int),
            None => find_crlf(buf@, from as int) is None,
        },
{
    let mut i: usize = from;
    while i < buf.len() && buf.len() - i >= 2
        invariant
            from <= i <= buf@.len(),
            find_crlf(buf@, from as int) == find_crlf(buf@, i as int),
        decreases buf@.len() - i,
    {
        if buf[i] == 13 && buf[i + 1] == 10 {
            return Some(i);
        }
        i += 1;
    }
    None
}

/// A copy of `buf[start..end]`.
fn copy_range(buf: &[u8], start: usize, end: usize) -> (r: Vec<u8>)
    requires
        start <= end <= buf@.len(),
    ensures
        r@ == buf@.subrange(start as int, end as int),
{
    let mut out: Vec<u8> = Vec::new();
    let mut i: usize = start;
    while i < end
        invariant
            start <= i <= end <= buf@.len(),
            out@ == buf@.subrange(start as int, i as int),
        decreases end - i,
    {
        out.push(buf[i]);
        i += 1;
        assert(out@ =~= buf@.subrange(start as int, i as int));
    }
    out
}

/// Decodes one frame that starts at `pos`; on success, also gives the
/// position just past it.
fn decode_from(buf: &[u8], pos: usize) -> (r: Result<(RespValue, usize), RespParseError>)
    requires
        pos <= buf@.len(),
    ensures
        agrees(r, decode_at(buf@, pos as int)),
    decreases buf@.len() - pos, 0int,
{
    if pos >= buf.len() {
        return Err(RespParseError::InvalidFormat);
    }
    let tag = buf[pos];
    if tag == 43 {
        parse_simple_string(buf, pos + 1)
    } else if tag == 45 {
        parse_error(buf, pos + 1)
    } else if tag == 58 {
        parse_integer(buf, pos + 1)
    } else if tag == 36 {
        parse_bulk_string(buf, pos + 1)
    } else if tag == 42 {
        parse_array(buf, pos + 1)
    } else {
        Err(RespParseError::InvalidFormat)
    }
}

/// The status line after a `+` tag at `start - 1`.
fn parse_simple_string(buf: &[u8], start: usize) -> (r: Result<(RespValue, usize), RespParseError>)
    requires
        1 <= start <= buf@.len(),
        buf@[start - 1] == 43,
    ensures
        agrees(r, decode_at(buf@, start - 1)),
{
    match locate_crlf(buf, start) {
        None => Err(RespParseError::Incomplete),
        Some(e) => {
            proof {
                lemma_find_crlf(buf@, start as int);
            }
            Ok((RespValue::SimpleString(copy_range(buf, start, e)), e + 2))
        },
    }
}

/// The error line after a `-` tag at `start - 1`.
fn parse_error(buf: &[u8], start: usize) -> (r: Result<(RespValue, usize), RespParseError>)
    requires
        1 <= start <= buf@.len(),
        buf@[start - 1] == 45,
    ensures
        agrees(r, decode_at(buf@, start - 1)),
{
    match locate_crlf(buf, start) {
        None => Err(RespParseError::Incomplete),
        Some(e) => {
            proof {
                lemma_find_crlf(buf@, start as int);
            }
            Ok((RespValue::Error(copy_range(buf, start, e)), e + 2))
        },
    }
}

/// The integer after a `:` tag at `start - 1`.
fn parse_integer(buf: &[u8], start: usize) -> (r: Result<(RespValue, usize), RespParseError>)
    requires
        1 <= start <= buf@.len(),
        buf@[start - 1] == 58,
    ensures
        agrees(r, decode_at(buf@, start - 1)),
{
    match locate_crlf(buf, start) {
        None => Err(RespParseError::Incomplete),
        Some(e) => {
            proof {
                lemma_find_crlf(buf@, start as int);
            }
            match parse_i64(buf, start, e) {
                None => Err(RespParseError::InvalidFormat),
                Some(n) => Ok((RespValue::Integer(n), e + 2)),
            }
        },
    }
}

/// The bulk string after a `$` tag at `start - 1`: a byte count, then that
/// many bytes and CR LF; or the null bulk string for a count of -1.
fn parse_bulk_string(buf: &[u8], start: usize) -> (r: Result<(RespValue, usize), RespParseError>)
    requires
        1 <= start <= buf@.len(),
        buf@[start - 1] == 36,
    ensures
        agrees(r, decode_at(buf@, start - 1)),
{
    let e = match locate_crlf(buf, start) {
        None => return Err(RespParseError::Incomplete),
        Some(e) => e,
    };
    proof {
        lemma_find_crlf(buf@, start as int);
    }
    let next = e + 2;
    let n = match parse_i64(buf, start, e) {
        None => return Err(RespParseError::InvalidFormat),
        Some(n) => n,
    };
    if n == -1 {
        Ok((RespValue::BulkString(None), next))
    } else if n < 0 {
        Err(RespParseError::InvalidFormat)
    } else if ((buf.len() - next) as u64) < (n as u64) + 2 {
        Err(RespParseError::Incomplete)
    } else {
        let len = n as usize;
        if buf[next + len] != 13 || buf[next + len + 1] != 10 {
            Err(RespParseError::InvalidFormat)
        } else {
            Ok((RespValue::BulkString(Some(copy_range(buf, next, next + len))), next + len + 2))
        }
    }
}

/// The array after a `*` tag at `start - 1`: an element count, then that
/// many frames; a count of -1 gives an empty array.
fn parse_array(buf: &[u8], start: usize) -> (r: Result<(RespValue, usize), RespParseError>)
    requires
        1 <= start <= buf@.len(),
        buf@[start - 1] == 42,
    ensures
        agrees(r, decode_at(buf@, start - 1)),
    decreases buf@.len() - start, 2int,
{
    let e = match locate_crlf(buf, start) {
        None => return Err(RespParseError::Incomplete),
        Some(e) => e,
    };
    proof {
        lemma_find_crlf(buf@, start as int);
    }
    let next = e + 2;
    let n = match parse_i64(buf, start, e) {
        None => return Err(RespParseError::InvalidFormat),
        Some(n) => n,
    };
    if n == -1 {
        let empty: Vec<RespValue> = Vec::new();
        Ok((RespValue::Array(empty), next))
    } else if n < 0 {
        Err(RespParseError::InvalidFormat)
    } else {
        decode_array(buf, next, n as u64)
    }
}

/// Decodes `count` frames one after the other from `pos`, as an array.
fn decode_array(buf: &[u8], pos: usize, count: u64) -> (r: Result<(RespValue, usize), RespParseError>)
    requires
        pos <= buf@.len(),
    ensures
        agrees(r, decode_items(buf@, pos as int, count as nat)),
    decreases buf@.len() - pos, 1int,
{
    let mut items: Vec<RespValue> = Vec::new();
    let mut p: usize = pos;
    let mut k: u64 = 0;
    while k < count
        invariant
            pos <= p <= buf@.len(),
            k <= count,
            decode_items(buf@, pos as int, k as nat) == Decoded::Done(Resp::Array(views(items@)), p as int),
        decreases count - k,
    {
        proof {
            lemma_decode_bounds(buf@, p as int);
        }
        match decode_from(buf, p) {
            Ok((v, q)) => {
                let ghost before = items@;
                items.push(v);
                proof {
                    lemma_views_push(before, v);
                }
                p = q;
            },
            Err(e) => {
                proof {
                    lemma_items_fail(buf@, pos as int, (k + 1) as nat, count as nat);
                }
                return Err(e);
            },
        }
        k += 1;
    }
    Ok((RespValue::Array(items), p))
}

/// Decodes the frame at the start of `input`, giving the value and the
/// bytes after it.
pub fn parse(input: &[u8]) -> (r: Result<(RespValue, &[u8]), RespParseError>)
    ensures
        match decode_at(input@, 0) {
            Decoded::Done(v, p) => r matches Ok((x, rest)) && x@ == v && rest@ == input@.subrange(
                p,
                input@.len() as int,
            ),
            Decoded::Incomplete => r matches Err(RespParseError::Incomplete),
            Decoded::Invalid => r matches Err(RespParseError::InvalidFormat),
        },
{
    proof {
        lemma_decode_bounds(input@, 0);
    }
    match decode_from(input, 0) {
        Ok((v, p)) => {
            let (_, rest) = input.split_at(p);
            Ok((v, rest))
        },
        Err(e) => Err(e),
    }
}

pub open spec fn crlf() -> Seq<u8> {
    seq![13u8, 10u8]
}

/// A frame: a tag byte, a line, CR LF, then what follows the line.
pub open spec fn frame(tag: u8, line: Seq<u8>, body: Seq<u8>) -> Seq<u8> {
    seq![tag] + line + crlf() + body
}

/// The encoding of a value.
pub open spec fn encoding(v: Resp) -> Seq<u8>
    decreases v,
{
    match v {
        Resp::Simple(t) => frame(43, t, Seq::empty()),
        Resp::Error(t) => frame(45, t, Seq::empty()),
        Resp::Integer(i) => frame(58, int_numeral(i), Seq::empty()),
        Resp::Bulk(None) => frame(36, int_numeral(-1), Seq::empty()),
        Resp::Bulk(Some(b)) => frame(36, int_numeral(b.len() as int), b + crlf()),
        Resp::Array(items) => frame(42, int_numeral(items.len() as int), encoding_items(items)),
    }
}

/// The encodings of values, one after the other.
pub open spec fn encoding_items(items: Seq<Resp>) -> Seq<u8>
    decreases items,
{
    if items.len() == 0 {
        Seq::empty()
    } else {
        encoding_items(items.subrange(0, items.len() - 1)) + encoding(items[items.len() - 1])
    }
}

/// No CR LF pair stands in `t`.
pub open spec fn no_crlf(t: Seq<u8>) -> bool {
    forall|i: int| 0 <= i < t.len() - 1 ==> !(#[trigger] t[i] == 13 && t[i + 1] == 10)
}

/// A value that the wire format can carry: status and error lines hold no
/// CR LF, and integers, lengths and counts fit in 64 signed bits.
pub open spec fn encodable(v: Resp) -> bool
    decreases v,
{
    match v {
        Resp::Simple(t) => no_crlf(t),
        Resp::Error(t) => no_crlf(t),
        Resp::Integer(i) => i64::MIN <= i <= i64::MAX,
        Resp::Bulk(None) => true,
        Resp::Bulk(Some(b)) => b.len() <= i64::MAX,
        Resp::Array(items) => items.len() <= i64::MAX && all_encodable(items),
    }
}

pub open spec fn all_encodable(items: Seq<Resp>) -> bool
    decreases items,
{
    if items.len() == 0 {
        true
    } else {
        all_encodable(items.subrange(0, items.len() - 1)) && encodable(items[items.len() - 1])
    }
}

proof fn lemma_numeral_no_crlf(i: int)
    ensures
        no_crlf(int_numeral(i)),
        int_numeral(i).len() >= 1,
{
    lemma_nat_digits((if i < 0 { -i } else { i }) as nat);
    let t = int_numeral(i);
    assert forall|k: int| 0 <= k < t.len() - 1 implies !(#[trigger] t[k] == 13 && t[k + 1] == 10) by {
        if i < 0 {
            if k > 0 {
                assert(t[k] == crate::decimal::nat_digits((-i) as nat)[k - 1]);
            }
        }
    }
}

proof fn lemma_find_crlf_at(s: Seq<u8>, from: int, e: int)
    requires
        0 <= from <= e,
        e + 1 < s.len(),
        s[e] == 13,
        s[e + 1] == 10,
        forall|i: int| from <= i < e ==> !(#[trigger] s[i] == 13 && s[i + 1] == 10),
    ensures
        find_crlf(s, from) == Some(e),
    decreases e - from,
{
    if from < e {
        lemma_find_crlf_at(s, from + 1, e);
    }
}

/// Where the frame `frame(tag, line, body)` stands at `pos` of `s`, its
/// tag, line and body are found where the decoder looks for them.
proof fn lemma_frame_at(s: Seq<u8>, pos: int, tag: u8, line: Seq<u8>, body: Seq<u8>)
    requires
        0 <= pos,
        pos + frame(tag, line, body).len() <= s.len(),
        s.subrange(pos, pos + frame(tag, line, body).len()) == frame(tag, line, body),
        no_crlf(line),
    ensures
        s[pos] == tag,
        find_crlf(s, pos + 1) == Some(pos + 1 + line.len()),
        s.subrange(pos + 1, pos + 1 + line.len()) == line,
        s.subrange(pos + 3 + line.len(), pos + frame(tag, line, body).len()) == body,
{
    let f = frame(tag, line, body);
    let n = line.len() as int;
    assert forall|k: int| 0 <= k < f.len() implies s[pos + k] == #[trigger] f[k] by {
        assert(s.subrange(pos, pos + f.len())[k] == s[pos + k]);
    }
    assert(f[0] == tag);
    assert forall|k: int| 0 <= k < n implies #[trigger] f[1 + k] == line[k] by {}
    assert(f[1 + n] == 13);
    assert(f[2 + n] == 10);
    assert forall|k: int| 0 <= k < body.len() implies #[trigger] f[3 + n + k] == body[k] by {}
    assert forall|i: int| pos + 1 <= i < pos + 1 + n implies !(#[trigger] s[i] == 13 && s[i + 1] == 10) by {
        assert(s[i] == f[1 + (i - pos - 1)]);
        assert(s[i + 1] == f[i + 1 - pos]);
        if i + 1 < pos + 1 + n {
            assert(f[1 + (i - pos)] == line[i - pos]);
            assert(line[i - pos - 1] == s[i]);
        }
    }
    assert(s[pos + 1 + n] == f[1 + n]);
    assert(s[pos + 2 + n] == f[2 + n]);
    lemma_find_crlf_at(s, pos + 1, pos + 1 + n);
    assert(s.subrange(pos + 1, pos + 1 + n) =~= line) by {
        assert forall|k: int| 0 <= k < n implies s.subrange(pos + 1, pos + 1 + n)[k] == line[k] by {
            assert(s[pos + 1 + k] == f[1 + k]);
        }
    }
    assert(s.subrange(pos + 3 + n, pos + f.len()) =~= body) by {
        assert forall|k: int| 0 <= k < body.len() implies s.subrange(pos + 3 + n, pos + f.len())[k]
            == body[k] by {
            assert(s[pos + 3 + n + k] == f[3 + n + k]);
        }
    }
}

/// Decoding where an encodable value's encoding stands gives that value and
/// the position just past its encoding.
pub proof fn lemma_decode_encoding(v: Resp, s: Seq<u8>, pos: int)
    requires
        encodable(v),
        0 <= pos,
        pos + encoding(v).len() <= s.len(),
        s.subrange(pos, pos + encoding(v).len()) == encoding(v),
    ensures
        decode_at(s, pos) == Decoded::Done(v, pos + encoding(v).len()),
    decreases v,
{
    match v {
        Resp::Simple(t) => {
            lemma_frame_at(s, pos, 43, t, Seq::empty());
        },
        Resp::Error(t) => {
            lemma_frame_at(s, pos, 45, t, Seq::empty());
        },
        Resp::Integer(i) => {
            lemma_numeral_no_crlf(i);
            lemma_numeral_round_trip(i);
            lemma_frame_at(s, pos, 58, int_numeral(i), Seq::empty());
        },
        Resp::Bulk(None) => {
            lemma_numeral_no_crlf(-1);
            lemma_numeral_round_trip(-1);
            lemma_frame_at(s, pos, 36, int_numeral(-1), Seq::empty());
        },
        Resp::Bulk(Some(b)) => {
            let line = int_numeral(b.len() as int);
            lemma_numeral_no_crlf(b.len() as int);
            lemma_numeral_round_trip(b.len() as int);
            lemma_frame_at(s, pos, 36, line, b + crlf());
            let next = pos + 3 + line.len();
            let body = s.subrange(next, pos + encoding(v).len());
            assert(body == b + crlf());
            assert(s[next + b.len()] == body[b.len() as int]);
            assert(s[next + b.len() + 1] == body[b.len() + 1int]);
            assert(s.subrange(next, next + b.len()) =~= b) by {
                assert forall|k: int| 0 <= k < b.len() implies s.subrange(next, next + b.len())[k]
                    == b[k] by {
                    assert(s[next + k] == body[k]);
                }
            }
        },
        Resp::Array(items) => {
            let line = int_numeral(items.len() as int);
            lemma_numeral_no_crlf(items.len() as int);
            lemma_numeral_round_trip(items.len() as int);
            lemma_frame_at(s, pos, 42, line, encoding_items(items));
            let next = pos + 3 + line.len();
            lemma_decode_encoding_items(items, s, next);
        },
    }
}

pub proof fn lemma_decode_encoding_items(items: Seq<Resp>, s: Seq<u8>, pos: int)
    requires
        all_encodable(items),
        0 <= pos,
        pos + encoding_items(items).len() <= s.len(),
        s.subrange(pos, pos + encoding_items(items).len()) == encoding_items(items),
    ensures
        decode_items(s, pos, items.len()) == Decoded::Done(
            Resp::Array(items),
            pos + encoding_items(items).len(),
        ),
    decreases items,
{
    if items.len() == 0 {
        assert(items =~= Seq::<Resp>::empty());
    } else {
        let pre = items.subrange(0, items.len() - 1);
        let last = items[items.len() - 1];
        let e1 = encoding_items(pre);
        let e2 = encoding(last);
        let all = encoding_items(items);
        assert(all == e1 + e2);
        assert(s.subrange(pos, pos + e1.len()) =~= e1) by {
            assert forall|k: int| 0 <= k < e1.len() implies s.subrange(pos, pos + e1.len())[k]
                == e1[k] by {
                assert(s.subrange(pos, pos + all.len())[k] == all[k]);
            }
        }
        let p = pos + e1.len();
        assert(s.subrange(p, p + e2.len()) =~= e2) by {
            assert forall|k: int| 0 <= k < e2.len() implies s.subrange(p, p + e2.len())[k]
                == e2[k] by {
                assert(s.subrange(pos, pos + all.len())[e1.len() + k] == all[e1.len() + k]);
            }
        }
        lemma_decode_encoding_items(pre, s, pos);
        lemma_decode_encoding(last, s, p);
        assert(pre.push(last) =~= items);
    }
}

/// Encoding a value and decoding the bytes gives the value back, with
/// whatever followed the encoding left over.
pub proof fn law_round_trip(v: Resp, rest: Seq<u8>)
    requires
        encodable(v),
    ensures
        decode_at(encoding(v) + rest, 0) == Decoded::Done(v, encoding(v).len() as int),
        (encoding(v) + rest).subrange(encoding(v).len() as int, (encoding(v) + rest).len() as int)
            == rest,
{
    let s = encoding(v) + rest;
    assert(s.subrange(0, encoding(v).len() as int) =~= encoding(v));
    lemma_decode_encoding(v, s, 0);
    assert(s.subrange(encoding(v).len() as int, s.len() as int) =~= rest);
}

/// Appends `src` to `out`.
fn push_all(out: &mut Vec<u8>, src: &[u8])
    ensures
        final(out)@ == old(out)@ + src@,
{
    let ghost start = out@;
    let mut i: usize = 0;
    while i < src.len()
        invariant
            i <= src@.len(),
            out@ == start + src@.subrange(0, i as int),
        decreases src@.len() - i,
    {
        out.push(src[i]);
        i += 1;
        assert(out@ =~= start + src@.subrange(0, i as int));
    }
    assert(src@.subrange(0, i as int) =~= src@);
}

fn push_crlf(out: &mut Vec<u8>)
    ensures
        final(out)@ == old(out)@ + crlf(),
{
    out.push(13);
    out.push(10);
    assert(final(out)@ =~= old(out)@ + crlf());
}

proof fn lemma_encoding_items_push(items: Seq<Resp>, v: Resp)
    ensures
        encoding_items(items.push(v)) == encoding_items(items) + encoding(v),
{
    assert(items.push(v).subrange(0, items.len() as int) =~= items);
}

/// Appends the encoding of `v`.
fn write_value(v: &RespValue, out: &mut Vec<u8>)
    ensures
        final(out)@ == old(out)@ + encoding(v@),
    decreases v,
{
    let ghost start = out@;
    match v {
        RespValue::SimpleString(t) => {
            out.push(43);
            push_all(out, t.as_slice());
            push_crlf(out);
        },
        RespValue::Error(t) => {
            out.push(45);
            push_all(out, t.as_slice());
            push_crlf(out);
        },
        RespValue::Integer(i) => {
            out.push(58);
            push_numeral(out, *i);
            push_crlf(out);
        },
        RespValue::BulkString(None) => {
            out.push(36);
            push_numeral(out, -1);
            push_crlf(out);
        },
        RespValue::BulkString(Some(b)) => {
            out.push(36);
            push_digits(out, b.len() as u64);
            push_crlf(out);
            push_all(out, b.as_slice());
            push_crlf(out);
        },
        RespValue::Array(items) => {
            out.push(42);
            push_digits(out, items.len() as u64);
            push_crlf(out);
            let ghost head = out@;
            let mut i: usize = 0;
            assert(views(items@.subrange(0, 0)) =~= Seq::<Resp>::empty());
            while i < items.len()
                invariant
                    *v is Array,
                    (*v)->Array_0 == *items,
                    i <= items@.len(),
                    out@ == head + encoding_items(views(items@.subrange(0, i as int))),
                decreases items@.len() - i,
            {
                let item = &items[i];
                assert(decreases_to!(*v => *item)) by {
                    assert(*v is Array);
                    assert(decreases_to!(*v => (*v)->Array_0));
                    assert((*v)->Array_0 == *items);
                    assert(decreases_to!(*items => items@));
                    assert(decreases_to!(items@ => items@[i as int]));
                }
                write_value(item, out);
                proof {
                    assert(items@.subrange(0, i + 1) =~= items@.subrange(0, i as int).push(items@[i as int]));
                    lemma_views_push(items@.subrange(0, i as int), items@[i as int]);
                    lemma_encoding_items_push(views(items@.subrange(0, i as int)), items@[i as int]@);
                }
                i += 1;
            }
            assert(items@.subrange(0, i as int) =~= items@);
            proof {
                lemma_views(items@);
            }
        },
    }
    assert(final(out)@ =~= start + encoding(v@));
}

/// The encoding of a value.
pub fn encode(value: &RespValue) -> (r: Vec<u8>)
    ensures
        r@ == encoding(value@),
{
    let mut out: Vec<u8> = Vec::new();
    write_value(value, &mut out);
    assert(out@ =~= encoding(value@));
    out
}

} // verus!
