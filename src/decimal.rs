//! Decimal numerals as they appear on the wire: reading them with the
//! rules of Rust's integer `from_str`, and writing them.

use vstd::prelude::*;

verus! {

/// An ASCII digit `0`..`9`.
pub open spec fn is_digit(b: u8) -> bool {
    48 <= b <= 57
}

pub open spec fn all_digits(s: Seq<u8>) -> bool {
    forall|i: int| 0 <= i < s.len() ==> is_digit(#[trigger] s[i])
}

/// The value of a run of digits, most significant first.
pub open spec fn digits_value(s: Seq<u8>) -> nat
    decreases s.len(),
{
    if s.len() == 0 {
        0
    } else {
        digits_value(s.drop_last()) * 10 + (s.last() - 48) as nat
    }
}

/// The value of an unsigned run of digits, where there is at least one digit.
pub open spec fn unsigned_value(s: Seq<u8>) -> Option<int> {
    if s.len() > 0 && all_digits(s) {
        Some(digits_value(s) as int)
    } else {
        None
    }
}

/// The value of a numeral: an optional sign (`+`, or `-` where `signed`),
/// then one or more ASCII digits.
pub open spec fn numeral_value(s: Seq<u8>, signed: bool) -> Option<int> {
    if s.len() > 0 && s[0] == 43 {
        unsigned_value(s.subrange(1, s.len() as int))
    } else if s.len() > 0 && s[0] == 45 && signed {
        match unsigned_value(s.subrange(1, s.len() as int)) {
            Some(v) => Some(-v),
            None => None,
        }
    } else {
        unsigned_value(s)
    }
}

/// What `i64::from_str` gives for the text `s`.
pub open spec fn i64_of(s: Seq<u8>) -> Option<i64> {
    match numeral_value(s, true) {
        Some(v) => if i64::MIN <= v <= i64::MAX {
            Some(v as i64)
        } else {
            None
        },
        None => None,
    }
}

/// What `u64::from_str` gives for the text `s`.
pub open spec fn u64_of(s: Seq<u8>) -> Option<u64> {
    match numeral_value(s, false) {
        Some(v) => if 0 <= v <= u64::MAX {
            Some(v as u64)
        } else {
            None
        },
        None => None,
    }
}

/// The shortest decimal digits of `n`.
pub open spec fn nat_digits(n: nat) -> Seq<u8>
    decreases n,
{
    if n < 10 {
        seq![(n + 48) as u8]
    } else {
        nat_digits(n / 10).push((n % 10 + 48) as u8)
    }
}

/// The decimal numeral of `i`, with a `-` before a negative value.
pub open spec fn int_numeral(i: int) -> Seq<u8> {
    if i < 0 {
        seq![45u8] + nat_digits((-i) as nat)
    } else {
        nat_digits(i as nat)
    }
}

/// Written digits are at least one ASCII digit, and read back as `n`.
pub proof fn lemma_nat_digits(n: nat)
    ensures
        nat_digits(n).len() >= 1,
        all_digits(nat_digits(n)),
        digits_value(nat_digits(n)) == n,
    decreases n,
{
    let s = nat_digits(n);
    if n < 10 {
        assert(s.drop_last() =~= Seq::<u8>::empty());
        assert(digits_value(Seq::<u8>::empty()) == 0);
    } else {
        lemma_nat_digits(n / 10);
        assert(s.drop_last() =~= nat_digits(n / 10));
        assert(s.last() - 48 == n % 10);
        assert(n == (n / 10) * 10 + n % 10);
    }
}

/// Reading back a written numeral gives the value that was written.
pub proof fn lemma_numeral_round_trip(i: int)
    ensures
        numeral_value(int_numeral(i), true) == Some(i),
        i >= 0 ==> numeral_value(int_numeral(i), false) == Some(i),
{
    lemma_nat_digits((if i < 0 { -i } else { i }) as nat);
    let s = int_numeral(i);
    if i < 0 {
        assert(s.subrange(1, s.len() as int) =~= nat_digits((-i) as nat));
    } else {
        assert(is_digit(s[0]));
    }
}

/// Reads the digits `buf[start..end]` as a `u64`; `None` where the range is
/// empty, holds a byte that is not a digit, or names a value beyond `u64`.
fn read_digits(buf: &[u8], start: usize, end: usize) -> (r: Option<u64>)
    requires
        start <= end <= buf@.len(),
    ensures
        r == (match unsigned_value(buf@.subrange(start as int, end as int)) {
            Some(v) => if v <= u64::MAX {
                Some(v as u64)
            } else {
                None
            },
            None => None,
        }),
{
    if start == end {
        return None;
    }
    let mut acc: u64 = 0;
    let mut overflow = false;
    let mut i: usize = start;
    while i < end
        invariant
            start <= i <= end <= buf@.len(),
            all_digits(buf@.subrange(start as int, i as int)),
            !overflow ==> acc == digits_value(buf@.subrange(start as int, i as int)),
            overflow ==> digits_value(buf@.subrange(start as int, i as int)) > u64::MAX,
        decreases end - i,
    {
        let b = buf[i];
        if b < 48 || b > 57 {
            proof {
                let s = buf@.subrange(start as int, end as int);
                assert(s[i - start] == b);
            }
            return None;
        }
        let ghost prev = buf@.subrange(start as int, i as int);
        let ghost next = buf@.subrange(start as int, i + 1);
        assert(next.drop_last() =~= prev);
        assert(next.last() == b);
        let d = (b - 48) as u64;
        if !overflow {
            if acc > 1844674407370955161 {
                overflow = true;
                assert(acc * 10 + d > u64::MAX) by (nonlinear_arith)
                    requires
                        acc > 1844674407370955161,
                        d >= 0,
                ;
            } else {
                assert(acc * 10 <= 18446744073709551610) by (nonlinear_arith)
                    requires
                        acc <= 1844674407370955161,
                ;
                let t = acc * 10;
                if t > u64::MAX - d {
                    overflow = true;
                } else {
                    acc = t + d;
                }
            }
        } else {
            assert(digits_value(next) >= digits_value(prev));
        }
        i += 1;
    }
    assert(buf@.subrange(start as int, end as int) =~= buf@.subrange(start as int, i as int));
    if overflow {
        None
    } else {
        Some(acc)
    }
}

/// Reads `buf[start..end]` as `i64::from_str` would.
pub fn parse_i64(buf: &[u8], start: usize, end: usize) -> (r: Option<i64>)
    requires
        start <= end <= buf@.len(),
    ensures
        r == i64_of(buf@.subrange(start as int, end as int)),
{
    let ghost s = buf@.subrange(start as int, end as int);
    if start < end && (buf[start] == 43 || buf[start] == 45) {
        assert(s.subrange(1, s.len() as int) =~= buf@.subrange(start + 1, end as int));
        let m = read_digits(buf, start + 1, end);
        match m {
            Some(m) => {
                if buf[start] == 43 {
                    if m <= 9223372036854775807 {
                        Some(m as i64)
                    } else {
                        None
                    }
                } else if m == 9223372036854775808 {
                    Some(i64::MIN)
                } else if m < 9223372036854775808 {
                    Some(-(m as i64))
                } else {
                    None
                }
            },
            None => None,
        }
    } else {
        match read_digits(buf, start, end) {
            Some(m) => {
                if m <= 9223372036854775807 {
                    Some(m as i64)
                } else {
                    None
                }
            },
            None => None,
        }
    }
}

/// Reads `buf[start..end]` as `u64::from_str` would.
pub fn parse_u64(buf: &[u8], start: usize, end: usize) -> (r: Option<u64>)
    requires
        start <= end <= buf@.len(),
    ensures
        r == u64_of(buf@.subrange(start as int, end as int)),
{
    let ghost s = buf@.subrange(start as int, end as int);
    if start < end && buf[start] == 43 {
        assert(s.subrange(1, s.len() as int) =~= buf@.subrange(start + 1, end as int));
        read_digits(buf, start + 1, end)
    } else {
        read_digits(buf, start, end)
    }
}

/// Appends the decimal digits of `n`.
pub fn push_digits(out: &mut Vec<u8>, n: u64)
    ensures
        final(out)@ == old(out)@ + nat_digits(n as nat),
    decreases n,
{
    if n >= 10 {
        push_digits(out, n / 10);
    }
    out.push((n % 10 + 48) as u8);
    proof {
        if n < 10 {
            assert(nat_digits(n as nat) =~= seq![(n + 48) as u8]);
        }
    }
    assert(final(out)@ =~= old(out)@ + nat_digits(n as nat));
}

/// Appends the decimal numeral of `i`.
pub fn push_numeral(out: &mut Vec<u8>, i: i64)
    ensures
        final(out)@ == old(out)@ + int_numeral(i as int),
{
    if i < 0 {
        out.push(45);
        let m: u64 = if i == i64::MIN {
            9223372036854775808
        } else {
            (-i) as u64
        };
        push_digits(out, m);
        assert(final(out)@ =~= old(out)@ + int_numeral(i as int));
    } else {
        push_digits(out, i as u64);
    }
}

} // verus!
