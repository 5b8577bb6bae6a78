//! ASCII decimal numbers: how they are written and how they are read.

use vstd::prelude::*;

verus! {

/// Whether `b` is an ASCII digit.
pub open spec fn is_digit(b: u8) -> bool {
    0x30 <= b <= 0x39
}

/// The ASCII digit that stands for `d`.
pub open spec fn digit_byte(d: nat) -> u8
    recommends
        d < 10,
{
    (0x30 + d) as u8
}

/// The decimal digits of `n`, most significant first, without leading zeros.
pub open spec fn decimal(n: nat) -> Seq<u8>
    decreases n,
{
    if n < 10 {
        seq![digit_byte(n)]
    } else {
        decimal(n / 10).push(digit_byte(n % 10))
    }
}

/// The decimal form of a signed number: a minus sign before the digits of a
/// negative one.
pub open spec fn signed_decimal(n: int) -> Seq<u8> {
    if n < 0 {
        seq![0x2Du8] + decimal((-n) as nat)
    } else {
        decimal(n as nat)
    }
}

/// Whether every byte of `s` is an ASCII digit.
pub open spec fn all_digits(s: Seq<u8>) -> bool {
    forall|i: int| 0 <= i < s.len() ==> is_digit(#[trigger] s[i])
}

/// The number that the digits of `s` write.
pub open spec fn digits_value(s: Seq<u8>) -> nat
    decreases s.len(),
{
    if s.len() == 0 {
        0
    } else {
        digits_value(s.drop_last()) * 10 + (s.last() - 0x30) as nat
    }
}

/// The digits of a number without its optional leading plus sign.
pub open spec fn unsigned_part(s: Seq<u8>) -> Seq<u8> {
    if s.len() > 0 && s[0] == 0x2Bu8 {
        s.skip(1)
    } else {
        s
    }
}

/// The number of seconds that `s` writes: an optional plus sign, then one or
/// more digits whose value fits in 64 bits. Anything else writes none.
pub open spec fn parse_seconds(s: Seq<u8>) -> Option<u64> {
    let d = unsigned_part(s);
    if d.len() > 0 && all_digits(d) && digits_value(d) <= u64::MAX {
        Some(digits_value(d) as u64)
    } else {
        None
    }
}

/// A number has at least one digit, and all of them are digits.
pub proof fn lemma_decimal_digits(n: nat)
    ensures
        decimal(n).len() > 0,
        all_digits(decimal(n)),
    decreases n,
{
    if n >= 10 {
        lemma_decimal_digits(n / 10);
    }
}

/// Reading what was written gives the number back.
pub proof fn lemma_decimal_round_trip(n: nat)
    ensures
        digits_value(decimal(n)) == n,
    decreases n,
{
    if n < 10 {
        assert(decimal(n).drop_last() =~= Seq::<u8>::empty());
        assert(digits_value(decimal(n).drop_last()) == 0);
    } else {
        lemma_decimal_round_trip(n / 10);
        assert(decimal(n).drop_last() =~= decimal(n / 10));
    }
}

/// A longer run of digits writes a number that is no smaller than the one its
/// leading part writes.
proof fn lemma_digits_value_grows(s: Seq<u8>, k: int)
    requires
        0 <= k <= s.len(),
        all_digits(s),
    ensures
        digits_value(s.take(k)) <= digits_value(s),
    decreases s.len() - k,
{
    if k == s.len() {
        assert(s.take(k) =~= s);
    } else {
        lemma_digits_value_grows(s, k + 1);
        assert(s.take(k + 1).drop_last() =~= s.take(k));
        assert(is_digit(s[k]));
    }
}

/// Appends the decimal form of `n` to `out`.
pub fn push_decimal(out: &mut Vec<u8>, n: u64)
    ensures
        final(out)@ == old(out)@ + decimal(n as nat),
{
    let mut rev: Vec<u8> = Vec::new();
    let mut rest: u64 = n;
    // `rev` holds the low digits of `n`, least significant first.
    let ghost mut low: Seq<u8> = Seq::empty();
    while rest >= 10
        invariant
            decimal(n as nat) == decimal(rest as nat) + low,
            rev@.len() == low.len(),
            forall|i: int| 0 <= i < low.len() ==> rev@[i] == low[low.len() - 1 - i],
        decreases rest,
    {
        let d: u8 = (rest % 10) as u8;
        rev.push(0x30 + d);
        proof {
            let next = seq![digit_byte((rest % 10) as nat)] + low;
            assert(decimal(rest as nat) + low =~= decimal((rest / 10) as nat) + next);
            low = next;
        }
        rest = rest / 10;
    }
    out.push(0x30 + (rest as u8));
    let ghost start = out@;
    assert(start =~= old(out)@ + decimal(rest as nat));
    let mut i: usize = rev.len();
    while i > 0
        invariant
            i <= rev.len(),
            rev@.len() == low.len(),
            forall|k: int| 0 <= k < low.len() ==> rev@[k] == low[low.len() - 1 - k],
            out@ == start + low.take(low.len() - i),
        decreases i,
    {
        i -= 1;
        out.push(rev[i]);
        proof {
            assert(low.take(low.len() - i - 1).push(low[low.len() - 1 - i]) =~= low.take(
                low.len() - i,
            ));
        }
    }
    proof {
        assert(low.take(low.len() as int) =~= low);
        assert(out@ =~= old(out)@ + (decimal(rest as nat) + low));
    }
}

/// Appends the decimal form of a signed number to `out`.
pub fn push_signed_decimal(out: &mut Vec<u8>, n: i64)
    ensures
        final(out)@ == old(out)@ + signed_decimal(n as int),
{
    if n < 0 {
        out.push(0x2D);
        // -(n + 1) cannot overflow, and the magnitude is one more.
        let m: u64 = ((-(n + 1)) as u64) + 1;
        push_decimal(out, m);
        proof {
            assert(out@ =~= old(out)@ + (seq![0x2Du8] + decimal((-n) as nat)));
        }
    } else {
        push_decimal(out, n as u64);
    }
}

/// Reads a number of seconds from the bytes of `s` from `from` up to `to`.
pub fn read_seconds(s: &[u8], from: usize, to: usize) -> (r: Option<u64>)
    requires
        from <= to <= s.len(),
    ensures
        r == parse_seconds(s@.subrange(from as int, to as int)),
{
    let ghost text = s@.subrange(from as int, to as int);
    let mut i: usize = from;
    if i < to && s[i] == 0x2B {
        i += 1;
    }
    let first: usize = i;
    let ghost d = unsigned_part(text);
    proof {
        if from < to {
            assert(text[0] == s@[from as int]);
        }
        assert(d =~= s@.subrange(first as int, to as int));
    }
    if first == to {
        return None;
    }
    let mut acc: u64 = 0;
    while i < to
        invariant
            from <= first <= i <= to <= s.len(),
            first < to,
            d == unsigned_part(s@.subrange(from as int, to as int)),
            d == s@.subrange(first as int, to as int),
            all_digits(d.take(i - first)),
            acc == digits_value(d.take(i - first)),
        decreases to - i,
    {
        let b: u8 = s[i];
        proof {
            assert(d[i - first] == b);
            assert(d.take(i - first + 1).drop_last() =~= d.take(i - first));
        }
        if b < 0x30 || b > 0x39 {
            proof {
                assert(!is_digit(d[i - first]));
            }
            return None;
        }
        let v: u64 = (b - 0x30) as u64;
        proof {
            assert forall|k: int| 0 <= k < d.take(i - first + 1).len() implies is_digit(
                #[trigger] d.take(i - first + 1)[k],
            ) by {
                if k < i - first {
                    assert(d.take(i - first)[k] == d[k]);
                }
            }
        }
        if acc > (u64::MAX - v) / 10 {
            proof {
                assert(digits_value(d.take(i - first + 1)) == acc * 10 + v);
                if all_digits(d) {
                    lemma_digits_value_grows(d, i - first + 1);
                }
            }
            return None;
        }
        acc = acc * 10 + v;
        i += 1;
    }
    proof {
        assert(d.take(to - first) =~= d);
    }
    Some(acc)
}

} // verus!
