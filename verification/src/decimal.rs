//! Decimal text for sizes and timestamps.

use vstd::prelude::*;

verus! {

/// Whether `c` is one of `0123456789`.
pub open spec fn is_digit(c: u8) -> bool {
    '0' as u8 <= c <= '9' as u8
}

/// Whether every byte of `s` is a decimal digit.
pub open spec fn all_digits(s: Seq<u8>) -> bool {
    forall|i: int| 0 <= i < s.len() ==> is_digit(#[trigger] s[i])
}

/// The decimal text of `n`, without sign or leading zeros.
pub open spec fn decimal(n: nat) -> Seq<u8>
    decreases n,
{
    if n < 10 {
        seq![('0' as u8 + n) as u8]
    } else {
        decimal(n / 10).push(('0' as u8 + n % 10) as u8)
    }
}

/// The decimal text of an integer: a `-` before the digits of a negative one.
pub open spec fn signed_decimal(i: int) -> Seq<u8> {
    if i < 0 {
        seq!['-' as u8] + decimal((-i) as nat)
    } else {
        decimal(i as nat)
    }
}

/// The number that a string of digits writes, leading zeros allowed.
pub open spec fn digits_value(s: Seq<u8>) -> nat
    decreases s.len(),
{
    if s.len() == 0 {
        0
    } else {
        digits_value(s.drop_last()) * 10 + (s.last() - '0' as u8) as nat
    }
}

/// The digits of an unsigned decimal token: the token itself, less one
/// leading `+` where it has one.
pub open spec fn unsigned_digits(token: Seq<u8>) -> Seq<u8> {
    if token.len() > 0 && token[0] == '+' as u8 {
        token.drop_first()
    } else {
        token
    }
}

/// What `parse_u64` makes of `token`. A token is an optional `+`, then one
/// or more digits; its value has to fit 64 bits.
pub open spec fn unsigned_value(token: Seq<u8>) -> Option<u64> {
    let digits = unsigned_digits(token);
    if digits.len() > 0 && all_digits(digits) && digits_value(digits) <= u64::MAX {
        Some(digits_value(digits) as u64)
    } else {
        None
    }
}

/// The text of a number is one digit at least, all digits, and writes it.
pub proof fn lemma_decimal(n: nat)
    ensures
        decimal(n).len() > 0,
        all_digits(decimal(n)),
        digits_value(decimal(n)) == n,
    decreases n,
{
    reveal_with_fuel(digits_value, 2);
    if n >= 10 {
        lemma_decimal(n / 10);
        let s = decimal(n);
        assert(s.drop_last() =~= decimal(n / 10));
        assert forall|i: int| 0 <= i < s.len() implies is_digit(#[trigger] s[i]) by {
            if i < s.len() - 1 {
                assert(s[i] == decimal(n / 10)[i]);
            }
        }
    } else {
        assert(decimal(n).drop_last() =~= Seq::<u8>::empty());
    }
}

/// Reading back the text of a 64-bit number gives the number.
pub proof fn lemma_unsigned_value_decimal(n: nat)
    requires
        n <= u64::MAX,
    ensures
        unsigned_value(decimal(n)) == Some(n as u64),
{
    lemma_decimal(n);
    assert(is_digit(decimal(n)[0]));
}

/// A string of digits with more digits behind it writes no smaller number.
pub proof fn lemma_digits_value_grows(s: Seq<u8>, k: int)
    requires
        0 <= k <= s.len(),
        all_digits(s),
    ensures
        digits_value(s.take(k)) <= digits_value(s),
    decreases s.len(),
{
    if k < s.len() {
        let t = s.drop_last();
        assert(t.take(k) =~= s.take(k));
        assert forall|i: int| 0 <= i < t.len() implies is_digit(#[trigger] t[i]) by {
            assert(t[i] == s[i]);
        }
        lemma_digits_value_grows(t, k);
        assert(is_digit(s[s.len() - 1]));
    } else {
        assert(s.take(k) =~= s);
    }
}

/// Appends the decimal text of `n`.
pub fn append_decimal(out: &mut Vec<u8>, n: u64)
    ensures
        final(out)@ == old(out)@ + decimal(n as nat),
    decreases n,
{
    if n >= 10 {
        append_decimal(out, n / 10);
    }
    out.push('0' as u8 + (n % 10) as u8);
    assert(out@ =~= old(out)@ + decimal(n as nat));
}

/// Appends the decimal text of `i`, with a `-` where it is negative.
pub fn append_signed_decimal(out: &mut Vec<u8>, i: i64)
    ensures
        final(out)@ == old(out)@ + signed_decimal(i as int),
{
    if i < 0 {
        out.push('-' as u8);
        let magnitude: u64 = (-(i + 1)) as u64 + 1;
        append_decimal(out, magnitude);
        assert(out@ =~= old(out)@ + signed_decimal(i as int));
    } else {
        append_decimal(out, i as u64);
    }
}

/// Reads an unsigned decimal token: an optional `+`, then digits. Nothing
/// where the token is empty, holds another byte, or exceeds 64 bits.
pub fn parse_u64(token: &[u8]) -> (value: Option<u64>)
    ensures
        value == unsigned_value(token@),
{
    let start: usize = if token.len() > 0 && token[0] == '+' as u8 {
        1
    } else {
        0
    };
    let ghost digits = unsigned_digits(token@);
    assert(digits =~= token@.skip(start as int));
    if start == token.len() {
        return None;
    }
    let mut acc: u64 = 0;
    let mut i: usize = start;
    while i < token.len()
        invariant
            start <= i <= token@.len(),
            digits == token@.skip(start as int),
            digits == unsigned_digits(token@),
            all_digits(digits.take(i - start)),
            acc == digits_value(digits.take(i - start)),
        decreases token@.len() - i,
    {
        let c: u8 = token[i];
        if c < '0' as u8 || c > '9' as u8 {
            assert(!is_digit(digits[i - start]));
            return None;
        }
        let ghost next = digits.take(i - start + 1);
        proof {
            assert(next.drop_last() =~= digits.take(i - start));
            assert(next.last() == c);
            assert forall|j: int| 0 <= j < next.len() implies is_digit(#[trigger] next[j]) by {
                if j < next.len() - 1 {
                    assert(digits.take(i - start)[j] == next[j]);
                }
            }
        }
        let grown = match acc.checked_mul(10) {
            Some(tens) => tens.checked_add((c - '0' as u8) as u64),
            None => None,
        };
        match grown {
            Some(v) => {
                acc = v;
            },
            None => {
                proof {
                    assert(digits_value(next) > u64::MAX);
                    if all_digits(digits) {
                        lemma_digits_value_grows(digits, i - start + 1);
                    }
                }
                return None;
            },
        }
        i += 1;
    }
    assert(digits.take(i - start) =~= digits);
    Some(acc)
}

} // verus!
