//! Numbers written in decimal ASCII digits.

use vstd::prelude::*;

verus! {

/// The shortest decimal numeral of `n`.
pub open spec fn decimal(n: nat) -> Seq<u8>
    decreases n,
{
    if n < 10 {
        seq![(48 + n) as u8]
    } else {
        decimal(n / 10).push((48 + n % 10) as u8)
    }
}

/// The shortest decimal numeral of `i`, with a minus sign where it is negative.
pub open spec fn decimal_int(i: int) -> Seq<u8> {
    if i < 0 {
        seq![45u8] + decimal((-i) as nat)
    } else {
        decimal(i as nat)
    }
}

/// Whether `b` is an ASCII digit.
pub open spec fn is_digit(b: u8) -> bool {
    48 <= b <= 57
}

/// Whether `s` is made of ASCII digits.
pub open spec fn all_digits(s: Seq<u8>) -> bool {
    forall|i: int| 0 <= i < s.len() ==> is_digit(#[trigger] s[i])
}

/// The number that a sequence of digits stands for.
pub open spec fn digits_value(s: Seq<u8>) -> nat
    decreases s.len(),
{
    if s.len() == 0 {
        0
    } else {
        digits_value(s.drop_last()) * 10 + (s.last() - 48) as nat
    }
}

/// The number that a numeral (digits, with or without a minus sign) stands for, where
/// it is one and fits in 64 bits.
pub open spec fn numeral_value(s: Seq<u8>) -> Option<i64> {
    let negative = s.len() > 0 && s[0] == 45;
    let digits = if negative { s.skip(1) } else { s };
    let value = if negative { -digits_value(digits) } else { digits_value(digits) as int };
    if digits.len() > 0 && all_digits(digits) && i64::MIN <= value <= i64::MAX {
        Some(value as i64)
    } else {
        None
    }
}

/// A numeral has at least one byte and holds digits alone, and stands for its number.
pub proof fn lemma_decimal(n: nat)
    ensures
        decimal(n).len() > 0,
        all_digits(decimal(n)),
        digits_value(decimal(n)) == n,
    decreases n,
{
    reveal_with_fuel(digits_value, 2);
    if n >= 10 {
        lemma_decimal(n / 10);
        assert(decimal(n).drop_last() =~= decimal(n / 10));
    } else {
        assert(decimal(n).drop_last() =~= seq![]);
    }
}

/// A 64-bit number is what its numeral stands for.
pub proof fn lemma_numeral_round_trip(i: i64)
    ensures
        numeral_value(decimal_int(i as int)) == Some(i),
{
    if i < 0 {
        lemma_decimal((-i) as nat);
        assert(decimal_int(i as int).skip(1) =~= decimal((-i) as nat));
    } else {
        lemma_decimal(i as nat);
    }
}

/// Digits put behind do not make the number smaller.
proof fn lemma_digits_grow(s: Seq<u8>, n: int)
    requires
        all_digits(s),
        0 <= n <= s.len(),
    ensures
        digits_value(s.take(n)) <= digits_value(s),
    decreases s.len() - n,
{
    if n == s.len() {
        assert(s.take(n) =~= s);
    } else {
        lemma_digits_grow(s, n + 1);
        assert(s.take(n + 1).drop_last() =~= s.take(n));
    }
}

/// Appends the numeral of `n`.
pub fn push_decimal(out: &mut Vec<u8>, n: u64)
    ensures
        final(out)@ == old(out)@ + decimal(n as nat),
    decreases n,
{
    if n >= 10 {
        push_decimal(out, n / 10);
    }
    out.push(48 + (n % 10) as u8);
    assert(out@ =~= old(out)@ + decimal(n as nat));
}

/// Appends the numeral of `i`.
pub fn push_decimal_int(out: &mut Vec<u8>, i: i64)
    ensures
        final(out)@ == old(out)@ + decimal_int(i as int),
{
    if i < 0 {
        out.push(45);
        let n: u64 = (-(i as i128)) as u64;
        push_decimal(out, n);
        assert(out@ =~= old(out)@ + decimal_int(i as int));
    } else {
        push_decimal(out, i as u64);
    }
}

/// The number that a numeral stands for.
pub fn parse_numeral(s: &[u8]) -> (r: Option<i64>)
    ensures
        r == numeral_value(s@),
{
    let negative: bool = s.len() > 0 && s[0] == 45;
    let start: usize = if negative {
        1
    } else {
        0
    };
    let ghost digits = if negative {
        s@.skip(1)
    } else {
        s@
    };
    assert(digits =~= s@.skip(start as int));
    if s.len() == start {
        return None;
    }
    let limit: u64 = if negative {
        0x8000_0000_0000_0000
    } else {
        0x7fff_ffff_ffff_ffff
    };
    let mut value: u64 = 0;
    let mut i: usize = start;
    while i < s.len()
        invariant
            start <= i <= s@.len(),
            digits == s@.skip(start as int),
            digits == (if negative {
                s@.skip(1)
            } else {
                s@
            }),
            negative == (s@.len() > 0 && s@[0] == 45),
            limit == (if negative {
                0x8000_0000_0000_0000u64
            } else {
                0x7fff_ffff_ffff_ffff
            }),
            value <= limit,
            value == digits_value(digits.take(i - start)),
            forall|j: int| 0 <= j < i - start ==> is_digit(#[trigger] digits[j]),
        decreases s@.len() - i,
    {
        let b: u8 = s[i];
        assert(digits[i - start] == b);
        if b < 48 || b > 57 {
            return None;
        }
        let d: u64 = (b - 48) as u64;
        proof {
            assert(digits.take(i - start + 1).drop_last() =~= digits.take(i - start));
            assert(digits.take(i - start + 1).last() == b);
        }
        if value > (limit - d) / 10 {
            proof {
                if all_digits(digits) {
                    lemma_digits_grow(digits, i - start + 1);
                }
            }
            return None;
        }
        value = value * 10 + d;
        i += 1;
    }
    assert(digits.take(i - start) =~= digits);
    if negative {
        Some((-(value as i128)) as i64)
    } else {
        Some(value as i64)
    }
}

/// A numeral holds digits alone, has no zero in front of others, and stands for its number,
/// each digit for ten times as much as the one behind it.
pub proof fn law_decimal(n: nat)
    ensures
        decimal(n).len() > 0,
        forall|i: int| 0 <= i < decimal(n).len() ==> 48 <= #[trigger] decimal(n)[i] <= 57,
        decimal(n)[0] == 48 ==> n == 0 && decimal(n).len() == 1,
        digits_value(decimal(n)) == n,
    decreases n,
{
    lemma_decimal(n);
    if n >= 10 {
        law_decimal(n / 10);
    }
    assert forall|i: int| 0 <= i < decimal(n).len() implies 48 <= #[trigger] decimal(n)[i] <= 57 by {
        assert(is_digit(decimal(n)[i]));
    }
}

/// A digit put behind others makes ten times their number, and its own more.
pub proof fn law_digits_value(s: Seq<u8>, d: u8)
    requires
        48 <= d <= 57,
    ensures
        digits_value(Seq::empty()) == 0,
        digits_value(s.push(d)) == 10 * digits_value(s) + d - 48,
{
    assert(s.push(d).drop_last() =~= s);
}

/// A numeral with a minus sign stands for the negative number.
pub proof fn law_numeral_value(s: Seq<u8>)
    requires
        s.len() > 0,
        forall|i: int| 0 <= i < s.len() ==> 48 <= #[trigger] s[i] <= 57,
    ensures
        digits_value(s) <= 0x7fff_ffff_ffff_ffff ==> numeral_value(s) == Some(
            digits_value(s) as i64,
        ),
        digits_value(s) > 0x7fff_ffff_ffff_ffff ==> numeral_value(s) is None,
        digits_value(s) <= 0x8000_0000_0000_0000 ==> (numeral_value(seq![45u8] + s) matches Some(
            i,
        ) && i == -digits_value(s)),
        digits_value(s) > 0x8000_0000_0000_0000 ==> numeral_value(seq![45u8] + s) is None,
{
    assert forall|i: int| 0 <= i < s.len() implies is_digit(#[trigger] s[i]) by {}
    assert((seq![45u8] + s).skip(1) =~= s);
}

/// What stands for a number is made of digits, with or without a minus sign.
pub proof fn law_no_numeral(s: Seq<u8>)
    ensures
        numeral_value(s) is Some ==> s.len() > 0 && (48 <= s[0] <= 57 || (s[0] == 45 && s.len() > 1))
            && forall|i: int| 1 <= i < s.len() ==> 48 <= #[trigger] s[i] <= 57,
{
    if numeral_value(s) is Some {
        if s[0] == 45 {
            assert forall|i: int| 1 <= i < s.len() implies 48 <= #[trigger] s[i] <= 57 by {
                assert(is_digit(s.skip(1)[i - 1]));
            }
        } else {
            assert(is_digit(s[0]));
            assert forall|i: int| 1 <= i < s.len() implies 48 <= #[trigger] s[i] <= 57 by {
                assert(is_digit(s[i]));
            }
        }
    }
}

/// The numeral of a negative number is that of the positive one behind a minus sign.
pub proof fn law_decimal_int(n: nat)
    ensures
        decimal_int(n as int) == decimal(n),
        n > 0 ==> decimal_int(-n) == seq![45u8] + decimal(n),
{
}

} // verus!
