//! Decimal numerals as byte sequences.
use vstd::prelude::*;

verus! {

/// The digit `0` in ASCII.
pub const ZERO: u8 = 48;

/// The digit `9` in ASCII.
pub const NINE: u8 = 57;

/// Whether `b` is one of the ASCII digits `0` to `9`.
pub open spec fn is_digit(b: u8) -> bool {
    ZERO <= b <= NINE
}

/// The ASCII digit that stands for `d`.
pub open spec fn digit_byte(d: nat) -> u8
    recommends
        d < 10,
{
    (ZERO + d) as u8
}

/// The decimal numeral of `n`, most significant digit first, without leading
/// zeros; the numeral of zero is `0`.
pub open spec fn decimal(n: nat) -> Seq<u8>
    decreases n,
{
    if n < 10 {
        seq![digit_byte(n)]
    } else {
        decimal(n / 10).push(digit_byte(n % 10))
    }
}

/// The number that the bytes of `s` from `from` up to `to` spell when they are
/// read as decimal digits.
pub open spec fn digits_value(s: Seq<u8>, from: int, to: int) -> nat
    decreases to - from,
{
    if to <= from {
        0
    } else {
        digits_value(s, from, to - 1) * 10 + (s[to - 1] - ZERO) as nat
    }
}

/// Whether every byte of `s` from `from` up to `to` is a digit.
pub open spec fn all_digits(s: Seq<u8>, from: int, to: int) -> bool {
    forall|i: int| from <= i < to ==> is_digit(#[trigger] s[i])
}

/// The first position at or after `from` at which `s` holds no digit, or the
/// length of `s` where it holds digits to its end.
pub open spec fn digits_end(s: Seq<u8>, from: int) -> int
    decreases s.len() - from,
{
    if 0 <= from < s.len() && is_digit(s[from]) {
        digits_end(s, from + 1)
    } else {
        from
    }
}

/// `digits_end` stops at the first byte that is no digit.
pub proof fn lemma_digits_end(s: Seq<u8>, from: int)
    requires
        0 <= from <= s.len(),
    ensures
        from <= digits_end(s, from) <= s.len(),
        all_digits(s, from, digits_end(s, from)),
        digits_end(s, from) < s.len() ==> !is_digit(s[digits_end(s, from)]),
    decreases s.len() - from,
{
    if from < s.len() && is_digit(s[from]) {
        lemma_digits_end(s, from + 1);
    }
}

/// A run of digits that is followed by something else ends where `digits_end`
/// says.
pub proof fn lemma_digits_end_unique(s: Seq<u8>, from: int, to: int)
    requires
        0 <= from <= to <= s.len(),
        all_digits(s, from, to),
        to < s.len() ==> !is_digit(s[to]),
    ensures
        digits_end(s, from) == to,
    decreases to - from,
{
    if from < to {
        assert(is_digit(s[from]));
        lemma_digits_end_unique(s, from + 1, to);
    }
}

/// The value of a run of digits depends on those digits only.
pub proof fn lemma_digits_value_same(s: Seq<u8>, from: int, t: Seq<u8>, start: int, len: int)
    requires
        0 <= len,
        forall|i: int| from <= i < from + len ==> #[trigger] s[i] == t[i - from + start],
    ensures
        digits_value(s, from, from + len) == digits_value(t, start, start + len),
    decreases len,
{
    if len > 0 {
        lemma_digits_value_same(s, from, t, start, len - 1);
        assert(s[from + len - 1] == t[from + len - 1 - from + start]);
    }
}

/// A longer run of digits spells a number that is at least as large.
pub proof fn lemma_digits_value_grows(s: Seq<u8>, from: int, mid: int, to: int)
    requires
        from <= mid <= to,
        all_digits(s, from, to),
    ensures
        digits_value(s, from, mid) <= digits_value(s, from, to),
    decreases to - mid,
{
    if mid < to {
        lemma_digits_value_grows(s, from, mid, to - 1);
        assert(is_digit(s[to - 1]));
    }
}

/// A numeral holds digits only, at least one, and starts with `0` only where
/// it is the numeral of zero.
pub proof fn lemma_decimal_shape(n: nat)
    ensures
        decimal(n).len() >= 1,
        all_digits(decimal(n), 0, decimal(n).len() as int),
        n == 0 ==> decimal(n) =~= seq![ZERO],
        n > 0 ==> decimal(n)[0] != ZERO,
    decreases n,
{
    if n >= 10 {
        lemma_decimal_shape(n / 10);
    }
}

/// A numeral has a digit more than the numeral of a tenth of its number, so
/// the numeral of a 64-bit number has at most 20 digits.
pub proof fn lemma_decimal_length(n: nat)
    ensures
        n < 10 ==> decimal(n).len() == 1,
        n >= 10 ==> decimal(n).len() == decimal(n / 10).len() + 1,
        n <= u64::MAX ==> decimal(n).len() <= 20,
{
    reveal_with_fuel(decimal, 21);
}

/// A numeral spells the number that it was made from.
pub proof fn lemma_decimal_value(n: nat)
    ensures
        digits_value(decimal(n), 0, decimal(n).len() as int) == n,
    decreases n,
{
    let d = decimal(n);
    if n < 10 {
        assert(digits_value(d, 0, 0) == 0);
        assert(digits_value(d, 0, 1) == digits_value(d, 0, 0) * 10 + (d[0] - ZERO) as nat);
    } else {
        let p = decimal(n / 10);
        lemma_decimal_value(n / 10);
        lemma_decimal_shape(n / 10);
        assert(d.len() == p.len() + 1);
        lemma_digits_value_same(d, 0, p, 0, p.len() as int);
        assert(d[d.len() - 1] == digit_byte(n % 10));
    }
}

/// A run of digits without a leading zero is the numeral of the number that
/// it spells.
pub proof fn lemma_digits_canonical(s: Seq<u8>, from: int, to: int)
    requires
        0 <= from < to <= s.len(),
        all_digits(s, from, to),
        s[from] == ZERO ==> to == from + 1,
    ensures
        decimal(digits_value(s, from, to)) == s.subrange(from, to),
    decreases to - from,
{
    let value = digits_value(s, from, to);
    assert(is_digit(s[to - 1]));
    if to == from + 1 {
        assert(digits_value(s, from, from) == 0);
        assert(decimal(value) =~= s.subrange(from, to));
    } else {
        let front = digits_value(s, from, to - 1);
        lemma_digits_canonical(s, from, to - 1);
        lemma_digits_value_grows(s, from, from + 1, to - 1);
        assert(digits_value(s, from, from) == 0);
        assert(is_digit(s[from]));
        assert(digits_value(s, from, from + 1) == (s[from] - ZERO) as nat);
        assert(front >= 1);
        assert(value / 10 == front && value % 10 == (s[to - 1] - ZERO) as nat);
        assert(decimal(value) == decimal(front).push(digit_byte(value % 10)));
        assert(s.subrange(from, to - 1).push(s[to - 1]) =~= s.subrange(from, to));
    }
}

/// Appends the numeral of `n` to `out`.
pub fn push_decimal(out: &mut Vec<u8>, n: u64)
    ensures
        final(out)@ == old(out)@ + decimal(n as nat),
    decreases n,
{
    if n < 10 {
        out.push(ZERO + n as u8);
        assert(out@ =~= old(out)@ + decimal(n as nat));
    } else {
        push_decimal(out, n / 10);
        out.push(ZERO + (n % 10) as u8);
        assert(out@ =~= old(out)@ + decimal(n as nat));
    }
}

} // verus!
