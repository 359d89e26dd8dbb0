//! Decimal text of whole numbers, as bytes.

use vstd::prelude::*;

verus! {

/// The byte `-`.
pub const MINUS: u8 = 45;

/// The byte `0`; the digit `d` is written as `ZERO + d`.
pub const ZERO: u8 = 48;

/// The digits of `n` in base ten, most significant first. Zero is the one
/// digit `0`; no other number starts with `0`.
pub open spec fn digits(n: nat) -> Seq<u8>
    decreases n,
{
    if n < 10 {
        seq![(ZERO + n) as u8]
    } else {
        digits(n / 10).push((ZERO + n % 10) as u8)
    }
}

/// The decimal text of `n`: its digits, behind a minus sign where `n` is
/// negative.
pub open spec fn decimal(n: int) -> Seq<u8> {
    if n < 0 {
        seq![MINUS] + digits((-n) as nat)
    } else {
        digits(n as nat)
    }
}

/// Whether `b` is one of the bytes `0` to `9`.
pub open spec fn is_digit(b: u8) -> bool {
    ZERO <= b <= ZERO + 9
}

/// The number that a run of digits stands for, read most significant first.
pub open spec fn digits_value(s: Seq<u8>) -> nat
    decreases s.len(),
{
    if s.len() == 0 {
        0
    } else {
        (digits_value(s.drop_last()) * 10 + (s.last() - ZERO)) as nat
    }
}

/// The digits of a number are digits, at least one of them, and they read
/// back as the number.
pub proof fn lemma_digits(n: nat)
    ensures
        digits(n).len() >= 1,
        forall|i: int| 0 <= i < digits(n).len() ==> is_digit(#[trigger] digits(n)[i]),
        digits_value(digits(n)) == n,
        n > 0 ==> digits(n)[0] != ZERO,
    decreases n,
{
    if n < 10 {
        assert(digits_value(digits(n).drop_last()) == 0);
    } else {
        lemma_digits(n / 10);
        let head = digits(n / 10);
        assert(digits(n).drop_last() =~= head);
    }
}

/// A number below `10^k` has at most `k` digits; stated for the widths that
/// a 32-bit number reaches.
pub proof fn lemma_digits_len(n: nat)
    ensures
        n < 10 ==> digits(n).len() == 1,
        10 <= n < 100 ==> digits(n).len() == 2,
        100 <= n < 1000 ==> digits(n).len() == 3,
        n < 0x1_0000_0000 ==> digits(n).len() <= 10,
{
    reveal_with_fuel(digits, 11);
}

/// The decimal text of a number holds digits alone, but for the minus sign
/// in front of a negative one.
pub proof fn lemma_decimal(n: int)
    ensures
        decimal(n).len() >= 1,
        forall|i: int|
            0 <= i < decimal(n).len() ==> is_digit(#[trigger] decimal(n)[i]) || (n < 0 && i == 0
                && decimal(n)[i] == MINUS),
{
    if n < 0 {
        lemma_digits((-n) as nat);
    } else {
        lemma_digits(n as nat);
    }
}

/// Appends the decimal text of `n` to `out`.
pub fn push_decimal(out: &mut Vec<u8>, n: i32)
    ensures
        final(out)@ == old(out)@ + decimal(n as int),
{
    let wide: i64 = n as i64;
    let magnitude: u64 = if wide < 0 {
        out.push(MINUS);
        (-wide) as u64
    } else {
        wide as u64
    };
    let ghost front: Seq<u8> = out@;

    // The digits come out least significant first: collect, then turn round.
    let mut low_first: Vec<u8> = Vec::new();
    low_first.push(ZERO + (magnitude % 10) as u8);
    let mut rest: u64 = magnitude / 10;
    let ghost mut tail: Seq<u8> = seq![(ZERO + magnitude % 10) as u8];
    while rest > 0
        invariant
            digits(magnitude as nat) == leading(rest as nat) + tail,
            tail.len() == low_first@.len(),
            tail.len() >= 1,
            forall|i: int| 0 <= i < tail.len() ==> tail[i] == low_first@[tail.len() - 1 - i],
        decreases rest,
    {
        let digit: u8 = ZERO + (rest % 10) as u8;
        low_first.push(digit);
        proof {
            tail = seq![digit] + tail;
        }
        rest = rest / 10;
    }

    let mut left: usize = low_first.len();
    while left > 0
        invariant
            left <= low_first@.len(),
            tail.len() == low_first@.len(),
            forall|i: int| 0 <= i < tail.len() ==> tail[i] == low_first@[tail.len() - 1 - i],
            out@ == front + tail.take(tail.len() - left),
        decreases left,
    {
        left = left - 1;
        out.push(low_first[left]);
        assert(tail.take(tail.len() - left) =~= tail.take(tail.len() - left - 1).push(
            low_first@[left as int],
        ));
    }
}

/// The digits in front of the last one written so far: none once the number
/// is used up.
spec fn leading(rest: nat) -> Seq<u8> {
    if rest == 0 {
        Seq::empty()
    } else {
        digits(rest)
    }
}

} // verus!
