//! Decimal digit strings: the canonical way this crate writes numbers.

use vstd::prelude::*;

verus! {

/// The ASCII byte of one decimal digit.
pub open spec fn digit_byte(d: nat) -> u8 {
    (0x30 + d) as u8
}

/// The canonical decimal digit string of a natural number: no leading
/// zeros, and `0` itself is the single byte `0`.
pub open spec fn dec_digits(n: nat) -> Seq<u8>
    decreases n,
{
    if n < 10 {
        seq![digit_byte(n)]
    } else {
        dec_digits(n / 10) + seq![digit_byte(n % 10)]
    }
}

/// The numeric value of a digit string, most significant digit first.
pub open spec fn dec_value(s: Seq<u8>) -> int
    decreases s.len(),
{
    if s.len() == 0 {
        0
    } else {
        10 * dec_value(s.drop_last()) + (s.last() - 0x30)
    }
}

/// Ten to the `k`.
pub open spec fn pow10(k: nat) -> nat
    decreases k,
{
    if k == 0 {
        1
    } else {
        10 * pow10((k - 1) as nat)
    }
}

/// Reading a canonical digit string back yields the number it came from.
pub proof fn lemma_dec_value_of_digits(n: nat)
    ensures
        dec_value(dec_digits(n)) == n,
    decreases n,
{
    if n < 10 {
        assert(dec_digits(n).drop_last() =~= Seq::<u8>::empty());
        assert(dec_value(Seq::<u8>::empty()) == 0);
    } else {
        lemma_dec_value_of_digits(n / 10);
        assert(dec_digits(n).drop_last() =~= dec_digits(n / 10));
        assert(dec_digits(n).last() == digit_byte(n % 10));
    }
}

pub proof fn lemma_pow10_pos(k: nat)
    ensures
        pow10(k) >= 1,
    decreases k,
{
    if k > 0 {
        lemma_pow10_pos((k - 1) as nat);
    }
}

pub proof fn lemma_pow10_monotone(a: nat, b: nat)
    requires
        a <= b,
    ensures
        pow10(a) <= pow10(b),
    decreases b,
{
    if a < b {
        lemma_pow10_monotone(a, (b - 1) as nat);
    }
}

/// Every byte of a digit string is an ASCII digit.
pub proof fn lemma_dec_digits_are_digits(n: nat)
    ensures
        forall|i: int|
            0 <= i < dec_digits(n).len() ==> crate::utils::is_digit(#[trigger] dec_digits(n)[i]),
        dec_digits(n).len() >= 1,
    decreases n,
{
    if n >= 10 {
        lemma_dec_digits_are_digits(n / 10);
    }
}

/// Appends the canonical digit string of `n`.
pub fn push_digits(n: u64, out: &mut Vec<u8>)
    ensures
        final(out)@ == old(out)@ + dec_digits(n as nat),
    decreases n,
{
    if n < 10 {
        out.push(0x30 + n as u8);
        proof {
            assert(out@ =~= old(out)@ + dec_digits(n as nat));
        }
    } else {
        push_digits(n / 10, out);
        out.push(0x30 + (n % 10) as u8);
        proof {
            assert(digit_byte((n as nat) % 10) == 0x30 + (n % 10) as u8);
            assert(out@ =~= old(out)@ + dec_digits(n as nat));
        }
    }
}

} // verus!
