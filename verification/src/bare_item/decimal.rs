//! The sf-decimal primitive.
//!
//! A decimal is modelled as a signed count of thousandths: the wire form
//! carries at most three fractional digits, so every representable value is
//! an integer number of thousandths. Construction takes an arbitrary-scale
//! fixed-point input (an integer mantissa and a power-of-ten scale), rounds
//! it half-to-even to three fractional digits, and then range-checks the
//! integer component against its twelve-digit limit.

use vstd::prelude::*;

use super::{SerializeBareItem, ValidateValue};
use crate::digits::{dec_digits, digit_byte, lemma_pow10_monotone, lemma_pow10_pos, pow10,
    push_digits};
use crate::err::Error;
use crate::SFVResult;

verus! {

/// A decimal's thousandths stay within twelve integer digits and three
/// fractional digits.
pub open spec fn dec_in_range(t: i64) -> bool {
    -999_999_999_999_999 <= t && t <= 999_999_999_999_999
}

/// Division of `m` by `d`, rounded half-to-even.
pub open spec fn round_half_even_div(m: nat, d: nat) -> nat {
    let q = m / d;
    let r = m % d;
    if 2 * r > d {
        q + 1
    } else if 2 * r < d {
        q
    } else if q % 2 == 0 {
        q
    } else {
        q + 1
    }
}

/// The magnitude `mag / 10^scale`, expressed in thousandths and rounded
/// half-to-even to an integer.
pub open spec fn spec_rounded_mag(mag: nat, scale: nat) -> nat {
    if scale <= 3 {
        mag * pow10((3 - scale) as nat)
    } else {
        round_half_even_div(mag, pow10((scale - 3) as nat))
    }
}

/// The signed value `mantissa / 10^scale` in thousandths, rounded
/// half-to-even to an integer.
pub open spec fn spec_decimal_thousandths(mantissa: int, scale: nat) -> int {
    if mantissa < 0 {
        -(spec_rounded_mag((-mantissa) as nat, scale) as int)
    } else {
        spec_rounded_mag(mantissa as nat, scale) as int
    }
}

/// The fractional digits of a decimal, with trailing zeros dropped but at
/// least one digit kept.
pub open spec fn spec_frac_digits(f: nat) -> Seq<u8> {
    if f == 0 {
        seq![0x30u8]
    } else if f % 100 == 0 {
        seq![digit_byte(f / 100)]
    } else if f % 10 == 0 {
        seq![digit_byte(f / 100), digit_byte((f / 10) % 10)]
    } else {
        seq![digit_byte(f / 100), digit_byte((f / 10) % 10), digit_byte(f % 10)]
    }
}

/// Canonical wire bytes of a decimal given in thousandths.
pub open spec fn spec_ser_decimal(t: int) -> Seq<u8> {
    let m = if t < 0 {
        -t
    } else {
        t
    };
    (if t < 0 {
        seq![0x2du8]
    } else {
        Seq::<u8>::empty()
    }) + dec_digits((m / 1000) as nat) + seq![0x2eu8] + spec_frac_digits((m % 1000) as nat)
}

/// An sf-decimal, stored as thousandths within the range the grammar can
/// carry. Its view is that signed count of thousandths.
#[derive(Debug, Clone, Copy, PartialEq)]
pub struct BareItemDecimal(pub(crate) i64);

impl View for BareItemDecimal {
    type V = int;

    closed spec fn view(&self) -> int {
        self.0 as int
    }
}

impl BareItemDecimal {
    #[verifier::type_invariant]
    pub(crate) open spec fn inv(self) -> bool {
        dec_in_range(self.0)
    }

    /// Rounds `mantissa / 10^scale` half-to-even to three fractional digits
    /// and wraps it, unless the rounded integer component exceeds twelve
    /// digits.
    pub fn new(mantissa: i128, scale: u32) -> (r: SFVResult<BareItemDecimal>)
        ensures
            r is Ok <==> -999_999_999_999_999 <= spec_decimal_thousandths(
                mantissa as int,
                scale as nat,
            ) <= 999_999_999_999_999,
            r matches Ok(v) ==> v@ == spec_decimal_thousandths(mantissa as int, scale as nat),
            r is Err ==> r == Err::<BareItemDecimal, Error>(Error::DecimalOutOfRange),
    {
        let neg = mantissa < 0;
        let mag: u128 = if mantissa < 0 {
            (-(mantissa + 1)) as u128 + 1
        } else {
            mantissa as u128
        };
        proof {
            if mantissa < 0 {
                assert(mag == (-mantissa) as nat);
            } else {
                assert(mag == mantissa as nat);
            }
        }
        let rounded: u128 = if scale <= 3 {
            let limit: u128 = 999_999_999_999_999;
            let factor: u128 = if scale == 0 {
                1000
            } else if scale == 1 {
                100
            } else if scale == 2 {
                10
            } else {
                1
            };
            proof {
                assert(pow10(0) == 1);
                assert(pow10(1) == 10);
                assert(pow10(2) == 100);
                assert(pow10(3) == 1000);
                assert(factor == pow10((3 - scale) as nat));
            }
            if mag > limit / factor {
                return Err(Error::DecimalOutOfRange);
            }
            mag * factor
        } else if scale >= 42 {
            proof {
                lemma_pow10_39_bound();
                lemma_pow10_monotone(39, (scale - 3) as nat);
                lemma_zero_round(mag as nat, (scale - 3) as nat);
            }
            0
        } else {
            let k = scale - 3;
            let mut d: u128 = 1;
            let mut i: u32 = 0;
            proof {
                lemma_pow10_38_bound();
            }
            while i < k
                invariant
                    i <= k <= 38,
                    d == pow10(i as nat),
                decreases k - i,
            {
                proof {
                    lemma_pow10_monotone((i + 1) as nat, 38);
                    lemma_pow10_38_bound();
                }
                d = d * 10;
                i = i + 1;
            }
            proof {
                lemma_pow10_pos(k as nat);
                lemma_pow10_even(k as nat);
            }
            let q = mag / d;
            let rem = mag % d;
            let half = d / 2;
            if rem > half {
                q + 1
            } else if rem < half {
                q
            } else if q % 2 == 0 {
                q
            } else {
                q + 1
            }
        };
        proof {
            assert(rounded == spec_rounded_mag(mag as nat, scale as nat));
        }
        if rounded > 999_999_999_999_999 {
            return Err(Error::DecimalOutOfRange);
        }
        let t: i64 = if neg {
            -(rounded as i64)
        } else {
            rounded as i64
        };
        Ok(BareItemDecimal(t))
    }

    /// Wraps an exact count of thousandths.
    pub fn from_thousandths(t: i64) -> (r: SFVResult<BareItemDecimal>)
        ensures
            r is Ok <==> dec_in_range(t),
            r matches Ok(v) ==> v@ == t as int,
            r is Err ==> r == Err::<BareItemDecimal, Error>(Error::DecimalOutOfRange),
    {
        match Self::validate(t) {
            Ok(v) => Ok(BareItemDecimal(v)),
            Err(e) => Err(e),
        }
    }

    /// The value as a signed count of thousandths.
    pub fn thousandths(&self) -> (r: i64)
        ensures
            r as int == self@,
            dec_in_range(r),
    {
        proof {
            use_type_invariant(self);
        }
        self.0
    }
}

proof fn lemma_pow10_38_bound()
    ensures
        pow10(38) == 100_000_000_000_000_000_000_000_000_000_000_000_000,
{
    reveal_with_fuel(pow10, 40);
}

proof fn lemma_pow10_39_bound()
    ensures
        pow10(39) == 1_000_000_000_000_000_000_000_000_000_000_000_000_000,
{
    reveal_with_fuel(pow10, 41);
}

proof fn lemma_pow10_even(k: nat)
    requires
        k >= 1,
    ensures
        pow10(k) % 2 == 0,
        pow10(k) / 2 * 2 == pow10(k),
{
    lemma_pow10_pos((k - 1) as nat);
    assert(pow10(k) == 10 * pow10((k - 1) as nat));
    assert(10 * pow10((k - 1) as nat) == 2 * (5 * pow10((k - 1) as nat)));
    assert((2 * (5 * pow10((k - 1) as nat))) % 2 == 0) by (nonlinear_arith);
}

proof fn lemma_zero_round(m: nat, k: nat)
    requires
        k >= 39,
        m <= 0x80000000000000000000000000000000,
    ensures
        round_half_even_div(m, pow10(k)) == 0,
{
    lemma_pow10_39_bound();
    lemma_pow10_monotone(39, k);
    let d = pow10(k);
    assert(m / d == 0) by {
        vstd::arithmetic::div_mod::lemma_basic_div(m as int, d as int);
    }
    assert(m % d == m) by {
        vstd::arithmetic::div_mod::lemma_small_mod(m, d);
    }
}

impl ValidateValue<i64> for BareItemDecimal {
    open spec fn spec_validate(value: i64) -> SFVResult<i64> {
        if dec_in_range(value) {
            Ok(value)
        } else {
            Err(Error::DecimalOutOfRange)
        }
    }

    fn validate(value: i64) -> (r: SFVResult<i64>) {
        if -999_999_999_999_999 <= value && value <= 999_999_999_999_999 {
            Ok(value)
        } else {
            Err(Error::DecimalOutOfRange)
        }
    }
}

impl SerializeBareItem<&BareItemDecimal> for BareItemDecimal {
    open spec fn spec_written(value: &BareItemDecimal) -> Seq<u8> {
        spec_ser_decimal(value@)
    }

    open spec fn ascii_input(value: &BareItemDecimal) -> bool {
        true
    }

    fn serialize_ref(value: &BareItemDecimal, output: &mut Vec<u8>) {
        proof {
            use_type_invariant(value);
        }
        let t = value.0;
        let m: u64 = if t < 0 {
            output.push(0x2d);
            (-t) as u64
        } else {
            t as u64
        };
        push_digits(m / 1000, output);
        output.push(0x2e);
        let f = m % 1000;
        if f == 0 {
            output.push(0x30);
        } else {
            output.push(0x30 + (f / 100) as u8);
            if f % 100 != 0 {
                output.push(0x30 + ((f / 10) % 10) as u8);
                if f % 10 != 0 {
                    output.push(0x30 + (f % 10) as u8);
                }
            }
        }
        proof {
            assert(output@ =~= old(output)@ + spec_ser_decimal(value@));
            lemma_serialized_decimal_ascii(value@, old(output)@, output@);
        }
    }
}

proof fn lemma_serialized_decimal_ascii(t: int, before: Seq<u8>, after: Seq<u8>)
    requires
        after == before + spec_ser_decimal(t),
    ensures
        crate::utils::is_all_ascii(before) ==> crate::utils::is_all_ascii(after),
{
    if crate::utils::is_all_ascii(before) {
        let m: int = if t < 0 {
            -t
        } else {
            t
        };
        let intpart: nat = (m / 1000) as nat;
        let frac: nat = (m % 1000) as nat;
        crate::digits::lemma_dec_digits_are_digits(intpart);
        assert(crate::utils::is_all_ascii(spec_frac_digits(frac)));
        assert(crate::utils::is_all_ascii(dec_digits(intpart))) by {
            assert forall|i: int| 0 <= i < dec_digits(intpart).len() implies #[trigger] dec_digits(
                intpart,
            )[i] < 0x80 by {
                assert(crate::utils::is_digit(dec_digits(intpart)[i]));
            }
        }
        let sign: Seq<u8> = if t < 0 {
            seq![0x2du8]
        } else {
            Seq::<u8>::empty()
        };
        crate::utils::lemma_ascii_append(sign, dec_digits(intpart));
        crate::utils::lemma_ascii_append(sign + dec_digits(intpart), seq![0x2eu8]);
        crate::utils::lemma_ascii_append(
            sign + dec_digits(intpart) + seq![0x2eu8],
            spec_frac_digits(frac),
        );
        crate::utils::lemma_ascii_append(before, spec_ser_decimal(t));
    }
}

} // verus!
