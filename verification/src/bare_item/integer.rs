//! The sf-integer primitive.

use vstd::prelude::*;

use super::{SerializeBareItem, ValidateValue};
use crate::digits::dec_digits;
use crate::digits::push_digits;
use crate::err::Error;
use crate::SFVResult;

verus! {

/// An sf-integer carries at most fifteen decimal digits.
pub open spec fn int_in_range(v: i64) -> bool {
    -999_999_999_999_999 <= v && v <= 999_999_999_999_999
}

/// Canonical wire bytes of an integer: minus sign for negatives, then the
/// decimal digits with no leading zeros.
pub open spec fn spec_ser_integer(v: int) -> Seq<u8> {
    if v < 0 {
        seq![0x2du8] + dec_digits((-v) as nat)
    } else {
        dec_digits(v as nat)
    }
}

/// An sf-integer: a 64-bit signed value within fifteen decimal digits.
#[derive(Debug, Clone, Copy, PartialEq)]
pub struct BareItemInteger(pub(crate) i64);

impl View for BareItemInteger {
    type V = int;

    closed spec fn view(&self) -> int {
        self.0 as int
    }
}

impl BareItemInteger {
    #[verifier::type_invariant]
    pub(crate) open spec fn inv(self) -> bool {
        int_in_range(self.0)
    }

    /// Validates and wraps an `i64`.
    pub fn new(value: i64) -> (r: SFVResult<BareItemInteger>)
        ensures
            r is Ok <==> int_in_range(value),
            r matches Ok(v) ==> v@ == value as int,
            r is Err ==> r == Err::<BareItemInteger, Error>(Error::IntegerOutOfRange),
    {
        match Self::validate(value) {
            Ok(v) => Ok(BareItemInteger(v)),
            Err(e) => Err(e),
        }
    }

    /// The wrapped `i64`.
    pub fn value(&self) -> (r: i64)
        ensures
            r as int == self@,
            int_in_range(r),
    {
        proof {
            use_type_invariant(self);
        }
        self.0
    }
}

impl ValidateValue<i64> for BareItemInteger {
    open spec fn spec_validate(value: i64) -> SFVResult<i64> {
        if int_in_range(value) {
            Ok(value)
        } else {
            Err(Error::IntegerOutOfRange)
        }
    }

    fn validate(value: i64) -> SFVResult<i64> {
        if -999_999_999_999_999 <= value && value <= 999_999_999_999_999 {
            Ok(value)
        } else {
            Err(Error::IntegerOutOfRange)
        }
    }
}

impl SerializeBareItem<&i64> for BareItemInteger {
    open spec fn spec_written(value: &i64) -> Seq<u8> {
        spec_ser_integer(*value as int)
    }

    open spec fn ascii_input(value: &i64) -> bool {
        true
    }

    fn serialize_ref(value: &i64, output: &mut Vec<u8>) {
        let v = *value;
        if v < 0 {
            output.push(0x2d);
            let m: u64 = if v == i64::MIN {
                9_223_372_036_854_775_808u64
            } else {
                (-v) as u64
            };
            push_digits(m, output);
            proof {
                assert(output@ =~= old(output)@ + spec_ser_integer(v as int));
                lemma_serialized_integer_ascii(v as int, old(output)@, output@);
            }
        } else {
            push_digits(v as u64, output);
            proof {
                assert(output@ =~= old(output)@ + spec_ser_integer(v as int));
                lemma_serialized_integer_ascii(v as int, old(output)@, output@);
            }
        }
    }
}

proof fn lemma_serialized_integer_ascii(v: int, before: Seq<u8>, after: Seq<u8>)
    requires
        after == before + spec_ser_integer(v),
    ensures
        crate::utils::is_all_ascii(before) ==> crate::utils::is_all_ascii(after),
{
    if crate::utils::is_all_ascii(before) {
        let m: nat = if v < 0 {
            (-v) as nat
        } else {
            v as nat
        };
        crate::digits::lemma_dec_digits_are_digits(m);
        assert forall|i: int| 0 <= i < spec_ser_integer(v).len() implies #[trigger] spec_ser_integer(
            v,
        )[i] < 0x80 by {
            if v < 0 {
                if i > 0 {
                    assert(crate::utils::is_digit(dec_digits(m)[i - 1]));
                }
            } else {
                assert(crate::utils::is_digit(dec_digits(m)[i]));
            }
        }
        crate::utils::lemma_ascii_append(before, spec_ser_integer(v));
    }
}

} // verus!
