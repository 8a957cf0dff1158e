//! The validated primitive family: six scalar kinds, each with
//! construction-time validation and a canonical writer.

mod boolean;
mod byte_sequence;
mod decimal;
mod integer;
mod string;
mod token;

use vstd::prelude::*;
use vstd::string::StringSliceAdditionalSpecFns;

use crate::err::Error;
use crate::utils::{is_all_ascii, is_valid_string, is_valid_token};
use crate::SFVResult;

pub use self::boolean::BareItemBoolean;
pub use self::boolean::spec_ser_boolean;
pub use self::byte_sequence::BareItemByteSeq;
pub use self::byte_sequence::spec_ser_byte_seq;
pub use self::decimal::BareItemDecimal;
pub use self::decimal::dec_in_range;
pub use self::decimal::spec_decimal_thousandths;
pub use self::decimal::spec_ser_decimal;
pub use self::integer::BareItemInteger;
pub use self::integer::int_in_range;
pub use self::integer::spec_ser_integer;
pub use self::string::BareItemString;
pub use self::string::spec_escape;
pub use self::string::spec_ser_string;
pub use self::token::BareItemToken;
pub use self::token::spec_ser_token;
pub use self::decimal::round_half_even_div;
pub use self::decimal::spec_frac_digits;
pub use self::string::lemma_escape_ascii;
pub use self::string::lemma_escape_push;
pub use self::string::lemma_escape_concat;

verus! {

/// One primitive value of any of the six kinds. Each variant wraps its
/// validated newtype, so a `BareItem` can never hold an invalid value.
#[derive(Debug, Clone, PartialEq)]
pub enum BareItem {
    /// A decimal number.
    Decimal(BareItemDecimal),
    /// An integer number.
    Integer(BareItemInteger),
    /// A printable-ASCII string.
    String(BareItemString),
    /// A raw byte sequence.
    ByteSeq(BareItemByteSeq),
    /// A boolean.
    Boolean(BareItemBoolean),
    /// A textual token.
    Token(BareItemToken),
}

/// Canonical wire bytes of one primitive.
pub open spec fn spec_ser_bare_item(b: &BareItem) -> Seq<u8> {
    match b {
        BareItem::Decimal(v) => spec_ser_decimal(v@),
        BareItem::Integer(v) => spec_ser_integer(v@),
        BareItem::String(v) => spec_ser_string(v@),
        BareItem::ByteSeq(v) => spec_ser_byte_seq(v@),
        BareItem::Boolean(v) => spec_ser_boolean(v@),
        BareItem::Token(v) => spec_ser_token(v@),
    }
}

/// Whether a primitive is the boolean `true`, whose wire form is
/// abbreviated in dictionaries and parameters.
pub open spec fn is_boolean_true(b: &BareItem) -> bool {
    b matches BareItem::Boolean(v) && v@ == true
}

impl BareItem {
    /// Creates a decimal from an integer mantissa and a power-of-ten
    /// scale, rounding half-to-even to three fractional digits.
    pub fn new_decimal(mantissa: i128, scale: u32) -> (r: SFVResult<BareItem>)
        ensures
            r is Ok <==> -999_999_999_999_999 <= spec_decimal_thousandths(
                mantissa as int,
                scale as nat,
            ) <= 999_999_999_999_999,
            r matches Ok(b) ==> (b matches BareItem::Decimal(v) && v@
                == spec_decimal_thousandths(mantissa as int, scale as nat)),
            r is Err ==> r == Err::<BareItem, Error>(Error::DecimalOutOfRange),
    {
        match BareItemDecimal::new(mantissa, scale) {
            Ok(v) => Ok(BareItem::Decimal(v)),
            Err(e) => Err(e),
        }
    }

    /// Creates an integer, rejecting values beyond fifteen digits.
    pub fn new_integer(value: i64) -> (r: SFVResult<BareItem>)
        ensures
            r is Ok <==> int_in_range(value),
            r matches Ok(b) ==> (b matches BareItem::Integer(v) && v@ == value as int),
            r is Err ==> r == Err::<BareItem, Error>(Error::IntegerOutOfRange),
    {
        match BareItemInteger::new(value) {
            Ok(v) => Ok(BareItem::Integer(v)),
            Err(e) => Err(e),
        }
    }

    /// Creates a string, rejecting text outside printable ASCII.
    pub fn new_string(value: &str) -> (r: SFVResult<BareItem>)
        ensures
            r is Ok <==> is_valid_string(value.spec_bytes()),
            r matches Ok(b) ==> (b matches BareItem::String(v) && v@ == value.spec_bytes()),
    {
        match BareItemString::new(value) {
            Ok(v) => Ok(BareItem::String(v)),
            Err(e) => Err(e),
        }
    }

    /// Creates a byte sequence; any bytes are accepted.
    pub fn new_byte_seq(value: &[u8]) -> (r: SFVResult<BareItem>)
        ensures
            r matches Ok(b) && (b matches BareItem::ByteSeq(v) && v@ == value@),
    {
        Ok(BareItem::ByteSeq(BareItemByteSeq::new(value)))
    }

    /// Creates a boolean; both values are valid.
    pub fn new_boolean(value: bool) -> (r: SFVResult<BareItem>)
        ensures
            r matches Ok(b) && (b matches BareItem::Boolean(v) && v@ == value),
    {
        Ok(BareItem::Boolean(BareItemBoolean::new(value)))
    }

    /// Creates a token, rejecting text outside the token grammar.
    pub fn new_token(value: &str) -> (r: SFVResult<BareItem>)
        ensures
            r is Ok <==> is_valid_token(value.spec_bytes()),
            r matches Ok(b) ==> (b matches BareItem::Token(v) && v@ == value.spec_bytes()),
    {
        match BareItemToken::new(value) {
            Ok(v) => Ok(BareItem::Token(v)),
            Err(e) => Err(e),
        }
    }

    /// The decimal's thousandths, if this is a decimal.
    pub fn as_decimal(&self) -> (r: Option<BareItemDecimal>)
        ensures
            match self {
                BareItem::Decimal(v) => r matches Some(x) && x@ == v@,
                _ => r is None,
            },
    {
        match self {
            BareItem::Decimal(v) => Some(*v),
            _ => None,
        }
    }

    /// The integer's value, if this is an integer.
    pub fn as_int(&self) -> (r: Option<i64>)
        ensures
            match self {
                BareItem::Integer(v) => r matches Some(x) && x as int == v@,
                _ => r is None,
            },
    {
        match self {
            BareItem::Integer(v) => Some(v.value()),
            _ => None,
        }
    }

    /// The string's text, if this is a string.
    pub fn as_str(&self) -> (r: Option<&str>)
        ensures
            match self {
                BareItem::String(v) => r matches Some(x) && x.spec_bytes() == v@,
                _ => r is None,
            },
    {
        match self {
            BareItem::String(v) => Some(v.as_str()),
            _ => None,
        }
    }

    /// The bytes, if this is a byte sequence.
    pub fn as_byte_seq(&self) -> (r: Option<&[u8]>)
        ensures
            match self {
                BareItem::ByteSeq(v) => r matches Some(x) && x@ == v@,
                _ => r is None,
            },
    {
        match self {
            BareItem::ByteSeq(v) => Some(v.as_slice()),
            _ => None,
        }
    }

    /// The boolean's value, if this is a boolean.
    pub fn as_bool(&self) -> (r: Option<bool>)
        ensures
            match self {
                BareItem::Boolean(v) => r matches Some(x) && x == v@,
                _ => r is None,
            },
    {
        match self {
            BareItem::Boolean(v) => Some(v.value()),
            _ => None,
        }
    }

    /// The token's text, if this is a token.
    pub fn as_token(&self) -> (r: Option<&str>)
        ensures
            match self {
                BareItem::Token(v) => r matches Some(x) && x.spec_bytes() == v@,
                _ => r is None,
            },
    {
        match self {
            BareItem::Token(v) => Some(v.as_str()),
            _ => None,
        }
    }

    /// Appends this primitive's canonical wire bytes. Primitives are valid
    /// by construction, so this cannot fail.
    pub fn write(&self, output: &mut Vec<u8>) -> (r: SFVResult<()>)
        ensures
            r is Ok,
            final(output)@ == old(output)@ + spec_ser_bare_item(self),
            is_all_ascii(old(output)@) ==> is_all_ascii(final(output)@),
    {
        match self {
            BareItem::Integer(v) => {
                let x = v.value();
                BareItemInteger::serialize_ref(&x, output);
            },
            BareItem::Decimal(v) => {
                BareItemDecimal::serialize_ref(v, output);
            },
            BareItem::String(v) => {
                let s = v.as_str();
                proof {
                    assert forall|i: int| 0 <= i < s.spec_bytes().len() implies #[trigger] s
                        .spec_bytes()[i] < 0x80 by {
                        assert(crate::utils::is_visible(s.spec_bytes()[i]));
                    }
                }
                BareItemString::serialize_ref(s, output);
            },
            BareItem::ByteSeq(v) => {
                BareItemByteSeq::serialize_ref(v.as_slice(), output);
            },
            BareItem::Boolean(v) => {
                BareItemBoolean::serialize_ref(v.value(), output);
            },
            BareItem::Token(v) => {
                let s = v.as_str();
                proof {
                    assert forall|i: int| 0 <= i < s.spec_bytes().len() implies #[trigger] s
                        .spec_bytes()[i] < 0x80 by {
                        if i == 0 {
                            assert(crate::utils::is_token_start(s.spec_bytes()[0]));
                        } else {
                            assert(crate::utils::is_token_byte(s.spec_bytes()[i]));
                        }
                    }
                }
                BareItemToken::serialize_ref(s, output);
            },
        }
        Ok(())
    }
}

/// Validates one primitive's natural host value. `spec_validate` is the
/// mathematical statement of the whole check; `validate` returns exactly it.
pub trait ValidateValue<T>: Sized {
    /// What validation returns, as a function of the input.
    spec fn spec_validate(value: T) -> SFVResult<T>;

    /// Runs the validation.
    fn validate(value: T) -> (r: SFVResult<T>)
        ensures
            r == Self::spec_validate(value),
    ;
}

/// Writes one primitive's canonical wire bytes. `spec_written` is the exact
/// byte string appended by `serialize_ref`.
pub trait SerializeBareItem<T>: Sized {
    /// The canonical bytes of the value.
    spec fn spec_written(value: T) -> Seq<u8>;

    /// Inputs whose canonical bytes stay within ASCII.
    spec fn ascii_input(value: T) -> bool;

    /// Appends the canonical bytes of the value to `output`.
    fn serialize_ref(value: T, output: &mut Vec<u8>)
        ensures
            final(output)@ == old(output)@ + Self::spec_written(value),
            crate::utils::is_all_ascii(old(output)@) && Self::ascii_input(value)
                ==> crate::utils::is_all_ascii(final(output)@),
    ;
}

} // verus!
