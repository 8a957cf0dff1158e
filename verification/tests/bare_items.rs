use std::str::FromStr;

use sfv::{BareItem, BareItemDecimal, BareItemInteger, BareItemString, BareItemToken, Error,
    SerializeValue};

#[test]
fn create_non_ascii_string_errors() {
    let disallowed_value: Result<(), &str> =
        BareItemString::new("non-ascii text 🐹").map(|_| ()).map_err(|e| e.message());

    assert_eq!(Err("serialize_string: non-ascii character"), disallowed_value);
}

#[test]
fn create_too_long_decimal_errors() {
    let decimal = rust_decimal::Decimal::from_str("12345678912345.123").unwrap();
    let disallowed_value: Result<(), &str> =
        BareItemDecimal::new(decimal.mantissa(), decimal.scale()).map(|_| ()).map_err(|e| {
            e.message()
        });

    assert_eq!(
        Err("serialize_decimal: integer component > 12 digits"),
        disallowed_value
    );
}

#[test]
fn integer_boundaries() {
    assert!(BareItemInteger::new(999_999_999_999_999).is_ok());
    assert!(BareItemInteger::new(-999_999_999_999_999).is_ok());
    assert_eq!(
        Err(Error::IntegerOutOfRange),
        BareItemInteger::new(1_000_000_000_000_000)
    );
    assert_eq!(
        Err(Error::IntegerOutOfRange),
        BareItem::new_integer(-1_000_000_000_000_000).map(|_| ())
    );
}

#[test]
fn decimal_rounding_half_even() {
    // A wider-precision source slightly above the midpoint rounds up.
    let d = BareItemDecimal::new(13_456_500_000_000_000_128, 18).unwrap();
    assert_eq!(13_457, d.thousandths());
    let item = sfv::Item::new(BareItem::Decimal(d));
    assert_eq!("13.457", item.serialize_value().unwrap());

    // The exact midpoint rounds to the even neighbour.
    let half = BareItemDecimal::new(134_565, 4).unwrap();
    assert_eq!(13_456, half.thousandths());
    let odd_half = BareItemDecimal::new(134_575, 4).unwrap();
    assert_eq!(13_458, odd_half.thousandths());
}

#[test]
fn decimal_whole_values_keep_one_fraction_digit() {
    let two = BareItemDecimal::new(2, 0).unwrap();
    let item = sfv::Item::new(BareItem::Decimal(two));
    assert_eq!("2.0", item.serialize_value().unwrap());
}

#[test]
fn decimal_range_checked_after_rounding() {
    // 999999999999.9999 rounds up and overflows twelve integer digits.
    assert_eq!(
        Err(Error::DecimalOutOfRange),
        BareItemDecimal::new(9_999_999_999_999_999, 4).map(|_| ())
    );
    // 999999999999.999 is the largest representable decimal.
    let max = BareItemDecimal::new(999_999_999_999_999, 3).unwrap();
    assert_eq!(999_999_999_999_999, max.thousandths());
}

#[test]
fn string_validation_rejects_control_characters() {
    assert_eq!(
        Err(Error::StringNotVisible),
        BareItemString::new("a\u{1}b").map(|_| ())
    );
    assert!(BareItemString::new("foo \"bar\" baz").is_ok());
}

#[test]
fn token_validation() {
    assert!(BareItemToken::new("*foo123/456").is_ok());
    assert_eq!(Err(Error::TokenBadFirstChar), BareItemToken::new("1abc").map(|_| ()));
    assert_eq!(Err(Error::TokenBadChar), BareItemToken::new("a,b").map(|_| ()));
    assert_eq!(Err(Error::TokenBadFirstChar), BareItemToken::new("").map(|_| ()));
}

#[test]
fn accessors_return_their_kind_only() {
    let int_item = BareItem::new_integer(42).unwrap();
    assert_eq!(Some(42), int_item.as_int());
    assert_eq!(None, int_item.as_bool());
    assert_eq!(None, int_item.as_str());

    let bool_item = BareItem::new_boolean(true).unwrap();
    assert_eq!(Some(true), bool_item.as_bool());
    assert_eq!(None, bool_item.as_int());

    let str_item = BareItem::new_string("foo").unwrap();
    assert_eq!(Some("foo"), str_item.as_str());

    let tok_item = BareItem::new_token("*bar").unwrap();
    assert_eq!(Some("*bar"), tok_item.as_token());

    let bytes_item = BareItem::new_byte_seq(b"hello").unwrap();
    assert_eq!(Some(&b"hello"[..]), bytes_item.as_byte_seq());

    let dec_item = BareItem::new_decimal(12445, 3).unwrap();
    assert_eq!(12445, dec_item.as_decimal().unwrap().thousandths());
    assert_eq!(None, dec_item.as_int());
}
