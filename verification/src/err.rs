//! Error kinds raised while validating, serializing or parsing
//! structured field values.

use vstd::prelude::*;

verus! {

/// Everything that can go wrong in this crate, as a closed set of kinds:
/// range violations of the numeric types, character-class violations of the
/// textual types and keys, grammar errors found while parsing, and the
/// policy that forbids serializing empty lists and dictionaries.
#[derive(Debug, Clone, Copy, PartialEq, Eq, Structural)]
pub enum Error {
    /// An integer lies outside [-999_999_999_999_999, 999_999_999_999_999].
    IntegerOutOfRange,
    /// A decimal's integer component exceeds 12 digits after rounding.
    DecimalOutOfRange,
    /// A string holds a byte outside printable ASCII.
    StringNonAscii,
    /// A string holds a control character.
    StringNotVisible,
    /// A token's first character is not ALPHA or `*`.
    TokenBadFirstChar,
    /// A token holds a character outside `tchar`, `:`, `/`.
    TokenBadChar,
    /// A key's first character is not lowercase ALPHA or `*`.
    KeyBadFirstChar,
    /// A key holds a disallowed character.
    KeyBadChar,
    /// An empty list was handed to the serializer.
    EmptyList,
    /// An empty dictionary was handed to the serializer.
    EmptyDictionary,
    /// The parser met a character the grammar does not allow here.
    ParseUnexpectedChar,
    /// The input ended where the grammar demands more.
    ParseUnexpectedEnd,
    /// Non-whitespace input remained after the parsed value.
    ParseTrailingCharacters,
    /// A number carries more digits than the grammar allows.
    ParseTooManyDigits,
    /// A decimal carries more than three fractional digits, or none.
    ParseBadFraction,
    /// A quoted string holds a disallowed character or escape.
    ParseInvalidString,
    /// A quoted string is missing its closing quote.
    ParseUnterminatedString,
    /// A byte sequence's base64 body does not decode.
    ParseInvalidByteSeq,
    /// A byte sequence is missing its closing colon.
    ParseUnterminatedByteSeq,
    /// A `?` is not followed by `0` or `1`.
    ParseInvalidBoolean,
    /// An inner list is missing its closing parenthesis.
    ParseUnterminatedInnerList,
}

impl Error {
    /// A short human-readable description of the error.
    pub fn message(&self) -> &'static str {
        match self {
            Error::IntegerOutOfRange => "serialize_integer: integer is out of range",
            Error::DecimalOutOfRange => "serialize_decimal: integer component > 12 digits",
            Error::StringNonAscii => "serialize_string: non-ascii character",
            Error::StringNotVisible => "serialize_string: not a visible character",
            Error::TokenBadFirstChar => "serialise_token: first character is not ALPHA or '*'",
            Error::TokenBadChar => "serialise_token: disallowed character",
            Error::KeyBadFirstChar => "serialize_key: first character is not lcalpha or '*'",
            Error::KeyBadChar => "serialize_key: disallowed character in input",
            Error::EmptyList => "serialize_list: serializing empty field is not allowed",
            Error::EmptyDictionary => {
                "serialize_dictionary: serializing empty field is not allowed"
            },
            Error::ParseUnexpectedChar => "parse: unexpected character",
            Error::ParseUnexpectedEnd => "parse: unexpected end of input",
            Error::ParseTrailingCharacters => "parse: trailing characters after parsed value",
            Error::ParseTooManyDigits => "parse_number: too many digits",
            Error::ParseBadFraction => "parse_number: bad fractional part",
            Error::ParseInvalidString => "parse_string: disallowed character",
            Error::ParseUnterminatedString => "parse_string: unterminated string",
            Error::ParseInvalidByteSeq => "parse_byte_seq: invalid base64",
            Error::ParseUnterminatedByteSeq => "parse_byte_seq: unterminated byte sequence",
            Error::ParseInvalidBoolean => "parse_bool: invalid boolean",
            Error::ParseUnterminatedInnerList => "parse_inner_list: unterminated inner list",
        }
    }
}

} // verus!
