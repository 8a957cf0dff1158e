//! The trusted boundary of the crate: base64 through `data_encoding`, and
//! construction of `String`s from bytes already known to be ASCII.

use vstd::prelude::*;
use vstd::utf8::encode_utf8;

use crate::utils::{is_all_ascii, is_base64_byte};

verus! {

/// The standard padded base64 encoding (RFC 4648) of a byte sequence, as
/// produced by `data_encoding::BASE64`. The crate documents its encoding
/// functions as deterministic: the output depends on the input alone, so
/// the encoding can be named as a function.
pub uninterp spec fn base64_of(s: Seq<u8>) -> Seq<u8>;

/// Relies on `data_encoding::BASE64.encode`: standard base64 with padding.
/// The result is a function of the input alone; it is four bytes for every
/// three input bytes (rounded up by padding) and is drawn from the base64
/// alphabet `A-Z a-z 0-9 + / =`.
#[verifier::external_body]
pub(crate) fn base64_encode(input: &[u8]) -> (r: Vec<u8>)
    ensures
        r@ == base64_of(input@),
        r@.len() == 4 * ((input@.len() + 2) / 3),
        forall|i: int| 0 <= i < r@.len() ==> is_base64_byte(#[trigger] r@[i]),
{
    data_encoding::BASE64.encode(input).into_bytes()
}

/// Relies on `data_encoding::BASE64.decode`: decoding rejects input whose
/// length, alphabet, padding or trailing bits are invalid, and the crate
/// documents that encoding followed by decoding gives the initial data, so
/// every encoder output decodes to the bytes it came from.
#[verifier::external_body]
pub(crate) fn base64_decode(input: &[u8]) -> (r: Option<Vec<u8>>)
    ensures
        r is None ==> forall|b: Seq<u8>| input@ != base64_of(b),
        r matches Some(v) ==> forall|b: Seq<u8>| input@ == base64_of(b) ==> v@ == b,
{
    match data_encoding::BASE64.decode(input) {
        Ok(v) => Some(v),
        Err(_) => None,
    }
}

/// Relies on `String::from_utf8`: ASCII bytes are valid UTF-8 and convert
/// to the text with exactly those bytes.
#[verifier::external_body]
pub(crate) fn string_from_ascii(v: Vec<u8>) -> (r: String)
    requires
        is_all_ascii(v@),
    ensures
        encode_utf8(r@) == v@,
{
    match String::from_utf8(v) {
        Ok(s) => s,
        Err(_) => String::new(),
    }
}

} // verus!
