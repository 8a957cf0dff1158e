//! The sf-token primitive.

use vstd::prelude::*;
use vstd::string::StringSliceAdditionalSpecFns;
use vstd::utf8::encode_utf8;

use super::{SerializeBareItem, ValidateValue};
use crate::err::Error;
use crate::utils::{is_all_ascii, is_token_byte, is_token_start, is_valid_token, token_byte,
    token_start};
use crate::SFVResult;

verus! {

/// Canonical wire bytes of a token: the text itself.
pub open spec fn spec_ser_token(s: Seq<u8>) -> Seq<u8> {
    s
}

/// An sf-token: a short textual word starting with ALPHA or `*`, validated
/// at construction. Its view is the byte sequence of the text.
#[derive(Debug, PartialEq)]
pub struct BareItemToken(pub(crate) String);

impl View for BareItemToken {
    type V = Seq<u8>;

    closed spec fn view(&self) -> Seq<u8> {
        encode_utf8(self.0@)
    }
}

impl Clone for BareItemToken {
    fn clone(&self) -> (r: Self)
        ensures
            r@ == self@,
    {
        proof {
            use_type_invariant(self);
        }
        BareItemToken(self.0.clone())
    }
}

impl BareItemToken {
    #[verifier::type_invariant]
    pub(crate) open spec fn inv(self) -> bool {
        is_valid_token(self@)
    }

    /// Validates and wraps a text.
    pub fn new(value: &str) -> (r: SFVResult<BareItemToken>)
        ensures
            r is Ok <==> is_valid_token(value.spec_bytes()),
            r matches Ok(v) ==> v@ == value.spec_bytes(),
            r is Err ==> r == Err::<BareItemToken, Error>(Self::spec_validate(value)->Err_0),
    {
        match Self::validate(value) {
            Ok(v) => Ok(BareItemToken(v.to_owned())),
            Err(e) => Err(e),
        }
    }

    /// Wraps text already known to satisfy the token grammar.
    pub(crate) fn from_validated(s: String) -> (r: BareItemToken)
        requires
            is_valid_token(encode_utf8(s@)),
        ensures
            r@ == encode_utf8(s@),
    {
        BareItemToken(s)
    }

    /// The wrapped text.
    pub fn as_str(&self) -> (r: &str)
        ensures
            r.spec_bytes() == self@,
            is_valid_token(self@),
    {
        proof {
            use_type_invariant(self);
        }
        self.0.as_str()
    }
}

impl<'a> ValidateValue<&'a str> for BareItemToken {
    open spec fn spec_validate(value: &'a str) -> SFVResult<&'a str> {
        if !is_all_ascii(value.spec_bytes()) {
            Err(Error::StringNonAscii)
        } else if value.spec_bytes().len() == 0 || !is_token_start(value.spec_bytes()[0]) {
            Err(Error::TokenBadFirstChar)
        } else if exists|i: int|
            0 < i < value.spec_bytes().len() && !is_token_byte(#[trigger] value.spec_bytes()[i]) {
            Err(Error::TokenBadChar)
        } else {
            Ok(value)
        }
    }

    fn validate(value: &'a str) -> (r: SFVResult<&'a str>) {
        let bytes = value.as_bytes();
        let n = bytes.len();
        let mut i: usize = 0;
        while i < n
            invariant
                n == bytes@.len(),
                bytes@ == value.spec_bytes(),
                i <= n,
                forall|j: int| 0 <= j < i ==> #[trigger] bytes@[j] < 0x80,
            decreases n - i,
        {
            if bytes[i] >= 0x80 {
                return Err(Error::StringNonAscii);
            }
            i = i + 1;
        }
        if n == 0 || !token_start(bytes[0]) {
            return Err(Error::TokenBadFirstChar);
        }
        let mut k: usize = 1;
        while k < n
            invariant
                n == bytes@.len(),
                bytes@ == value.spec_bytes(),
                is_all_ascii(bytes@),
                n > 0 && is_token_start(bytes@[0]),
                1 <= k <= n,
                forall|j: int| 0 < j < k ==> is_token_byte(#[trigger] bytes@[j]),
            decreases n - k,
        {
            if !token_byte(bytes[k]) {
                return Err(Error::TokenBadChar);
            }
            k = k + 1;
        }
        Ok(value)
    }
}

impl SerializeBareItem<&str> for BareItemToken {
    open spec fn spec_written(value: &str) -> Seq<u8> {
        spec_ser_token(value.spec_bytes())
    }

    open spec fn ascii_input(value: &str) -> bool {
        is_all_ascii(value.spec_bytes())
    }

    fn serialize_ref(value: &str, output: &mut Vec<u8>) {
        let bytes = value.as_bytes();
        let mut copied = vstd::slice::slice_to_vec(bytes);
        output.append(&mut copied);
        proof {
            if is_all_ascii(old(output)@) && is_all_ascii(value.spec_bytes()) {
                crate::utils::lemma_ascii_append(old(output)@, value.spec_bytes());
            }
        }
    }
}

} // verus!
