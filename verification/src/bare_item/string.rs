//! The sf-string primitive.

use vstd::prelude::*;
use vstd::string::StringSliceAdditionalSpecFns;
use vstd::utf8::encode_utf8;

use super::{SerializeBareItem, ValidateValue};
use crate::err::Error;
use crate::utils::{is_all_ascii, is_valid_string, is_visible, visible};
use crate::SFVResult;

verus! {

/// The string body with `\` and `"` backslash-escaped.
pub open spec fn spec_escape(s: Seq<u8>) -> Seq<u8>
    decreases s.len(),
{
    if s.len() == 0 {
        seq![]
    } else {
        (if s[0] == 0x5c || s[0] == 0x22 {
            seq![0x5cu8, s[0]]
        } else {
            seq![s[0]]
        }) + spec_escape(s.skip(1))
    }
}

/// Canonical wire bytes of a string: the escaped body wrapped in quotes.
pub open spec fn spec_ser_string(s: Seq<u8>) -> Seq<u8> {
    seq![0x22u8] + spec_escape(s) + seq![0x22u8]
}

pub proof fn lemma_escape_push(s: Seq<u8>, x: u8)
    ensures
        spec_escape(s.push(x)) == spec_escape(s) + (if x == 0x5c || x == 0x22 {
            seq![0x5cu8, x]
        } else {
            seq![x]
        }),
    decreases s.len(),
{
    if s.len() == 0 {
        let e = Seq::<u8>::empty();
        assert(s.push(x).skip(1) =~= e);
        assert(spec_escape(e) == e);
        assert(spec_escape(s) == e);
        assert(spec_escape(s.push(x)) =~= spec_escape(s) + (if x == 0x5c || x == 0x22 {
            seq![0x5cu8, x]
        } else {
            seq![x]
        }));
    } else {
        assert(s.push(x).skip(1) =~= s.skip(1).push(x));
        lemma_escape_push(s.skip(1), x);
        assert(spec_escape(s.push(x)) =~= spec_escape(s) + (if x == 0x5c || x == 0x22 {
            seq![0x5cu8, x]
        } else {
            seq![x]
        }));
    }
}

pub proof fn lemma_escape_concat(a: Seq<u8>, b: Seq<u8>)
    ensures
        spec_escape(a + b) == spec_escape(a) + spec_escape(b),
    decreases a.len(),
{
    if a.len() == 0 {
        assert(a + b =~= b);
        assert(spec_escape(a) =~= Seq::<u8>::empty());
        assert(spec_escape(a + b) =~= spec_escape(a) + spec_escape(b));
    } else {
        assert((a + b).skip(1) =~= a.skip(1) + b);
        lemma_escape_concat(a.skip(1), b);
        assert((a + b)[0] == a[0]);
        assert(spec_escape(a + b) =~= spec_escape(a) + spec_escape(b));
    }
}

pub proof fn lemma_escape_ascii(s: Seq<u8>)
    requires
        is_all_ascii(s),
    ensures
        is_all_ascii(spec_escape(s)),
    decreases s.len(),
{
    if s.len() > 0 {
        assert forall|i: int| 0 <= i < s.skip(1).len() implies #[trigger] s.skip(1)[i] < 0x80 by {
            assert(s[i + 1] < 0x80);
        }
        lemma_escape_ascii(s.skip(1));
        let head: Seq<u8> = if s[0] == 0x5c || s[0] == 0x22 {
            seq![0x5cu8, s[0]]
        } else {
            seq![s[0]]
        };
        assert(is_all_ascii(head));
        crate::utils::lemma_ascii_append(head, spec_escape(s.skip(1)));
    }
}

/// An sf-string: zero or more printable-ASCII characters, validated at
/// construction. Its view is the byte sequence of the text.
#[derive(Debug, PartialEq)]
pub struct BareItemString(pub(crate) String);

impl View for BareItemString {
    type V = Seq<u8>;

    closed spec fn view(&self) -> Seq<u8> {
        encode_utf8(self.0@)
    }
}

impl Clone for BareItemString {
    fn clone(&self) -> (r: Self)
        ensures
            r@ == self@,
    {
        proof {
            use_type_invariant(self);
        }
        BareItemString(self.0.clone())
    }
}

impl BareItemString {
    #[verifier::type_invariant]
    pub(crate) open spec fn inv(self) -> bool {
        is_valid_string(self@)
    }

    /// Validates and wraps a text.
    pub fn new(value: &str) -> (r: SFVResult<BareItemString>)
        ensures
            r is Ok <==> is_valid_string(value.spec_bytes()),
            r matches Ok(v) ==> v@ == value.spec_bytes(),
            !is_all_ascii(value.spec_bytes()) ==> r == Err::<BareItemString, Error>(
                Error::StringNonAscii,
            ),
            is_all_ascii(value.spec_bytes()) && !is_valid_string(value.spec_bytes()) ==> r
                == Err::<BareItemString, Error>(Error::StringNotVisible),
    {
        match Self::validate(value) {
            Ok(v) => Ok(BareItemString(v.to_owned())),
            Err(e) => Err(e),
        }
    }

    /// Wraps text already known to satisfy the string grammar.
    pub(crate) fn from_validated(s: String) -> (r: BareItemString)
        requires
            is_valid_string(encode_utf8(s@)),
        ensures
            r@ == encode_utf8(s@),
    {
        BareItemString(s)
    }

    /// The wrapped text.
    pub fn as_str(&self) -> (r: &str)
        ensures
            r.spec_bytes() == self@,
            is_valid_string(self@),
    {
        proof {
            use_type_invariant(self);
        }
        self.0.as_str()
    }
}

impl<'a> ValidateValue<&'a str> for BareItemString {
    open spec fn spec_validate(value: &'a str) -> SFVResult<&'a str> {
        if !is_all_ascii(value.spec_bytes()) {
            Err(Error::StringNonAscii)
        } else if !is_valid_string(value.spec_bytes()) {
            Err(Error::StringNotVisible)
        } else {
            Ok(value)
        }
    }

    fn validate(value: &'a str) -> (r: SFVResult<&'a str>) {
        let bytes = value.as_bytes();
        let n = bytes.len();
        let mut i: usize = 0;
        while i < n
            invariant
                n == bytes@.len(),
                bytes@ == value.spec_bytes(),
                i <= n,
                forall|j: int| 0 <= j < i ==> #[trigger] bytes@[j] < 0x80,
            decreases n - i,
        {
            if bytes[i] >= 0x80 {
                return Err(Error::StringNonAscii);
            }
            i = i + 1;
        }
        let mut k: usize = 0;
        while k < n
            invariant
                n == bytes@.len(),
                bytes@ == value.spec_bytes(),
                is_all_ascii(bytes@),
                k <= n,
                forall|j: int| 0 <= j < k ==> is_visible(#[trigger] bytes@[j]),
            decreases n - k,
        {
            if !visible(bytes[k]) {
                return Err(Error::StringNotVisible);
            }
            k = k + 1;
        }
        Ok(value)
    }
}

impl SerializeBareItem<&str> for BareItemString {
    open spec fn spec_written(value: &str) -> Seq<u8> {
        spec_ser_string(value.spec_bytes())
    }

    open spec fn ascii_input(value: &str) -> bool {
        is_all_ascii(value.spec_bytes())
    }

    fn serialize_ref(value: &str, output: &mut Vec<u8>) {
        let bytes = value.as_bytes();
        let n = bytes.len();
        output.push(0x22);
        let mut i: usize = 0;
        while i < n
            invariant
                n == bytes@.len(),
                bytes@ == value.spec_bytes(),
                i <= n,
                output@ == old(output)@ + seq![0x22u8] + spec_escape(bytes@.take(i as int)),
            decreases n - i,
        {
            let b = bytes[i];
            if b == 0x5c || b == 0x22 {
                output.push(0x5c);
            }
            output.push(b);
            proof {
                lemma_escape_push(bytes@.take(i as int), b);
                assert(bytes@.take(i + 1) =~= bytes@.take(i as int).push(b));
                assert(output@ =~= old(output)@ + seq![0x22u8] + spec_escape(
                    bytes@.take(i + 1),
                ));
            }
            i = i + 1;
        }
        output.push(0x22);
        proof {
            assert(bytes@.take(n as int) =~= bytes@);
            assert(output@ =~= old(output)@ + spec_ser_string(value.spec_bytes()));
            if is_all_ascii(old(output)@) && is_all_ascii(bytes@) {
                lemma_escape_ascii(bytes@);
                crate::utils::lemma_ascii_append(seq![0x22u8], spec_escape(bytes@));
                crate::utils::lemma_ascii_append(
                    seq![0x22u8] + spec_escape(bytes@),
                    seq![0x22u8],
                );
                crate::utils::lemma_ascii_append(old(output)@, spec_ser_string(bytes@));
            }
        }
    }
}

} // verus!
