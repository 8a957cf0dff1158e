//! The sf-binary primitive.

use vstd::prelude::*;

use super::SerializeBareItem;
use crate::encoding::{base64_encode, base64_of};
use crate::utils::is_all_ascii;

verus! {

/// Canonical wire bytes of a byte sequence: its padded base64 encoding
/// wrapped in colons.
pub open spec fn spec_ser_byte_seq(b: Seq<u8>) -> Seq<u8> {
    seq![0x3au8] + base64_of(b) + seq![0x3au8]
}

/// An sf-binary: an arbitrary byte sequence. Any content is valid, so
/// construction cannot fail.
#[derive(Debug, PartialEq)]
pub struct BareItemByteSeq(pub(crate) Vec<u8>);

impl View for BareItemByteSeq {
    type V = Seq<u8>;

    closed spec fn view(&self) -> Seq<u8> {
        self.0@
    }
}

impl Clone for BareItemByteSeq {
    fn clone(&self) -> (r: Self)
        ensures
            r@ == self@,
    {
        BareItemByteSeq(vstd::slice::slice_to_vec(self.0.as_slice()))
    }
}

impl BareItemByteSeq {
    /// Copies a byte slice into a new byte sequence.
    pub fn new(value: &[u8]) -> (r: BareItemByteSeq)
        ensures
            r@ == value@,
    {
        BareItemByteSeq(vstd::slice::slice_to_vec(value))
    }

    /// Wraps an owned byte vector.
    pub fn from_vec(value: Vec<u8>) -> (r: BareItemByteSeq)
        ensures
            r@ == value@,
    {
        BareItemByteSeq(value)
    }

    /// The wrapped bytes.
    pub fn as_slice(&self) -> (r: &[u8])
        ensures
            r@ == self@,
    {
        self.0.as_slice()
    }
}

impl SerializeBareItem<&[u8]> for BareItemByteSeq {
    open spec fn spec_written(value: &[u8]) -> Seq<u8> {
        spec_ser_byte_seq(value@)
    }

    open spec fn ascii_input(value: &[u8]) -> bool {
        true
    }

    fn serialize_ref(value: &[u8], output: &mut Vec<u8>) {
        output.push(0x3a);
        let mut encoded = base64_encode(value);
        let ghost enc: Seq<u8> = encoded@;
        output.append(&mut encoded);
        output.push(0x3a);
        proof {
            assert(output@ =~= old(output)@ + spec_ser_byte_seq(value@));
            if is_all_ascii(old(output)@) {
                assert forall|i: int| 0 <= i < output@.len() implies #[trigger] output@[i]
                    < 0x80 by {
                    let base = old(output)@.len() as int;
                    if i < base {
                        assert(old(output)@[i] < 0x80);
                    } else if i == base || i == output@.len() - 1 {
                    } else {
                        assert(crate::utils::is_base64_byte(enc[i - base - 1]));
                    }
                }
            }
        }
    }
}

} // verus!
