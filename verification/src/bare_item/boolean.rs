//! The sf-boolean primitive.

use vstd::prelude::*;

use super::SerializeBareItem;

verus! {

/// Canonical wire bytes of a boolean: `?1` or `?0`.
pub open spec fn spec_ser_boolean(b: bool) -> Seq<u8> {
    if b {
        seq![0x3fu8, 0x31u8]
    } else {
        seq![0x3fu8, 0x30u8]
    }
}

/// An sf-boolean. Every `bool` is valid, so construction cannot fail.
#[derive(Debug, Clone, Copy, PartialEq)]
pub struct BareItemBoolean(pub(crate) bool);

impl View for BareItemBoolean {
    type V = bool;

    closed spec fn view(&self) -> bool {
        self.0
    }
}

impl BareItemBoolean {
    /// Wraps a `bool`.
    pub fn new(value: bool) -> (r: BareItemBoolean)
        ensures
            r@ == value,
    {
        BareItemBoolean(value)
    }

    /// The wrapped `bool`.
    pub fn value(&self) -> (r: bool)
        ensures
            r == self@,
    {
        self.0
    }
}

impl SerializeBareItem<bool> for BareItemBoolean {
    open spec fn spec_written(value: bool) -> Seq<u8> {
        spec_ser_boolean(value)
    }

    open spec fn ascii_input(value: bool) -> bool {
        true
    }

    fn serialize_ref(value: bool, output: &mut Vec<u8>) {
        output.push(0x3f);
        if value {
            output.push(0x31);
        } else {
            output.push(0x30);
        }
        proof {
            assert(output@ =~= old(output)@ + spec_ser_boolean(value));
            if crate::utils::is_all_ascii(old(output)@) {
                assert forall|i: int| 0 <= i < output@.len() implies #[trigger] output@[i]
                    < 0x80 by {
                    if i < old(output)@.len() {
                        assert(old(output)@[i] < 0x80);
                    }
                }
            }
        }
    }
}

} // verus!
