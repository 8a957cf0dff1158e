//! The incremental encoder: emits the same canonical text as the tree
//! serializer, driven by discrete calls instead of a pre-built value tree.
//!
//! Each writer owns its output buffer and keeps it ASCII by construction.
//! Every call states exactly which canonical bytes it appends — through the
//! same spec functions that pin down the tree serializer — so the two paths
//! produce byte-identical output for the same logical content.

use vstd::prelude::*;
use vstd::string::StringSliceAdditionalSpecFns;
use vstd::utf8::encode_utf8;

use crate::bare_item::{int_in_range, spec_ser_bare_item, spec_ser_boolean, spec_ser_byte_seq,
    spec_ser_decimal, spec_ser_integer, spec_ser_string, spec_ser_token, BareItem,
    BareItemBoolean, BareItemByteSeq, BareItemDecimal, BareItemInteger, BareItemString,
    BareItemToken, SerializeBareItem, ValidateValue};
use crate::encoding::string_from_ascii;
use crate::err::Error;
use crate::serializer::{spec_validate_key, Serializer};
use crate::utils::{is_all_ascii, is_valid_string, is_valid_token};
use crate::{RefBareItem, SFVResult};

verus! {

/// Whether a borrowed primitive is the boolean `true`, whose wire form is
/// abbreviated in parameters and dictionary members.
pub open spec fn is_ref_boolean_true(v: &RefBareItem) -> bool {
    v matches RefBareItem::Boolean(b) && *b == true
}

/// Canonical wire bytes of a borrowed primitive: the same bytes the tree
/// serializer writes for the equivalent validated primitive.
pub open spec fn spec_ser_ref_bare_item(v: &RefBareItem) -> Seq<u8> {
    match v {
        RefBareItem::Integer(x) => spec_ser_integer(*x as int),
        RefBareItem::Decimal(d) => spec_ser_decimal(d@),
        RefBareItem::String(s) => spec_ser_string(s.spec_bytes()),
        RefBareItem::ByteSeq(b) => spec_ser_byte_seq(b@),
        RefBareItem::Boolean(b) => spec_ser_boolean(*b),
        RefBareItem::Token(t) => spec_ser_token(t.spec_bytes()),
    }
}

/// Canonical bytes of one incremental parameter: `;key`, with `=value`
/// unless the value is the boolean `true`.
pub open spec fn spec_ser_ref_parameter(k: Seq<u8>, v: &RefBareItem) -> Seq<u8> {
    seq![0x3bu8] + k + (if is_ref_boolean_true(v) {
        Seq::<u8>::empty()
    } else {
        seq![0x3du8] + spec_ser_ref_bare_item(v)
    })
}

/// Whether a borrowed primitive passes validation, and with which error it
/// fails otherwise.
pub open spec fn spec_ref_bare_item_result(v: &RefBareItem) -> SFVResult<()> {
    match v {
        RefBareItem::Integer(x) => if int_in_range(*x) {
            Ok(())
        } else {
            Err(Error::IntegerOutOfRange)
        },
        RefBareItem::String(s) => match BareItemString::spec_validate(s) {
            Ok(_) => Ok(()),
            Err(e) => Err(e),
        },
        RefBareItem::Token(t) => match BareItemToken::spec_validate(t) {
            Ok(_) => Ok(()),
            Err(e) => Err(e),
        },
        _ => Ok(()),
    }
}

/// The incremental and the tree path write one primitive identically:
/// borrowing a validated primitive preserves its canonical bytes.
pub proof fn lemma_ref_bare_item_matches(b: &BareItem, r: &RefBareItem)
    requires
        match b {
            BareItem::Integer(v) => r matches RefBareItem::Integer(x) && *x as int == v@,
            BareItem::Decimal(v) => r matches RefBareItem::Decimal(x) && x@ == v@,
            BareItem::String(v) => r matches RefBareItem::String(x) && x.spec_bytes() == v@,
            BareItem::ByteSeq(v) => r matches RefBareItem::ByteSeq(x) && x@ == v@,
            BareItem::Boolean(v) => r matches RefBareItem::Boolean(x) && *x == v@,
            BareItem::Token(v) => r matches RefBareItem::Token(x) && x.spec_bytes() == v@,
        },
    ensures
        spec_ser_ref_bare_item(r) == spec_ser_bare_item(b),
{
}

/// Validates a borrowed primitive without writing anything.
fn check_ref_bare_item(value: &RefBareItem) -> (r: SFVResult<()>)
    ensures
        r == spec_ref_bare_item_result(value),
{
    match value {
        RefBareItem::Integer(x) => match BareItemInteger::validate(*x) {
            Ok(_) => Ok(()),
            Err(e) => Err(e),
        },
        RefBareItem::String(s) => match BareItemString::validate(s) {
            Ok(_) => Ok(()),
            Err(e) => Err(e),
        },
        RefBareItem::Token(t) => match BareItemToken::validate(t) {
            Ok(_) => Ok(()),
            Err(e) => Err(e),
        },
        _ => Ok(()),
    }
}

/// Appends a validated borrowed primitive's canonical bytes.
fn write_ref_bare_item(value: &RefBareItem, output: &mut Vec<u8>)
    requires
        spec_ref_bare_item_result(value) is Ok,
    ensures
        final(output)@ == old(output)@ + spec_ser_ref_bare_item(value),
        is_all_ascii(old(output)@) ==> is_all_ascii(final(output)@),
{
    match value {
        RefBareItem::Integer(x) => {
            BareItemInteger::serialize_ref(x, output);
        },
        RefBareItem::Decimal(d) => {
            BareItemDecimal::serialize_ref(d, output);
        },
        RefBareItem::String(s) => {
            proof {
                assert forall|i: int| 0 <= i < s.spec_bytes().len() implies #[trigger] s
                    .spec_bytes()[i] < 0x80 by {
                    assert(crate::utils::is_visible(s.spec_bytes()[i]));
                }
            }
            BareItemString::serialize_ref(s, output);
        },
        RefBareItem::ByteSeq(b) => {
            BareItemByteSeq::serialize_ref(b, output);
        },
        RefBareItem::Boolean(b) => {
            BareItemBoolean::serialize_ref(*b, output);
        },
        RefBareItem::Token(t) => {
            proof {
                assert forall|i: int| 0 <= i < t.spec_bytes().len() implies #[trigger] t
                    .spec_bytes()[i] < 0x80 by {
                    if i == 0 {
                        assert(crate::utils::is_token_start(t.spec_bytes()[0]));
                    } else {
                        assert(crate::utils::is_token_byte(t.spec_bytes()[i]));
                    }
                }
            }
            BareItemToken::serialize_ref(t, output);
        },
    }
}

/// Validates a parameter and appends `;key` or `;key=value`; on an error
/// the buffer is left unchanged.
fn write_ref_parameter(name: &str, value: &RefBareItem, output: &mut Vec<u8>) -> (r: SFVResult<()>)
    ensures
        r is Ok <==> spec_validate_key(name.spec_bytes()) is Ok && spec_ref_bare_item_result(
            value,
        ) is Ok,
        r is Ok ==> final(output)@ == old(output)@ + spec_ser_ref_parameter(
            name.spec_bytes(),
            value,
        ),
        r is Err ==> final(output)@ == old(output)@,
        is_all_ascii(old(output)@) ==> is_all_ascii(final(output)@),
{
    let mut keybuf: Vec<u8> = Vec::new();
    match Serializer::serialize_key(name, &mut keybuf) {
        Ok(_) => {},
        Err(e) => {
            return Err(e);
        },
    }
    match check_ref_bare_item(value) {
        Ok(_) => {},
        Err(e) => {
            return Err(e);
        },
    }
    output.push(0x3b);
    output.append(&mut keybuf);
    let is_true = match value {
        RefBareItem::Boolean(b) => *b,
        _ => false,
    };
    if !is_true {
        output.push(0x3d);
        write_ref_bare_item(value, output);
    }
    proof {
        assert(output@ =~= old(output)@ + spec_ser_ref_parameter(name.spec_bytes(), value));
        if is_all_ascii(old(output)@) {
            assert forall|i: int| 0 <= i < output@.len() implies #[trigger] output@[i] < 0x80 by {
                let base = old(output)@.len() as int;
                let param = spec_ser_ref_parameter(name.spec_bytes(), value);
                if i < base {
                    assert(old(output)@[i] < 0x80);
                } else if i == base {
                } else if i <= base + name.spec_bytes().len() {
                    assert(crate::utils::is_key_byte(name.spec_bytes()[i - base - 1]));
                } else {
                    assert(output@[i] < 0x80);
                }
            }
        }
    }
    Ok(())
}

/// Emits one item incrementally: a bare item, then parameters. Methods
/// consume the encoder and hand it back, so a failed step ends the chain.
pub struct RefItemSerializer {
    pub(crate) output: Vec<u8>,
}

impl View for RefItemSerializer {
    type V = Seq<u8>;

    closed spec fn view(&self) -> Seq<u8> {
        self.output@
    }
}

impl RefItemSerializer {
    #[verifier::type_invariant]
    pub(crate) open spec fn inv(self) -> bool {
        is_all_ascii(self.output@)
    }

    /// An encoder with an empty buffer.
    pub fn new() -> (r: RefItemSerializer)
        ensures
            r@ == Seq::<u8>::empty(),
    {
        RefItemSerializer { output: Vec::new() }
    }

    /// Validates and writes the item's primitive.
    pub fn bare_item(self, value: &RefBareItem) -> (r: SFVResult<RefItemSerializer>)
        ensures
            r is Ok <==> spec_ref_bare_item_result(value) is Ok,
            r matches Ok(s) ==> s@ == self@ + spec_ser_ref_bare_item(value),
            r matches Err(e) ==> spec_ref_bare_item_result(value) == Err::<(), Error>(e),
    {
        proof {
            use_type_invariant(&self);
        }
        let RefItemSerializer { mut output } = self;
        match check_ref_bare_item(value) {
            Ok(_) => {},
            Err(e) => {
                return Err(e);
            },
        }
        write_ref_bare_item(value, &mut output);
        Ok(RefItemSerializer { output })
    }

    /// Validates and writes one parameter of the item.
    pub fn parameter(self, name: &str, value: &RefBareItem) -> (r: SFVResult<RefItemSerializer>)
        ensures
            r is Ok <==> spec_validate_key(name.spec_bytes()) is Ok
                && spec_ref_bare_item_result(value) is Ok,
            r matches Ok(s) ==> s@ == self@ + spec_ser_ref_parameter(name.spec_bytes(), value),
    {
        proof {
            use_type_invariant(&self);
        }
        let RefItemSerializer { mut output } = self;
        match write_ref_parameter(name, value, &mut output) {
            Ok(_) => Ok(RefItemSerializer { output }),
            Err(e) => Err(e),
        }
    }

    /// The canonical text written so far.
    pub fn finish(self) -> (r: String)
        ensures
            encode_utf8(r@) == self@,
    {
        proof {
            use_type_invariant(&self);
        }
        string_from_ascii(self.output)
    }
}

/// Emits a list incrementally: members separated by a comma and one space,
/// inner lists opened and closed member by member. Methods consume the
/// encoder and hand it back.
pub struct RefListSerializer {
    pub(crate) output: Vec<u8>,
    pub(crate) started: bool,
    pub(crate) in_inner: bool,
    pub(crate) inner_started: bool,
}

impl View for RefListSerializer {
    type V = Seq<u8>;

    closed spec fn view(&self) -> Seq<u8> {
        self.output@
    }
}

impl RefListSerializer {
    #[verifier::type_invariant]
    pub(crate) open spec fn inv(self) -> bool {
        is_all_ascii(self.output@)
    }

    /// Whether a member has been written.
    pub closed spec fn started(&self) -> bool {
        self.started
    }

    /// Whether an inner list is open.
    pub closed spec fn in_inner(&self) -> bool {
        self.in_inner
    }

    /// Whether the open inner list has a member.
    pub closed spec fn inner_started(&self) -> bool {
        self.inner_started
    }

    /// The comma-and-space separator owed before a new member.
    pub open spec fn spec_sep(started: bool) -> Seq<u8> {
        if started {
            seq![0x2cu8, 0x20u8]
        } else {
            Seq::<u8>::empty()
        }
    }

    /// An encoder with an empty buffer.
    pub fn new() -> (r: RefListSerializer)
        ensures
            r@ == Seq::<u8>::empty(),
            !r.started(),
            !r.in_inner(),
    {
        RefListSerializer { output: Vec::new(), started: false, in_inner: false,
            inner_started: false }
    }

    /// Validates and writes one item member.
    pub fn bare_item(self, value: &RefBareItem) -> (r: SFVResult<RefListSerializer>)
        requires
            !self.in_inner(),
        ensures
            r is Ok <==> spec_ref_bare_item_result(value) is Ok,
            r matches Ok(s) ==> s@ == self@ + Self::spec_sep(self.started())
                + spec_ser_ref_bare_item(value) && s.started() && !s.in_inner(),
    {
        proof {
            use_type_invariant(&self);
        }
        let RefListSerializer { mut output, started, in_inner, inner_started } = self;
        match check_ref_bare_item(value) {
            Ok(_) => {},
            Err(e) => {
                return Err(e);
            },
        }
        if started {
            output.push(0x2c);
            output.push(0x20);
        }
        write_ref_bare_item(value, &mut output);
        proof {
            assert(output@ =~= self@ + Self::spec_sep(started) + spec_ser_ref_bare_item(value));
        }
        Ok(RefListSerializer { output, started: true, in_inner, inner_started })
    }

    /// Opens an inner-list member.
    pub fn open_inner_list(self) -> (r: RefListSerializer)
        requires
            !self.in_inner(),
        ensures
            r@ == self@ + Self::spec_sep(self.started()) + seq![0x28u8],
            r.started() && r.in_inner() && !r.inner_started(),
    {
        proof {
            use_type_invariant(&self);
        }
        let RefListSerializer { mut output, started, in_inner, inner_started } = self;
        if started {
            output.push(0x2c);
            output.push(0x20);
        }
        output.push(0x28);
        proof {
            assert(output@ =~= self@ + Self::spec_sep(started) + seq![0x28u8]);
        }
        RefListSerializer { output, started: true, in_inner: true, inner_started: false }
    }

    /// Validates and writes one item inside the open inner list.
    pub fn inner_list_bare_item(self, value: &RefBareItem) -> (r: SFVResult<RefListSerializer>)
        requires
            self.in_inner(),
        ensures
            r is Ok <==> spec_ref_bare_item_result(value) is Ok,
            r matches Ok(s) ==> s@ == self@ + (if self.inner_started() {
                seq![0x20u8]
            } else {
                Seq::<u8>::empty()
            }) + spec_ser_ref_bare_item(value) && s.in_inner() && s.inner_started()
                && s.started() == self.started(),
    {
        proof {
            use_type_invariant(&self);
        }
        let RefListSerializer { mut output, started, in_inner, inner_started } = self;
        match check_ref_bare_item(value) {
            Ok(_) => {},
            Err(e) => {
                return Err(e);
            },
        }
        if inner_started {
            output.push(0x20);
        }
        write_ref_bare_item(value, &mut output);
        proof {
            assert(output@ =~= self@ + (if inner_started {
                seq![0x20u8]
            } else {
                Seq::<u8>::empty()
            }) + spec_ser_ref_bare_item(value));
        }
        Ok(RefListSerializer { output, started, in_inner, inner_started: true })
    }

    /// Closes the open inner-list member.
    pub fn close_inner_list(self) -> (r: RefListSerializer)
        requires
            self.in_inner(),
        ensures
            r@ == self@ + seq![0x29u8],
            !r.in_inner() && r.started() == self.started(),
    {
        proof {
            use_type_invariant(&self);
        }
        let RefListSerializer { mut output, started, in_inner, inner_started } = self;
        output.push(0x29);
        proof {
            assert(output@ =~= self@ + seq![0x29u8]);
        }
        RefListSerializer { output, started, in_inner: false, inner_started }
    }

    /// Validates and writes one parameter of the last member written.
    pub fn parameter(self, name: &str, value: &RefBareItem) -> (r: SFVResult<RefListSerializer>)
        requires
            self.started(),
        ensures
            r is Ok <==> spec_validate_key(name.spec_bytes()) is Ok
                && spec_ref_bare_item_result(value) is Ok,
            r matches Ok(s) ==> s@ == self@ + spec_ser_ref_parameter(name.spec_bytes(), value)
                && s.started() == self.started() && s.in_inner() == self.in_inner(),
    {
        proof {
            use_type_invariant(&self);
        }
        let RefListSerializer { mut output, started, in_inner, inner_started } = self;
        match write_ref_parameter(name, value, &mut output) {
            Ok(_) => Ok(RefListSerializer { output, started, in_inner, inner_started }),
            Err(e) => Err(e),
        }
    }

    /// The canonical text written so far; an empty list is refused.
    pub fn finish(self) -> (r: SFVResult<String>)
        ensures
            r is Ok <==> self.started(),
            r matches Ok(s) ==> encode_utf8(s@) == self@,
            r is Err ==> r == Err::<String, Error>(Error::EmptyList),
    {
        proof {
            use_type_invariant(&self);
        }
        if !self.started {
            return Err(Error::EmptyList);
        }
        Ok(string_from_ascii(self.output))
    }
}

/// Emits a dictionary incrementally: keyed members separated by a comma
/// and one space, with boolean-true members abbreviated to their bare key.
/// Methods consume the encoder and hand it back.
pub struct RefDictSerializer {
    pub(crate) output: Vec<u8>,
    pub(crate) started: bool,
    pub(crate) in_inner: bool,
    pub(crate) inner_started: bool,
}

impl View for RefDictSerializer {
    type V = Seq<u8>;

    closed spec fn view(&self) -> Seq<u8> {
        self.output@
    }
}

impl RefDictSerializer {
    #[verifier::type_invariant]
    pub(crate) open spec fn inv(self) -> bool {
        is_all_ascii(self.output@)
    }

    /// Whether a member has been written.
    pub closed spec fn started(&self) -> bool {
        self.started
    }

    /// Whether an inner list is open.
    pub closed spec fn in_inner(&self) -> bool {
        self.in_inner
    }

    /// Whether the open inner list has a member.
    pub closed spec fn inner_started(&self) -> bool {
        self.inner_started
    }

    /// An encoder with an empty buffer.
    pub fn new() -> (r: RefDictSerializer)
        ensures
            r@ == Seq::<u8>::empty(),
            !r.started(),
            !r.in_inner(),
    {
        RefDictSerializer { output: Vec::new(), started: false, in_inner: false,
            inner_started: false }
    }

    /// Validates and writes one item member under its key; a boolean-true
    /// value is abbreviated to the bare key.
    pub fn bare_item_member(self, name: &str, value: &RefBareItem) -> (r: SFVResult<
        RefDictSerializer,
    >)
        requires
            !self.in_inner(),
        ensures
            r is Ok <==> spec_validate_key(name.spec_bytes()) is Ok
                && spec_ref_bare_item_result(value) is Ok,
            r matches Ok(s) ==> s@ == self@ + RefListSerializer::spec_sep(self.started())
                + name.spec_bytes() + (if is_ref_boolean_true(value) {
                Seq::<u8>::empty()
            } else {
                seq![0x3du8] + spec_ser_ref_bare_item(value)
            }) && s.started() && !s.in_inner(),
    {
        proof {
            use_type_invariant(&self);
        }
        let RefDictSerializer { mut output, started, in_inner, inner_started } = self;
        let mut keybuf: Vec<u8> = Vec::new();
        match Serializer::serialize_key(name, &mut keybuf) {
            Ok(_) => {},
            Err(e) => {
                return Err(e);
            },
        }
        match check_ref_bare_item(value) {
            Ok(_) => {},
            Err(e) => {
                return Err(e);
            },
        }
        if started {
            output.push(0x2c);
            output.push(0x20);
        }
        let ghost with_sep = output@;
        output.append(&mut keybuf);
        proof {
            assert forall|i: int| 0 <= i < output@.len() implies #[trigger] output@[i]
                < 0x80 by {
                if i < with_sep.len() {
                    assert(with_sep[i] < 0x80);
                } else {
                    assert(crate::utils::is_key_byte(name.spec_bytes()[i - with_sep.len()]));
                }
            }
        }
        let is_true = match value {
            RefBareItem::Boolean(b) => *b,
            _ => false,
        };
        if !is_true {
            output.push(0x3d);
            write_ref_bare_item(value, &mut output);
        }
        proof {
            assert(output@ =~= self@ + RefListSerializer::spec_sep(started) + name.spec_bytes()
                + (if is_ref_boolean_true(value) {
                Seq::<u8>::empty()
            } else {
                seq![0x3du8] + spec_ser_ref_bare_item(value)
            }));
        }
        Ok(RefDictSerializer { output, started: true, in_inner, inner_started })
    }

    /// Opens an inner-list member under its key.
    pub fn open_inner_list(self, name: &str) -> (r: SFVResult<RefDictSerializer>)
        requires
            !self.in_inner(),
        ensures
            r is Ok <==> spec_validate_key(name.spec_bytes()) is Ok,
            r matches Ok(s) ==> s@ == self@ + RefListSerializer::spec_sep(self.started())
                + name.spec_bytes() + seq![0x3du8, 0x28u8] && s.started() && s.in_inner()
                && !s.inner_started(),
    {
        proof {
            use_type_invariant(&self);
        }
        let RefDictSerializer { mut output, started, in_inner, inner_started } = self;
        let mut keybuf: Vec<u8> = Vec::new();
        match Serializer::serialize_key(name, &mut keybuf) {
            Ok(_) => {},
            Err(e) => {
                return Err(e);
            },
        }
        if started {
            output.push(0x2c);
            output.push(0x20);
        }
        let ghost with_sep = output@;
        output.append(&mut keybuf);
        proof {
            assert forall|i: int| 0 <= i < output@.len() implies #[trigger] output@[i]
                < 0x80 by {
                if i < with_sep.len() {
                    assert(with_sep[i] < 0x80);
                } else {
                    assert(crate::utils::is_key_byte(name.spec_bytes()[i - with_sep.len()]));
                }
            }
        }
        output.push(0x3d);
        output.push(0x28);
        proof {
            assert(output@ =~= self@ + RefListSerializer::spec_sep(started) + name.spec_bytes()
                + seq![0x3du8, 0x28u8]);
        }
        Ok(RefDictSerializer { output, started: true, in_inner: true, inner_started: false })
    }

    /// Validates and writes one item inside the open inner list.
    pub fn inner_list_bare_item(self, value: &RefBareItem) -> (r: SFVResult<RefDictSerializer>)
        requires
            self.in_inner(),
        ensures
            r is Ok <==> spec_ref_bare_item_result(value) is Ok,
            r matches Ok(s) ==> s@ == self@ + (if self.inner_started() {
                seq![0x20u8]
            } else {
                Seq::<u8>::empty()
            }) + spec_ser_ref_bare_item(value) && s.in_inner() && s.inner_started(),
    {
        proof {
            use_type_invariant(&self);
        }
        let RefDictSerializer { mut output, started, in_inner, inner_started } = self;
        match check_ref_bare_item(value) {
            Ok(_) => {},
            Err(e) => {
                return Err(e);
            },
        }
        if inner_started {
            output.push(0x20);
        }
        write_ref_bare_item(value, &mut output);
        proof {
            assert(output@ =~= self@ + (if inner_started {
                seq![0x20u8]
            } else {
                Seq::<u8>::empty()
            }) + spec_ser_ref_bare_item(value));
        }
        Ok(RefDictSerializer { output, started, in_inner, inner_started: true })
    }

    /// Closes the open inner-list member.
    pub fn close_inner_list(self) -> (r: RefDictSerializer)
        requires
            self.in_inner(),
        ensures
            r@ == self@ + seq![0x29u8],
            !r.in_inner() && r.started() == self.started(),
    {
        proof {
            use_type_invariant(&self);
        }
        let RefDictSerializer { mut output, started, in_inner, inner_started } = self;
        output.push(0x29);
        proof {
            assert(output@ =~= self@ + seq![0x29u8]);
        }
        RefDictSerializer { output, started, in_inner: false, inner_started }
    }

    /// Validates and writes one parameter of the last member written.
    pub fn parameter(self, name: &str, value: &RefBareItem) -> (r: SFVResult<RefDictSerializer>)
        requires
            self.started(),
        ensures
            r is Ok <==> spec_validate_key(name.spec_bytes()) is Ok
                && spec_ref_bare_item_result(value) is Ok,
            r matches Ok(s) ==> s@ == self@ + spec_ser_ref_parameter(name.spec_bytes(), value)
                && s.started() == self.started() && s.in_inner() == self.in_inner(),
    {
        proof {
            use_type_invariant(&self);
        }
        let RefDictSerializer { mut output, started, in_inner, inner_started } = self;
        match write_ref_parameter(name, value, &mut output) {
            Ok(_) => Ok(RefDictSerializer { output, started, in_inner, inner_started }),
            Err(e) => Err(e),
        }
    }

    /// The canonical text written so far; an empty dictionary is refused.
    pub fn finish(self) -> (r: SFVResult<String>)
        ensures
            r is Ok <==> self.started(),
            r matches Ok(s) ==> encode_utf8(s@) == self@,
            r is Err ==> r == Err::<String, Error>(Error::EmptyDictionary),
    {
        proof {
            use_type_invariant(&self);
        }
        if !self.started {
            return Err(Error::EmptyDictionary);
        }
        Ok(string_from_ascii(self.output))
    }
}

} // verus!
