//! The canonical serializer: one exact wire form for every value tree.
//!
//! Every byte written is pinned down by spec functions over the model, and
//! every failure is pinned down by spec result functions: serialization
//! fails exactly on an empty list or dictionary and on a key outside the
//! key grammar, with the first offender deciding the error.

use vstd::prelude::*;
use vstd::string::StringSliceAdditionalSpecFns;
use vstd::utf8::encode_utf8;

use crate::bare_item::{is_boolean_true, spec_ser_bare_item, BareItem};
use crate::encoding::string_from_ascii;
use crate::err::Error;
use crate::utils::{is_all_ascii, is_key_byte, is_key_start, key_byte, key_start};
use crate::{Dictionary, InnerList, Item, List, ListEntry, Parameters, SFVResult};

verus! {

/// What serializing a key returns: the grammar check that runs before the
/// key's bytes are written.
pub open spec fn spec_validate_key(k: Seq<u8>) -> SFVResult<()> {
    if exists|i: int| 0 <= i < k.len() && !is_key_byte(#[trigger] k[i]) {
        Err(Error::KeyBadChar)
    } else if k.len() == 0 || !is_key_start(k[0]) {
        Err(Error::KeyBadFirstChar)
    } else {
        Ok(())
    }
}

/// Canonical bytes of one parameter: `;key`, with `=value` unless the
/// value is the boolean `true`.
pub open spec fn spec_ser_parameter(k: Seq<u8>, v: &BareItem) -> Seq<u8> {
    seq![0x3bu8] + k + (if is_boolean_true(v) {
        Seq::<u8>::empty()
    } else {
        seq![0x3du8] + spec_ser_bare_item(v)
    })
}

/// Canonical bytes of a parameter map, in insertion order.
pub open spec fn spec_ser_parameters(p: Seq<(Seq<u8>, BareItem)>) -> Seq<u8>
    decreases p.len(),
{
    if p.len() == 0 {
        Seq::<u8>::empty()
    } else {
        spec_ser_parameters(p.drop_last()) + spec_ser_parameter(p.last().0, &p.last().1)
    }
}

/// The first key error in a parameter map, if any.
pub open spec fn spec_params_result(p: Seq<(Seq<u8>, BareItem)>) -> SFVResult<()>
    decreases p.len(),
{
    if p.len() == 0 {
        Ok(())
    } else if spec_params_result(p.drop_last()) is Err {
        spec_params_result(p.drop_last())
    } else {
        spec_validate_key(p.last().0)
    }
}

/// Canonical bytes of an item: its primitive, then its parameters.
pub open spec fn spec_ser_item(it: &Item) -> Seq<u8> {
    spec_ser_bare_item(&it.bare_item) + spec_ser_parameters(it.params@)
}

/// The outcome of serializing an item: its parameter keys decide.
pub open spec fn spec_item_result(it: &Item) -> SFVResult<()> {
    spec_params_result(it.params@)
}

/// Canonical bytes of inner-list members, joined by single spaces.
pub open spec fn spec_ser_items_spaced(items: Seq<Item>) -> Seq<u8>
    decreases items.len(),
{
    if items.len() == 0 {
        Seq::<u8>::empty()
    } else if items.len() == 1 {
        spec_ser_item(&items[0])
    } else {
        spec_ser_items_spaced(items.drop_last()) + seq![0x20u8] + spec_ser_item(&items.last())
    }
}

/// The first error among inner-list members.
pub open spec fn spec_items_result(items: Seq<Item>) -> SFVResult<()>
    decreases items.len(),
{
    if items.len() == 0 {
        Ok(())
    } else if spec_items_result(items.drop_last()) is Err {
        spec_items_result(items.drop_last())
    } else {
        spec_item_result(&items.last())
    }
}

/// Canonical bytes of an inner list: parenthesized members, then the
/// list's parameters.
pub open spec fn spec_ser_inner_list(l: &InnerList) -> Seq<u8> {
    seq![0x28u8] + spec_ser_items_spaced(l.items@) + seq![0x29u8] + spec_ser_parameters(l.params@)
}

/// The outcome of serializing an inner list: members first, then its own
/// parameter keys.
pub open spec fn spec_inner_list_result(l: &InnerList) -> SFVResult<()> {
    if spec_items_result(l.items@) is Err {
        spec_items_result(l.items@)
    } else {
        spec_params_result(l.params@)
    }
}

/// Canonical bytes of one list member.
pub open spec fn spec_ser_list_entry(e: &ListEntry) -> Seq<u8> {
    match e {
        ListEntry::Item(it) => spec_ser_item(it),
        ListEntry::InnerList(l) => spec_ser_inner_list(l),
    }
}

/// The outcome of serializing one list member.
pub open spec fn spec_entry_result(e: &ListEntry) -> SFVResult<()> {
    match e {
        ListEntry::Item(it) => spec_item_result(it),
        ListEntry::InnerList(l) => spec_inner_list_result(l),
    }
}

/// Canonical bytes of list members, joined by a comma and one space.
pub open spec fn spec_ser_list(l: Seq<ListEntry>) -> Seq<u8>
    decreases l.len(),
{
    if l.len() == 0 {
        Seq::<u8>::empty()
    } else if l.len() == 1 {
        spec_ser_list_entry(&l[0])
    } else {
        spec_ser_list(l.drop_last()) + seq![0x2cu8, 0x20u8] + spec_ser_list_entry(&l.last())
    }
}

/// The first error among list members.
pub open spec fn spec_entries_result(l: Seq<ListEntry>) -> SFVResult<()>
    decreases l.len(),
{
    if l.len() == 0 {
        Ok(())
    } else if spec_entries_result(l.drop_last()) is Err {
        spec_entries_result(l.drop_last())
    } else {
        spec_entry_result(&l.last())
    }
}

/// The outcome of serializing a whole list: an empty list is refused.
pub open spec fn spec_list_result(l: Seq<ListEntry>) -> SFVResult<()> {
    if l.len() == 0 {
        Err(Error::EmptyList)
    } else {
        spec_entries_result(l)
    }
}

/// Canonical bytes of one dictionary member: the key, then `=` and the
/// member unless it is a boolean-true item, whose value is left implicit.
pub open spec fn spec_ser_dict_member(k: Seq<u8>, e: &ListEntry) -> Seq<u8> {
    k + (match e {
        ListEntry::Item(it) => if is_boolean_true(&it.bare_item) {
            spec_ser_parameters(it.params@)
        } else {
            seq![0x3du8] + spec_ser_item(it)
        },
        ListEntry::InnerList(l) => seq![0x3du8] + spec_ser_inner_list(l),
    })
}

/// The outcome of serializing one dictionary member: its key first, then
/// the member itself.
pub open spec fn spec_dict_member_result(k: Seq<u8>, e: &ListEntry) -> SFVResult<()> {
    if spec_validate_key(k) is Err {
        spec_validate_key(k)
    } else {
        match e {
            ListEntry::Item(it) => spec_params_result(it.params@),
            ListEntry::InnerList(l) => spec_inner_list_result(l),
        }
    }
}

/// Canonical bytes of dictionary members, joined by a comma and one space.
pub open spec fn spec_ser_dict(d: Seq<(Seq<u8>, ListEntry)>) -> Seq<u8>
    decreases d.len(),
{
    if d.len() == 0 {
        Seq::<u8>::empty()
    } else if d.len() == 1 {
        spec_ser_dict_member(d[0].0, &d[0].1)
    } else {
        spec_ser_dict(d.drop_last()) + seq![0x2cu8, 0x20u8] + spec_ser_dict_member(
            d.last().0,
            &d.last().1,
        )
    }
}

/// The first error among dictionary members.
pub open spec fn spec_dict_entries_result(d: Seq<(Seq<u8>, ListEntry)>) -> SFVResult<()>
    decreases d.len(),
{
    if d.len() == 0 {
        Ok(())
    } else if spec_dict_entries_result(d.drop_last()) is Err {
        spec_dict_entries_result(d.drop_last())
    } else {
        spec_dict_member_result(d.last().0, &d.last().1)
    }
}

/// The outcome of serializing a whole dictionary: an empty dictionary is
/// refused.
pub open spec fn spec_dict_result(d: Seq<(Seq<u8>, ListEntry)>) -> SFVResult<()> {
    if d.len() == 0 {
        Err(Error::EmptyDictionary)
    } else {
        spec_dict_entries_result(d)
    }
}

/// Serializes a whole field value into its canonical text. `spec_result`
/// is the exact outcome: the canonical bytes, or the error.
pub trait SerializeValue {
    /// The exact outcome of serializing this value.
    spec fn spec_result(&self) -> SFVResult<Seq<u8>>;

    /// Serializes this value into its canonical text.
    fn serialize_value(&self) -> (r: SFVResult<String>)
        ensures
            r matches Ok(s) ==> (self.spec_result() matches Ok(b) && encode_utf8(s@) == b),
            r matches Err(e) ==> self.spec_result() == Err::<Seq<u8>, Error>(e),
    ;
}

impl SerializeValue for Item {
    open spec fn spec_result(&self) -> SFVResult<Seq<u8>> {
        match spec_item_result(self) {
            Ok(_) => Ok(spec_ser_item(self)),
            Err(e) => Err(e),
        }
    }

    fn serialize_value(&self) -> (r: SFVResult<String>) {
        let mut out: Vec<u8> = Vec::new();
        match Serializer::serialize_item(self, &mut out) {
            Ok(_) => Ok(string_from_ascii(out)),
            Err(e) => Err(e),
        }
    }
}

impl SerializeValue for List {
    open spec fn spec_result(&self) -> SFVResult<Seq<u8>> {
        match spec_list_result(self@) {
            Ok(_) => Ok(spec_ser_list(self@)),
            Err(e) => Err(e),
        }
    }

    fn serialize_value(&self) -> (r: SFVResult<String>) {
        let mut out: Vec<u8> = Vec::new();
        match Serializer::serialize_list(self, &mut out) {
            Ok(_) => Ok(string_from_ascii(out)),
            Err(e) => Err(e),
        }
    }
}

impl SerializeValue for Dictionary {
    open spec fn spec_result(&self) -> SFVResult<Seq<u8>> {
        match spec_dict_result(self@) {
            Ok(_) => Ok(spec_ser_dict(self@)),
            Err(e) => Err(e),
        }
    }

    fn serialize_value(&self) -> (r: SFVResult<String>) {
        let mut out: Vec<u8> = Vec::new();
        match Serializer::serialize_dict(self, &mut out) {
            Ok(_) => Ok(string_from_ascii(out)),
            Err(e) => Err(e),
        }
    }
}

/// Container serialization functions.
pub struct Serializer;

impl Serializer {
    /// Validates a key against the key grammar and appends it.
    pub fn serialize_key(input_key: &str, output: &mut Vec<u8>) -> (r: SFVResult<()>)
        ensures
            r == spec_validate_key(input_key.spec_bytes()),
            r is Ok ==> final(output)@ == old(output)@ + input_key.spec_bytes(),
            r is Err ==> final(output)@ == old(output)@,
            r is Ok && is_all_ascii(old(output)@) ==> is_all_ascii(final(output)@),
    {
        let bytes = input_key.as_bytes();
        let n = bytes.len();
        let mut i: usize = 0;
        while i < n
            invariant
                n == bytes@.len(),
                bytes@ == input_key.spec_bytes(),
                i <= n,
                forall|j: int| 0 <= j < i ==> is_key_byte(#[trigger] bytes@[j]),
            decreases n - i,
        {
            if !key_byte(bytes[i]) {
                return Err(Error::KeyBadChar);
            }
            i = i + 1;
        }
        if n == 0 || !key_start(bytes[0]) {
            return Err(Error::KeyBadFirstChar);
        }
        let mut copied = vstd::slice::slice_to_vec(bytes);
        output.append(&mut copied);
        proof {
            if is_all_ascii(old(output)@) {
                assert forall|j: int| 0 <= j < bytes@.len() implies #[trigger] bytes@[j]
                    < 0x80 by {
                    assert(is_key_byte(bytes@[j]));
                }
                crate::utils::lemma_ascii_append(old(output)@, bytes@);
            }
        }
        Ok(())
    }

    /// Appends `;key` or `;key=value` for every parameter in order,
    /// stopping at the first invalid key.
    pub fn serialize_parameters(input_params: &Parameters, output: &mut Vec<u8>) -> (r: SFVResult<
        (),
    >)
        ensures
            r == spec_params_result(input_params@),
            r is Ok ==> final(output)@ == old(output)@ + spec_ser_parameters(input_params@),
            r is Ok && is_all_ascii(old(output)@) ==> is_all_ascii(final(output)@),
    {
        let ghost p: Seq<(Seq<u8>, BareItem)> = input_params@;
        let n = input_params.len();
        let mut i: usize = 0;
        while i < n
            invariant
                n == p.len(),
                p == input_params@,
                i <= n,
                spec_params_result(p.take(i as int)) is Ok,
                output@ == old(output)@ + spec_ser_parameters(p.take(i as int)),
                is_all_ascii(old(output)@) ==> is_all_ascii(output@),
            decreases n - i,
        {
            let ghost done: Seq<(Seq<u8>, BareItem)> = p.take(i as int);
            let ghost mid = output@;
            output.push(0x3b);
            let key = input_params.key_at(i);
            match Self::serialize_key(key.as_str(), output) {
                Ok(_) => {},
                Err(e) => {
                    proof {
                        assert(spec_validate_key(p[i as int].0) == Err::<(), Error>(e));
                        lemma_params_result_first_err(p, i as int, e);
                    }
                    return Err(e);
                },
            }
            let value = input_params.value_at(i);
            let is_true = match value {
                BareItem::Boolean(b) => b.value(),
                _ => false,
            };
            if !is_true {
                output.push(0x3d);
                let _ = value.write(output);
            }
            proof {
                assert(p.take(i + 1).drop_last() =~= done);
                assert(p.take(i + 1).last() == p[i as int]);
                assert(output@ =~= mid + spec_ser_parameter(p[i as int].0, &p[i as int].1));
                assert(output@ =~= old(output)@ + spec_ser_parameters(p.take(i + 1)));
            }
            i = i + 1;
        }
        proof {
            assert(p.take(n as int) =~= p);
        }
        Ok(())
    }

    /// Appends the canonical bytes of an item.
    pub fn serialize_item(input_item: &Item, output: &mut Vec<u8>) -> (r: SFVResult<()>)
        ensures
            r == spec_item_result(input_item),
            r is Ok ==> final(output)@ == old(output)@ + spec_ser_item(input_item),
            r is Ok && is_all_ascii(old(output)@) ==> is_all_ascii(final(output)@),
    {
        let _ = input_item.bare_item.write(output);
        match Self::serialize_parameters(&input_item.params, output) {
            Ok(_) => Ok(()),
            Err(e) => Err(e),
        }
    }

    /// Appends the canonical bytes of an inner list.
    pub fn serialize_inner_list(input_inner_list: &InnerList, output: &mut Vec<u8>) -> (r:
        SFVResult<()>)
        ensures
            r == spec_inner_list_result(input_inner_list),
            r is Ok ==> final(output)@ == old(output)@ + spec_ser_inner_list(input_inner_list),
            r is Ok && is_all_ascii(old(output)@) ==> is_all_ascii(final(output)@),
    {
        let ghost items: Seq<Item> = input_inner_list.items@;
        output.push(0x28);
        let n = input_inner_list.items.len();
        let mut i: usize = 0;
        while i < n
            invariant
                n == items.len(),
                items == input_inner_list.items@,
                i <= n,
                spec_items_result(items.take(i as int)) is Ok,
                output@ == old(output)@ + seq![0x28u8] + spec_ser_items_spaced(
                    items.take(i as int),
                ),
                is_all_ascii(old(output)@) ==> is_all_ascii(output@),
            decreases n - i,
        {
            let ghost done: Seq<Item> = items.take(i as int);
            if i > 0 {
                output.push(0x20);
            }
            match Self::serialize_item(&input_inner_list.items[i], output) {
                Ok(_) => {},
                Err(e) => {
                    proof {
                        lemma_items_result_first_err(items, i as int, e);
                    }
                    return Err(e);
                },
            }
            proof {
                assert(items.take(i + 1).drop_last() =~= done);
                assert(items.take(i + 1).last() == items[i as int]);
                if i == 0 {
                    assert(output@ =~= old(output)@ + seq![0x28u8] + spec_ser_items_spaced(
                        items.take(1),
                    ));
                } else {
                    assert(output@ =~= old(output)@ + seq![0x28u8] + spec_ser_items_spaced(
                        items.take(i + 1),
                    ));
                }
            }
            i = i + 1;
        }
        output.push(0x29);
        proof {
            assert(items.take(n as int) =~= items);
        }
        match Self::serialize_parameters(&input_inner_list.params, output) {
            Ok(_) => {
                proof {
                    assert(output@ =~= old(output)@ + spec_ser_inner_list(input_inner_list));
                }
                Ok(())
            },
            Err(e) => Err(e),
        }
    }

    /// Appends the canonical bytes of one list member.
    fn serialize_list_entry(member: &ListEntry, output: &mut Vec<u8>) -> (r: SFVResult<()>)
        ensures
            r == spec_entry_result(member),
            r is Ok ==> final(output)@ == old(output)@ + spec_ser_list_entry(member),
            r is Ok && is_all_ascii(old(output)@) ==> is_all_ascii(final(output)@),
    {
        match member {
            ListEntry::Item(item) => Self::serialize_item(item, output),
            ListEntry::InnerList(inner_list) => Self::serialize_inner_list(inner_list, output),
        }
    }

    /// Appends the canonical bytes of a list. An empty list is refused.
    pub fn serialize_list(input_list: &List, output: &mut Vec<u8>) -> (r: SFVResult<()>)
        ensures
            r == spec_list_result(input_list@),
            r is Ok ==> final(output)@ == old(output)@ + spec_ser_list(input_list@),
            input_list@.len() == 0 ==> final(output)@ == old(output)@,
            r is Ok && is_all_ascii(old(output)@) ==> is_all_ascii(final(output)@),
    {
        let ghost l: Seq<ListEntry> = input_list@;
        let n = input_list.len();
        if n == 0 {
            return Err(Error::EmptyList);
        }
        let mut i: usize = 0;
        while i < n
            invariant
                n == l.len(),
                l == input_list@,
                0 < n,
                i <= n,
                spec_entries_result(l.take(i as int)) is Ok,
                output@ == old(output)@ + spec_ser_list(l.take(i as int)),
                is_all_ascii(old(output)@) ==> is_all_ascii(output@),
            decreases n - i,
        {
            let ghost done: Seq<ListEntry> = l.take(i as int);
            if i > 0 {
                output.push(0x2c);
                output.push(0x20);
            }
            match Self::serialize_list_entry(&input_list[i], output) {
                Ok(_) => {},
                Err(e) => {
                    proof {
                        lemma_entries_result_first_err(l, i as int, e);
                    }
                    return Err(e);
                },
            }
            proof {
                assert(l.take(i + 1).drop_last() =~= done);
                assert(l.take(i + 1).last() == l[i as int]);
                if i == 0 {
                    assert(output@ =~= old(output)@ + spec_ser_list(l.take(1)));
                } else {
                    assert(output@ =~= old(output)@ + spec_ser_list(l.take(i + 1)));
                }
            }
            i = i + 1;
        }
        proof {
            assert(l.take(n as int) =~= l);
        }
        Ok(())
    }

    /// Appends the canonical bytes of a dictionary. An empty dictionary is
    /// refused; a boolean-true member is written as its bare key followed
    /// by its parameters.
    #[verifier::rlimit(60)]
    pub fn serialize_dict(input_dict: &Dictionary, output: &mut Vec<u8>) -> (r: SFVResult<()>)
        ensures
            r == spec_dict_result(input_dict@),
            r is Ok ==> final(output)@ == old(output)@ + spec_ser_dict(input_dict@),
            input_dict@.len() == 0 ==> final(output)@ == old(output)@,
            r is Ok && is_all_ascii(old(output)@) ==> is_all_ascii(final(output)@),
    {
        let ghost d: Seq<(Seq<u8>, ListEntry)> = input_dict@;
        let n = input_dict.len();
        if n == 0 {
            return Err(Error::EmptyDictionary);
        }
        let mut i: usize = 0;
        while i < n
            invariant
                n == d.len(),
                d == input_dict@,
                0 < n,
                i <= n,
                spec_dict_entries_result(d.take(i as int)) is Ok,
                output@ == old(output)@ + spec_ser_dict(d.take(i as int)),
                is_all_ascii(old(output)@) ==> is_all_ascii(output@),
            decreases n - i,
        {
            let ghost done: Seq<(Seq<u8>, ListEntry)> = d.take(i as int);
            if i > 0 {
                output.push(0x2c);
                output.push(0x20);
            }
            let key = input_dict.key_at(i);
            match Self::serialize_key(key.as_str(), output) {
                Ok(_) => {},
                Err(e) => {
                    proof {
                        lemma_dict_entries_result_first_err(d, i as int, e);
                    }
                    return Err(e);
                },
            }
            let member = input_dict.value_at(i);
            let member_result = match member {
                ListEntry::Item(item) => {
                    let is_true = match &item.bare_item {
                        BareItem::Boolean(b) => b.value(),
                        _ => false,
                    };
                    if is_true {
                        Self::serialize_parameters(&item.params, output)
                    } else {
                        output.push(0x3d);
                        Self::serialize_item(item, output)
                    }
                },
                ListEntry::InnerList(inner_list) => {
                    output.push(0x3d);
                    Self::serialize_inner_list(inner_list, output)
                },
            };
            match member_result {
                Ok(_) => {},
                Err(e) => {
                    proof {
                        lemma_dict_entries_result_first_err(d, i as int, e);
                    }
                    return Err(e);
                },
            }
            proof {
                assert(d.take(i + 1).drop_last() =~= done);
                assert(d.take(i + 1).last() == d[i as int]);
                if i == 0 {
                    assert(output@ =~= old(output)@ + spec_ser_dict(d.take(1)));
                } else {
                    assert(output@ =~= old(output)@ + spec_ser_dict(d.take(i + 1)));
                }
            }
            i = i + 1;
        }
        proof {
            assert(d.take(n as int) =~= d);
        }
        Ok(())
    }

    /// Appends the canonical bytes of one primitive.
    pub fn serialize_bare_item(input_bare_item: &BareItem, output: &mut Vec<u8>) -> (r: SFVResult<
        (),
    >)
        ensures
            r is Ok,
            final(output)@ == old(output)@ + spec_ser_bare_item(input_bare_item),
            is_all_ascii(old(output)@) ==> is_all_ascii(final(output)@),
    {
        input_bare_item.write(output)
    }
}

/// A parameter map serializes exactly when every key passes the key
/// grammar.
pub proof fn lemma_params_result_ok_iff(p: Seq<(Seq<u8>, BareItem)>)
    ensures
        spec_params_result(p) is Ok <==> (forall|i: int|
            0 <= i < p.len() ==> spec_validate_key(#[trigger] p[i].0) is Ok),
    decreases p.len(),
{
    if p.len() > 0 {
        lemma_params_result_ok_iff(p.drop_last());
        assert(forall|i: int| 0 <= i < p.len() - 1 ==> p.drop_last()[i] == #[trigger] p[i]);
        assert(p.last() == p[p.len() - 1]);
    }
}

/// Inner-list members serialize exactly when each member does.
pub proof fn lemma_items_result_ok_iff(items: Seq<Item>)
    ensures
        spec_items_result(items) is Ok <==> (forall|i: int|
            0 <= i < items.len() ==> spec_item_result(&(#[trigger] items[i])) is Ok),
    decreases items.len(),
{
    if items.len() > 0 {
        lemma_items_result_ok_iff(items.drop_last());
        assert(forall|i: int|
            0 <= i < items.len() - 1 ==> items.drop_last()[i] == #[trigger] items[i]);
        assert(items.last() == items[items.len() - 1]);
    }
}

/// List members serialize exactly when each member does.
pub proof fn lemma_entries_result_ok_iff(l: Seq<ListEntry>)
    ensures
        spec_entries_result(l) is Ok <==> (forall|i: int|
            0 <= i < l.len() ==> spec_entry_result(&(#[trigger] l[i])) is Ok),
    decreases l.len(),
{
    if l.len() > 0 {
        lemma_entries_result_ok_iff(l.drop_last());
        assert(forall|i: int| 0 <= i < l.len() - 1 ==> l.drop_last()[i] == #[trigger] l[i]);
        assert(l.last() == l[l.len() - 1]);
    }
}

/// Dictionary members serialize exactly when each key and member does.
pub proof fn lemma_dict_entries_result_ok_iff(d: Seq<(Seq<u8>, ListEntry)>)
    ensures
        spec_dict_entries_result(d) is Ok <==> (forall|i: int|
            0 <= i < d.len() ==> spec_dict_member_result(
                (#[trigger] d[i]).0,
                &d[i].1,
            ) is Ok),
    decreases d.len(),
{
    if d.len() > 0 {
        lemma_dict_entries_result_ok_iff(d.drop_last());
        assert(forall|i: int| 0 <= i < d.len() - 1 ==> d.drop_last()[i] == #[trigger] d[i]);
        assert(d.last() == d[d.len() - 1]);
    }
}

/// A boolean-true value is abbreviated on the wire: a parameter carrying
/// it is written as `;key` alone, and a boolean-true dictionary member as
/// its key followed by its parameters, with no `=?1` after the key.
pub proof fn lemma_boolean_true_abbreviation(k: Seq<u8>, it: Item)
    requires
        is_boolean_true(&it.bare_item),
    ensures
        spec_ser_parameter(k, &it.bare_item) == seq![0x3bu8] + k,
        spec_ser_dict_member(k, &ListEntry::Item(it)) == k + spec_ser_parameters(it.params@),
{
    assert(spec_ser_parameter(k, &it.bare_item) =~= seq![0x3bu8] + k);
}

/// Every value the parser returns serializes again: members that pass the
/// parser's validation always pass the serializer's, so a non-empty parsed
/// list or dictionary has a canonical text.
pub proof fn lemma_parsed_members_serialize(l: Seq<ListEntry>, d: Seq<(Seq<u8>, ListEntry)>)
    requires
        spec_entries_result(l) is Ok,
        spec_dict_entries_result(d) is Ok,
        l.len() > 0,
        d.len() > 0,
    ensures
        spec_list_result(l) is Ok,
        spec_dict_result(d) is Ok,
{
}

/// A key that satisfies the key grammar passes key validation.
pub proof fn lemma_valid_key_validates(k: Seq<u8>)
    requires
        crate::utils::is_valid_key(k),
    ensures
        spec_validate_key(k) is Ok,
{
    assert forall|i: int| 0 <= i < k.len() implies is_key_byte(#[trigger] k[i]) by {
        if i == 0 {
            assert(is_key_start(k[0]));
        }
    }
}

proof fn lemma_params_result_first_err(p: Seq<(Seq<u8>, BareItem)>, i: int, e: Error)
    requires
        0 <= i < p.len(),
        spec_params_result(p.take(i)) is Ok,
        spec_validate_key(p[i].0) == Err::<(), Error>(e),
    ensures
        spec_params_result(p) == Err::<(), Error>(e),
    decreases p.len(),
{
    if p.len() - 1 == i {
        assert(p.drop_last() =~= p.take(i));
    } else {
        assert(p.drop_last().take(i) =~= p.take(i));
        lemma_params_result_first_err(p.drop_last(), i, e);
    }
}

proof fn lemma_items_result_first_err(items: Seq<Item>, i: int, e: Error)
    requires
        0 <= i < items.len(),
        spec_items_result(items.take(i)) is Ok,
        spec_item_result(&items[i]) == Err::<(), Error>(e),
    ensures
        spec_items_result(items) == Err::<(), Error>(e),
    decreases items.len(),
{
    if items.len() - 1 == i {
        assert(items.drop_last() =~= items.take(i));
    } else {
        assert(items.drop_last().take(i) =~= items.take(i));
        lemma_items_result_first_err(items.drop_last(), i, e);
    }
}

proof fn lemma_entries_result_first_err(l: Seq<ListEntry>, i: int, e: Error)
    requires
        0 <= i < l.len(),
        spec_entries_result(l.take(i)) is Ok,
        spec_entry_result(&l[i]) == Err::<(), Error>(e),
    ensures
        spec_entries_result(l) == Err::<(), Error>(e),
        spec_list_result(l) == Err::<(), Error>(e),
    decreases l.len(),
{
    if l.len() - 1 == i {
        assert(l.drop_last() =~= l.take(i));
    } else {
        assert(l.drop_last().take(i) =~= l.take(i));
        lemma_entries_result_first_err(l.drop_last(), i, e);
    }
}

proof fn lemma_dict_entries_result_first_err(d: Seq<(Seq<u8>, ListEntry)>, i: int, e: Error)
    requires
        0 <= i < d.len(),
        spec_dict_entries_result(d.take(i)) is Ok,
        spec_dict_member_result(d[i].0, &d[i].1) == Err::<(), Error>(e),
    ensures
        spec_dict_entries_result(d) == Err::<(), Error>(e),
        spec_dict_result(d) == Err::<(), Error>(e),
    decreases d.len(),
{
    if d.len() - 1 == i {
        assert(d.drop_last() =~= d.take(i));
    } else {
        assert(d.drop_last().take(i) =~= d.take(i));
        lemma_dict_entries_result_first_err(d.drop_last(), i, e);
    }
}

} // verus!
