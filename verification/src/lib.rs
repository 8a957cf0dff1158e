//! Structured field values for HTTP: a codec between the canonical
//! single-line wire form of RFC 8941 and a tree of typed values.
//!
//! The crate offers three layers:
//! - validated primitives ([`BareItem`] and the six `BareItem*` types),
//! - composite values ([`Item`], [`InnerList`], [`List`], [`Dictionary`],
//!   [`Parameters`]),
//! - a strict parser ([`Parser`]) and a canonical serializer
//!   ([`SerializeValue`]), together with an incremental encoder that emits
//!   the same canonical text without a pre-built tree.

use vstd::prelude::*;
use vstd::string::StringSliceAdditionalSpecFns;

mod bare_item;
mod digits;
mod encoding;
mod err;
pub mod ordered_map;
pub mod parser;
pub mod ref_serializer;
pub mod serializer;
pub mod utils;

pub use bare_item::BareItem;
pub use bare_item::is_boolean_true;
pub use bare_item::spec_ser_bare_item;
pub use bare_item::BareItemBoolean;
pub use bare_item::BareItemByteSeq;
pub use bare_item::BareItemDecimal;
pub use bare_item::BareItemInteger;
pub use bare_item::BareItemString;
pub use bare_item::BareItemToken;
pub use bare_item::SerializeBareItem;
pub use bare_item::ValidateValue;
pub use err::Error;
pub use ordered_map::OrderedMap;
pub use serializer::SerializeValue;
pub use serializer::Serializer;
pub use parser::Parser;
pub use ref_serializer::RefDictSerializer;
pub use ref_serializer::RefItemSerializer;
pub use ref_serializer::RefListSerializer;

verus! {

/// Result type used throughout the crate.
pub type SFVResult<T> = Result<T, Error>;

/// Parameters of an item or inner list: an ordered map from keys to
/// primitives. Keys are validated when serialized, not when inserted.
pub type Parameters = ordered_map::OrderedMap<bare_item::BareItem>;

/// A dictionary field value: an ordered map from keys to members.
pub type Dictionary = ordered_map::OrderedMap<ListEntry>;

/// A list field value: a sequence of members.
pub type List = Vec<ListEntry>;

/// An item field value: one primitive with its parameters.
#[derive(Debug, Clone, PartialEq)]
pub struct Item {
    /// The item's primitive value.
    pub bare_item: bare_item::BareItem,
    /// The item's parameters; may be empty.
    pub params: Parameters,
}

impl Item {
    /// An item with empty parameters.
    pub fn new(bare_item: bare_item::BareItem) -> (r: Item)
        ensures
            r.bare_item == bare_item,
            r.params@ == Seq::<(Seq<u8>, bare_item::BareItem)>::empty(),
    {
        Item { bare_item, params: Parameters::new() }
    }

    /// An item with the given parameters.
    pub fn with_params(bare_item: bare_item::BareItem, params: Parameters) -> (r: Item)
        ensures
            r.bare_item == bare_item,
            r.params == params,
    {
        Item { bare_item, params }
    }
}

/// One member of a list or dictionary: an item or an inner list.
#[derive(Debug, Clone, PartialEq)]
pub enum ListEntry {
    /// A single item.
    Item(Item),
    /// An inner list of items.
    InnerList(InnerList),
}

impl From<Item> for ListEntry {
    fn from(item: Item) -> (r: Self) {
        ListEntry::Item(item)
    }
}

impl vstd::std_specs::convert::FromSpecImpl<Item> for ListEntry {
    open spec fn obeys_from_spec() -> bool {
        true
    }

    open spec fn from_spec(item: Item) -> Self {
        ListEntry::Item(item)
    }
}

impl From<InnerList> for ListEntry {
    fn from(list: InnerList) -> (r: Self) {
        ListEntry::InnerList(list)
    }
}

impl vstd::std_specs::convert::FromSpecImpl<InnerList> for ListEntry {
    open spec fn obeys_from_spec() -> bool {
        true
    }

    open spec fn from_spec(list: InnerList) -> Self {
        ListEntry::InnerList(list)
    }
}

/// An ordered sequence of items that shares one parameter map; the
/// parameters belong to the list, not to its members.
#[derive(Debug, Clone, PartialEq)]
pub struct InnerList {
    /// The member items; may be empty.
    pub items: Vec<Item>,
    /// The list's own parameters; may be empty.
    pub params: Parameters,
}

impl InnerList {
    /// An inner list with empty parameters.
    pub fn new(items: Vec<Item>) -> (r: InnerList)
        ensures
            r.items == items,
            r.params@ == Seq::<(Seq<u8>, bare_item::BareItem)>::empty(),
    {
        InnerList { items, params: Parameters::new() }
    }

    /// An inner list with the given parameters.
    pub fn with_params(items: Vec<Item>, params: Parameters) -> (r: InnerList)
        ensures
            r.items == items,
            r.params == params,
    {
        InnerList { items, params }
    }
}

/// A borrowed or plain-value form of a primitive, accepted by the
/// incremental encoder, which validates it while writing.
#[derive(Debug, Clone)]
pub enum RefBareItem<'a> {
    /// An integer number.
    Integer(i64),
    /// An already-validated decimal.
    Decimal(bare_item::BareItemDecimal),
    /// A string, validated when written.
    String(&'a str),
    /// A raw byte sequence.
    ByteSeq(&'a [u8]),
    /// A boolean.
    Boolean(bool),
    /// A token, validated when written.
    Token(&'a str),
}

impl bare_item::BareItem {
    /// Borrows this primitive as a `RefBareItem`.
    pub fn to_ref_bare_item(&self) -> (r: RefBareItem)
        ensures
            match self {
                bare_item::BareItem::Integer(v) => r matches RefBareItem::Integer(x) && x as int
                    == v@,
                bare_item::BareItem::Decimal(v) => r matches RefBareItem::Decimal(x) && x@ == v@,
                bare_item::BareItem::String(v) => r matches RefBareItem::String(x)
                    && x.spec_bytes() == v@,
                bare_item::BareItem::ByteSeq(v) => r matches RefBareItem::ByteSeq(x) && x@ == v@,
                bare_item::BareItem::Boolean(v) => r matches RefBareItem::Boolean(x) && x == v@,
                bare_item::BareItem::Token(v) => r matches RefBareItem::Token(x) && x.spec_bytes()
                    == v@,
            },
    {
        match self {
            bare_item::BareItem::Integer(v) => RefBareItem::Integer(v.value()),
            bare_item::BareItem::Decimal(v) => RefBareItem::Decimal(*v),
            bare_item::BareItem::String(v) => RefBareItem::String(v.as_str()),
            bare_item::BareItem::ByteSeq(v) => RefBareItem::ByteSeq(v.as_slice()),
            bare_item::BareItem::Boolean(v) => RefBareItem::Boolean(v.value()),
            bare_item::BareItem::Token(v) => RefBareItem::Token(v.as_str()),
        }
    }
}

} // verus!
