use sfv::{BareItem, BareItemDecimal, Dictionary, Error, InnerList, Item, List, ListEntry,
    Parameters, RefBareItem, RefDictSerializer, RefItemSerializer, RefListSerializer,
    SerializeValue};

#[test]
fn incremental_item_matches_tree_serializer() {
    let ser = RefItemSerializer::new();
    let ser = ser.bare_item(&RefBareItem::Integer(99)).unwrap();
    let ser = ser.parameter("key", &RefBareItem::Boolean(false)).unwrap();
    let incremental = ser.finish();

    let mut params = Parameters::new();
    params.insert("key".to_owned(), BareItem::new_boolean(false).unwrap());
    let tree = Item::with_params(BareItem::new_integer(99).unwrap(), params);
    assert_eq!(tree.serialize_value().unwrap(), incremental);
    assert_eq!("99;key=?0", incremental);
}

#[test]
fn incremental_list_matches_tree_serializer() {
    let ser = RefListSerializer::new();
    let ser = ser.bare_item(&RefBareItem::Token("tok")).unwrap();
    let ser = ser.open_inner_list();
    let ser = ser.inner_list_bare_item(&RefBareItem::Integer(99)).unwrap();
    let ser = ser.parameter("key", &RefBareItem::Boolean(false)).unwrap();
    let ser = ser.inner_list_bare_item(&RefBareItem::String("foo")).unwrap();
    let ser = ser.close_inner_list();
    let ser = ser.parameter("bar", &RefBareItem::Boolean(true)).unwrap();
    let incremental = ser.finish().unwrap();

    let tok_item = Item::new(BareItem::new_token("tok").unwrap());
    let mut int_item_params = Parameters::new();
    int_item_params.insert("key".to_owned(), BareItem::new_boolean(false).unwrap());
    let int_item = Item::with_params(BareItem::new_integer(99).unwrap(), int_item_params);
    let str_item = Item::new(BareItem::new_string("foo").unwrap());
    let mut inner_list_params = Parameters::new();
    inner_list_params.insert("bar".to_owned(), BareItem::new_boolean(true).unwrap());
    let inner_list = InnerList::with_params(vec![int_item, str_item], inner_list_params);
    let list: List = vec![ListEntry::Item(tok_item), ListEntry::InnerList(inner_list)];

    assert_eq!(list.serialize_value().unwrap(), incremental);
    assert_eq!("tok, (99;key=?0 \"foo\");bar", incremental);
}

#[test]
fn incremental_dict_matches_tree_serializer() {
    let ser = RefDictSerializer::new();
    let ser = ser.bare_item_member("a", &RefBareItem::Boolean(false)).unwrap();
    let ser = ser.bare_item_member("b", &RefBareItem::Boolean(true)).unwrap();
    let ser = ser.bare_item_member("c", &RefBareItem::Boolean(true)).unwrap();
    let ser = ser.parameter("foo", &RefBareItem::Token("bar")).unwrap();
    let incremental = ser.finish().unwrap();

    let mut dict = Dictionary::new();
    dict.insert("a".to_owned(), ListEntry::Item(Item::new(BareItem::new_boolean(false).unwrap())));
    dict.insert("b".to_owned(), ListEntry::Item(Item::new(BareItem::new_boolean(true).unwrap())));
    let mut c_params = Parameters::new();
    c_params.insert("foo".to_owned(), BareItem::new_token("bar").unwrap());
    dict.insert(
        "c".to_owned(),
        ListEntry::Item(Item::with_params(BareItem::new_boolean(true).unwrap(), c_params)),
    );

    assert_eq!(dict.serialize_value().unwrap(), incremental);
    assert_eq!("a=?0, b, c;foo=bar", incremental);
}

#[test]
fn incremental_dict_inner_list() {
    let ser = RefDictSerializer::new();
    let ser = ser.open_inner_list("n").unwrap();
    let ser = ser.inner_list_bare_item(&RefBareItem::Token("*")).unwrap();
    let ser = ser.inner_list_bare_item(&RefBareItem::Decimal(
        BareItemDecimal::new(15, 1).unwrap(),
    )).unwrap();
    let ser = ser.close_inner_list();
    let out = ser.finish().unwrap();
    assert_eq!("n=(* 1.5)", out);
}

#[test]
fn incremental_encoders_validate_their_inputs() {
    let ser = RefItemSerializer::new();
    assert!(matches!(
        ser.bare_item(&RefBareItem::Integer(1_000_000_000_000_000)),
        Err(Error::IntegerOutOfRange)
    ));

    let ser = RefItemSerializer::new();
    let ser = ser.bare_item(&RefBareItem::Token("t")).unwrap();
    assert!(matches!(
        ser.parameter("BAD", &RefBareItem::Boolean(true)),
        Err(Error::KeyBadChar)
    ));

    let ser = RefListSerializer::new();
    assert!(matches!(
        ser.bare_item(&RefBareItem::String("bad\u{1}")),
        Err(Error::StringNotVisible)
    ));

    assert!(matches!(RefListSerializer::new().finish(), Err(Error::EmptyList)));
    assert!(matches!(RefDictSerializer::new().finish(), Err(Error::EmptyDictionary)));
}
