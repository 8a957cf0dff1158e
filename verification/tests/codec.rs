use sfv::{BareItem, Dictionary, InnerList, Item, List, ListEntry, Parameters, Parser,
    SerializeValue};

fn canonical_item(input: &str) -> String {
    Parser::parse_item(input.as_bytes()).unwrap().serialize_value().unwrap()
}

fn canonical_list(input: &str) -> String {
    Parser::parse_list(input.as_bytes()).unwrap().serialize_value().unwrap()
}

fn canonical_dict(input: &str) -> String {
    Parser::parse_dictionary(input.as_bytes()).unwrap().serialize_value().unwrap()
}

#[test]
fn round_trip_is_idempotent_for_items() {
    for input in ["12.445;foo=bar", "  ?1 ", "\"foo \\\"bar\\\" baz\"", ":aGVsbG8=:",
        "tok;a;b=3"] {
        let once = canonical_item(input);
        assert_eq!(once, canonical_item(&once));
    }
}

#[test]
fn round_trip_is_idempotent_for_lists() {
    for input in ["1;a=tok, (\"foo\" \"bar\");baz, ()", "\"london\", \t\t\"berlin\"",
        "( 1  2 );q=1.0,  tok"] {
        let once = canonical_list(input);
        assert_eq!(once, canonical_list(&once));
    }
}

#[test]
fn round_trip_is_idempotent_for_dictionaries() {
    for input in ["a=?0, b, c; foo=bar", "u=2, n=(* foo 2)", "k=\"a\\\\b\""] {
        let once = canonical_dict(input);
        assert_eq!(once, canonical_dict(&once));
    }
}

#[test]
fn integer_boundaries_on_the_wire() {
    let item = Parser::parse_item(b"999999999999999").unwrap();
    assert_eq!(Some(999_999_999_999_999), item.bare_item.as_int());
    assert_eq!("999999999999999", item.serialize_value().unwrap());
    assert!(Parser::parse_item(b"9999999999999999").is_err());
}

#[test]
fn decimal_boundaries_on_the_wire() {
    assert_eq!("999999999999.999", canonical_item("999999999999.999"));
    assert!(Parser::parse_item(b"1000000000000.1").is_err());
    assert!(Parser::parse_item(b"1.2345").is_err());
    assert!(Parser::parse_item(b"1.").is_err());
}

#[test]
fn string_escaping_round_trips() {
    let wire = "\"foo \\\"bar\\\" baz\"";
    let item = Parser::parse_item(wire.as_bytes()).unwrap();
    assert_eq!(Some("foo \"bar\" baz"), item.bare_item.as_str());
    assert_eq!(wire, item.serialize_value().unwrap());
    assert!(Parser::parse_item(b"\"a\x01b\"").is_err());
}

#[test]
fn byte_sequences_decode_and_reencode() {
    let item = Parser::parse_item(b":aGVsbG8=:").unwrap();
    assert_eq!(Some(&b"hello"[..]), item.bare_item.as_byte_seq());
    assert_eq!(":aGVsbG8=:", item.serialize_value().unwrap());

    let built = Item::new(BareItem::new_byte_seq(b"hello").unwrap());
    assert_eq!(":aGVsbG8=:", built.serialize_value().unwrap());
}

#[test]
fn boolean_abbreviation_in_dictionaries_and_parameters() {
    let mut dict = Dictionary::new();
    dict.insert("a".to_owned(), ListEntry::Item(Item::new(BareItem::new_boolean(true).unwrap())));
    assert_eq!("a", dict.serialize_value().unwrap());

    let mut params = Parameters::new();
    params.insert("x".to_owned(), BareItem::new_boolean(true).unwrap());
    let item = Item::with_params(BareItem::new_token("t").unwrap(), params);
    assert_eq!("t;x", item.serialize_value().unwrap());
}

#[test]
fn empty_containers() {
    let parsed = Parser::parse_list(b"").unwrap();
    assert_eq!(0, parsed.len());
    let parsed_dict = Parser::parse_dictionary(b"").unwrap();
    assert_eq!(0, parsed_dict.len());

    let empty_list: List = vec![];
    assert_eq!(
        Err("serialize_list: serializing empty field is not allowed"),
        empty_list.serialize_value().map_err(|e| e.message())
    );
    let empty_dict = Dictionary::new();
    assert_eq!(
        Err("serialize_dictionary: serializing empty field is not allowed"),
        empty_dict.serialize_value().map_err(|e| e.message())
    );
}

#[test]
fn parse_item_example() {
    let item = Parser::parse_item(b"12.445;foo=bar").unwrap();
    assert_eq!(12_445, item.bare_item.as_decimal().unwrap().thousandths());
    let foo = item.params.get("foo").unwrap();
    assert_eq!(Some("bar"), foo.as_token());
    assert_eq!("12.445;foo=bar", item.serialize_value().unwrap());
}

#[test]
fn parse_dictionary_example() {
    let dict = Parser::parse_dictionary(b"a=?0, b, c;foo=bar").unwrap();
    match dict.get("a").unwrap() {
        ListEntry::Item(item) => assert_eq!(Some(false), item.bare_item.as_bool()),
        _ => panic!("expected an item"),
    }
    match dict.get("b").unwrap() {
        ListEntry::Item(item) => {
            assert_eq!(Some(true), item.bare_item.as_bool());
            assert_eq!(0, item.params.len());
        },
        _ => panic!("expected an item"),
    }
    match dict.get("c").unwrap() {
        ListEntry::Item(item) => {
            assert_eq!(Some(true), item.bare_item.as_bool());
            assert_eq!(Some("bar"), item.params.get("foo").unwrap().as_token());
        },
        _ => panic!("expected an item"),
    }
    assert_eq!("a=?0, b, c;foo=bar", dict.serialize_value().unwrap());
}

#[test]
fn serialize_list_example() {
    let tok_item = Item::new(BareItem::new_token("tok").unwrap());

    let mut int_item_params = Parameters::new();
    int_item_params.insert("key".to_owned(), BareItem::new_boolean(false).unwrap());
    let int_item = Item::with_params(BareItem::new_integer(99).unwrap(), int_item_params);

    let str_item = Item::new(BareItem::new_string("foo").unwrap());

    let mut inner_list_params = Parameters::new();
    inner_list_params.insert("bar".to_owned(), BareItem::new_boolean(true).unwrap());
    let inner_list = InnerList::with_params(vec![int_item, str_item], inner_list_params);

    let list: List = vec![ListEntry::Item(tok_item), ListEntry::InnerList(inner_list)];
    assert_eq!("tok, (99;key=?0 \"foo\");bar", list.serialize_value().unwrap());
}

#[test]
fn duplicate_keys_keep_first_position_and_last_value() {
    // The documented policy: a re-inserted key keeps its original slot
    // while the later value wins, both when parsing and when building.
    let dict = Parser::parse_dictionary(b"a=1, b=2, a=3").unwrap();
    assert_eq!("a=3, b=2", dict.serialize_value().unwrap());

    let mut params = Parameters::new();
    params.insert("x".to_owned(), BareItem::new_integer(1).unwrap());
    params.insert("y".to_owned(), BareItem::new_integer(2).unwrap());
    params.insert("x".to_owned(), BareItem::new_integer(3).unwrap());
    let item = Item::with_params(BareItem::new_boolean(false).unwrap(), params);
    assert_eq!("?0;x=3;y=2", item.serialize_value().unwrap());

    let item = Parser::parse_item(b"9;p=1;q=2;p=3").unwrap();
    assert_eq!("9;p=3;q=2", item.serialize_value().unwrap());
}

#[test]
fn strict_whitespace_rules() {
    assert!(Parser::parse_item(b" 1 ").is_ok());
    assert!(Parser::parse_item(b"1;  a=2").is_ok());
    assert!(Parser::parse_list(b"1 , 2").is_ok());
    assert!(Parser::parse_list(b"1,").is_err());
    assert!(Parser::parse_item(b"1 2").is_err());
    assert!(Parser::parse_dictionary(b"a =1").is_err());
    assert!(Parser::parse_list(b"( 1  2 )").is_ok());
    assert!(Parser::parse_list(b"(1").is_err());
}

#[test]
fn dictionary_get_by_key() {
    let dict = Parser::parse_dictionary(b"u=2, n=(* foo 2)").unwrap();
    match dict.get("u").unwrap() {
        ListEntry::Item(item) => assert_eq!(Some(2), item.bare_item.as_int()),
        _ => panic!("expected an item"),
    }
    match dict.get("n").unwrap() {
        ListEntry::InnerList(inner) => {
            assert_eq!(3, inner.items.len());
            assert_eq!(Some("*"), inner.items[0].bare_item.as_token());
        },
        _ => panic!("expected an inner list"),
    }
    assert!(dict.get("missing").is_none());
}
