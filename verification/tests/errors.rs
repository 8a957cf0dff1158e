use sfv::{BareItem, Dictionary, Error, Item, ListEntry, Parameters, Parser, SerializeValue};

#[test]
fn parse_errors_by_kind() {
    assert_eq!(Err(Error::ParseUnexpectedEnd), Parser::parse_item(b"").map(|_| ()));
    assert_eq!(Err(Error::ParseUnexpectedChar), Parser::parse_item(b"@oops").map(|_| ()));
    assert_eq!(
        Err(Error::ParseTrailingCharacters),
        Parser::parse_item(b"1 2").map(|_| ())
    );
    assert_eq!(
        Err(Error::ParseTooManyDigits),
        Parser::parse_item(b"1234567890123456").map(|_| ())
    );
    assert_eq!(
        Err(Error::ParseTooManyDigits),
        Parser::parse_item(b"1000000000000.1").map(|_| ())
    );
    assert_eq!(Err(Error::ParseBadFraction), Parser::parse_item(b"1.").map(|_| ()));
    assert_eq!(Err(Error::ParseBadFraction), Parser::parse_item(b"1.2345").map(|_| ()));
    assert_eq!(
        Err(Error::ParseInvalidString),
        Parser::parse_item(b"\"a\x01b\"").map(|_| ())
    );
    assert_eq!(
        Err(Error::ParseInvalidString),
        Parser::parse_item(b"\"bad \\n escape\"").map(|_| ())
    );
    assert_eq!(
        Err(Error::ParseUnterminatedString),
        Parser::parse_item(b"\"abc").map(|_| ())
    );
    assert_eq!(
        Err(Error::ParseInvalidByteSeq),
        Parser::parse_item(b":!!!:").map(|_| ())
    );
    assert_eq!(
        Err(Error::ParseUnterminatedByteSeq),
        Parser::parse_item(b":aGVsbG8=").map(|_| ())
    );
    assert_eq!(Err(Error::ParseInvalidBoolean), Parser::parse_item(b"?2").map(|_| ()));
    assert_eq!(
        Err(Error::ParseUnterminatedInnerList),
        Parser::parse_list(b"(1 2").map(|_| ())
    );
    assert_eq!(
        Err(Error::ParseUnexpectedEnd),
        Parser::parse_list(b"1, ").map(|_| ())
    );
}

#[test]
fn non_canonical_base64_is_reencoded_canonically() {
    // The decoder accepts mid-stream padding; re-serializing yields the
    // canonical encoding of the decoded bytes.
    let item = Parser::parse_item(b":SGVsbA==byB3b3JsZA==:").unwrap();
    assert_eq!(Some(&b"Hello world"[..]), item.bare_item.as_byte_seq());
    assert_eq!(":SGVsbG8gd29ybGQ=:", item.serialize_value().unwrap());
}

#[test]
fn serializer_revalidates_keys() {
    let mut params = Parameters::new();
    params.insert("aB".to_owned(), BareItem::new_integer(1).unwrap());
    let item = Item::with_params(BareItem::new_integer(1).unwrap(), params);
    assert_eq!(Err(Error::KeyBadChar), item.serialize_value().map(|_| ()));
    assert_eq!(
        Err("serialize_key: disallowed character in input"),
        item.serialize_value().map(|_| ()).map_err(|e| e.message())
    );

    let mut dict = Dictionary::new();
    dict.insert(
        "1a".to_owned(),
        ListEntry::Item(Item::new(BareItem::new_integer(1).unwrap())),
    );
    assert_eq!(Err(Error::KeyBadFirstChar), dict.serialize_value().map(|_| ()));
    assert_eq!(
        Err("serialize_key: first character is not lcalpha or '*'"),
        dict.serialize_value().map(|_| ()).map_err(|e| e.message())
    );

    let mut empty_key = Dictionary::new();
    empty_key.insert(
        String::new(),
        ListEntry::Item(Item::new(BareItem::new_integer(1).unwrap())),
    );
    assert_eq!(Err(Error::KeyBadFirstChar), empty_key.serialize_value().map(|_| ()));
}

#[test]
fn construction_errors_carry_their_messages() {
    assert_eq!(
        Err("serialize_integer: integer is out of range"),
        BareItem::new_integer(1_000_000_000_000_000).map(|_| ()).map_err(|e| e.message())
    );
    assert_eq!(
        Err("serialise_token: first character is not ALPHA or '*'"),
        BareItem::new_token("9token").map(|_| ()).map_err(|e| e.message())
    );
    assert_eq!(
        Err("serialise_token: disallowed character"),
        BareItem::new_token("a b").map(|_| ()).map_err(|e| e.message())
    );
    assert_eq!(
        Err("serialize_string: not a visible character"),
        BareItem::new_string("tab\there\x7f").map(|_| ()).map_err(|e| e.message())
    );
}
