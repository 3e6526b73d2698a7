use odra_cli::numeric::parse_value;
use odra_cli::types::{from_bytes, into_bytes, parse_hex, vec_into_bytes, Error};
use odra_cli::schema::TypeDescriptor;

fn roundtrip(ty: TypeDescriptor, text: &str) {
    let bytes = into_bytes(&ty, text).unwrap();
    let (decoded, consumed) = from_bytes(&ty, &bytes).unwrap();
    assert_eq!(decoded, text);
    assert_eq!(consumed, bytes.len());
}

#[test]
fn primitive_round_trips() {
    roundtrip(TypeDescriptor::Bool, "true");
    roundtrip(TypeDescriptor::Bool, "false");
    roundtrip(TypeDescriptor::I32, "-2147483648");
    roundtrip(TypeDescriptor::I32, "2147483647");
    roundtrip(TypeDescriptor::I64, "-9223372036854775808");
    roundtrip(TypeDescriptor::I64, "42");
    roundtrip(TypeDescriptor::U8, "0");
    roundtrip(TypeDescriptor::U8, "255");
    roundtrip(TypeDescriptor::U32, "4294967295");
    roundtrip(TypeDescriptor::U64, "2000000000000");
    roundtrip(TypeDescriptor::U128, "340282366920938463463374607431768211455");
    roundtrip(TypeDescriptor::U256, "666");
    roundtrip(TypeDescriptor::U512, "123456789012345678901234567890");
    roundtrip(TypeDescriptor::String, "kpob");
    roundtrip(TypeDescriptor::String, "\u{65e5}\u{672c}");
    roundtrip(TypeDescriptor::Unit, "");
}

#[test]
fn fixed_width_layouts() {
    assert_eq!(into_bytes(&TypeDescriptor::Bool, "true").unwrap(), vec![1]);
    assert_eq!(into_bytes(&TypeDescriptor::U8, "7").unwrap(), vec![7]);
    assert_eq!(
        into_bytes(&TypeDescriptor::U32, "1").unwrap(),
        vec![1, 0, 0, 0]
    );
    assert_eq!(
        into_bytes(&TypeDescriptor::I32, "-1").unwrap(),
        vec![255, 255, 255, 255]
    );
    assert_eq!(
        into_bytes(&TypeDescriptor::U64, "2").unwrap(),
        vec![2, 0, 0, 0, 0, 0, 0, 0]
    );
    // A big integer is a length byte, then the minimal little-endian
    // magnitude.
    assert_eq!(into_bytes(&TypeDescriptor::U512, "666").unwrap(), vec![2, 154, 2]);
    assert_eq!(into_bytes(&TypeDescriptor::U128, "0").unwrap(), vec![0]);
    // A string is a 4-byte length, then its UTF-8 bytes.
    assert_eq!(
        into_bytes(&TypeDescriptor::String, "kpob").unwrap(),
        vec![4, 0, 0, 0, 107, 112, 111, 98]
    );
}

#[test]
fn key_round_trip_renders_canonical_text() {
    let hex = "e24a366ebac487e9f3da31af5b8e2a67accd614c5ff73dbc3c640a347c3b5e49";
    let text = format!("hash-{}", hex);
    let bytes = into_bytes(&TypeDescriptor::Key, &text).unwrap();
    assert_eq!(bytes.len(), 33);
    assert_eq!(bytes[0], 1);
    let (decoded, consumed) = from_bytes(&TypeDescriptor::Key, &bytes).unwrap();
    assert_eq!(decoded, format!("Key::Hash({})", hex));
    assert_eq!(consumed, bytes.len());
}

#[test]
fn uref_round_trip_consumes_exactly() {
    let hex = "000102030405060708090a0b0c0d0e0f101112131415161718191a1b1c1d1e1f";
    let text = format!("uref-{}-007", hex);
    let bytes = into_bytes(&TypeDescriptor::URef, &text).unwrap();
    assert_eq!(bytes.len(), 33);
    let (decoded, consumed) = from_bytes(&TypeDescriptor::URef, &bytes).unwrap();
    assert_eq!(decoded, format!("URef({}, READ_ADD_WRITE)", hex));
    assert_eq!(consumed, bytes.len());
}

#[test]
fn public_key_round_trip_consumes_exactly() {
    let text = "01d75a980182b10ab7d54bfed3c964073a0ee172f3daa62325af021a68f707511a";
    let bytes = into_bytes(&TypeDescriptor::PublicKey, text).unwrap();
    assert_eq!(bytes.len(), 33);
    assert_eq!(bytes[0], 1);
    let (_decoded, consumed) = from_bytes(&TypeDescriptor::PublicKey, &bytes).unwrap();
    assert_eq!(consumed, bytes.len());
}

#[test]
fn option_layout_and_texts() {
    let ty = TypeDescriptor::Option(Box::new(TypeDescriptor::U8));
    assert_eq!(into_bytes(&ty, "none").unwrap(), vec![0]);
    assert_eq!(into_bytes(&ty, "some:7").unwrap(), vec![1, 7]);
    let (t, c) = from_bytes(&ty, &[0]).unwrap();
    assert_eq!((t.as_str(), c), ("null", 1));
    let (t, c) = from_bytes(&ty, &[1, 7]).unwrap();
    assert_eq!((t.as_str(), c), ("7", 2));
    assert!(matches!(into_bytes(&ty, "7").unwrap_err(), Error::Formatting(_)));
}

#[test]
fn result_layout_and_texts() {
    let ty = TypeDescriptor::Result(
        Box::new(TypeDescriptor::U8),
        Box::new(TypeDescriptor::Bool),
    );
    assert_eq!(into_bytes(&ty, "ok:9").unwrap(), vec![1, 9]);
    assert_eq!(into_bytes(&ty, "err:true").unwrap(), vec![0, 1]);
    let (t, c) = from_bytes(&ty, &[1, 9]).unwrap();
    assert_eq!((t.as_str(), c), ("Ok(9)", 2));
    let (t, c) = from_bytes(&ty, &[0, 1]).unwrap();
    assert_eq!((t.as_str(), c), ("Err(true)", 2));
}

#[test]
fn tuple_layouts() {
    let t2 = TypeDescriptor::Tuple2(
        Box::new(TypeDescriptor::U8),
        Box::new(TypeDescriptor::Bool),
    );
    assert_eq!(into_bytes(&t2, "5,true").unwrap(), vec![5, 1]);
    let (t, c) = from_bytes(&t2, &[5, 1]).unwrap();
    assert_eq!((t.as_str(), c), ("(5, true)", 2));
    // A wrong arity is a format error, not a truncation.
    assert!(matches!(into_bytes(&t2, "5,true,0").unwrap_err(), Error::Formatting(_)));
    let t3 = TypeDescriptor::Tuple3(
        Box::new(TypeDescriptor::U8),
        Box::new(TypeDescriptor::U8),
        Box::new(TypeDescriptor::U8),
    );
    assert_eq!(into_bytes(&t3, "1,2,3").unwrap(), vec![1, 2, 3]);
}

#[test]
fn list_round_trip_layout() {
    // Encoding n elements is a 4-byte count, then n encodings in order.
    let values = vec!["5".to_string(), "6".to_string(), "7".to_string()];
    let bytes = vec_into_bytes(&TypeDescriptor::U8, &values).unwrap();
    assert_eq!(bytes, vec![3, 0, 0, 0, 5, 6, 7]);
    let ty = TypeDescriptor::List(Box::new(TypeDescriptor::U8));
    let (text, consumed) = from_bytes(&ty, &bytes).unwrap();
    assert_eq!(text, "[\n  5,\n  6,\n  7\n]");
    assert_eq!(consumed, bytes.len());
    // The same list written as one comma-separated leaf text.
    assert_eq!(into_bytes(&ty, "5,6,7").unwrap(), vec![3, 0, 0, 0, 5, 6, 7]);
}

#[test]
fn map_layout() {
    let ty = TypeDescriptor::MapOf(
        Box::new(TypeDescriptor::U8),
        Box::new(TypeDescriptor::Bool),
    );
    assert_eq!(
        into_bytes(&ty, "1:true,2:false").unwrap(),
        vec![2, 0, 0, 0, 1, 1, 2, 0]
    );
    let (text, consumed) = from_bytes(&ty, &[2, 0, 0, 0, 1, 1, 2, 0]).unwrap();
    assert_eq!(text, "{1:true,2:false}");
    assert_eq!(consumed, 8);
    assert!(matches!(into_bytes(&ty, "1,2").unwrap_err(), Error::Formatting(_)));
}

#[test]
fn byte_array_accepts_hex_and_decimal() {
    let ty = TypeDescriptor::ByteArray(3);
    assert_eq!(into_bytes(&ty, "0x0aff10").unwrap(), vec![10, 255, 16]);
    assert_eq!(into_bytes(&ty, "10,255,16").unwrap(), vec![10, 255, 16]);
    // Any other length is rejected.
    assert!(matches!(into_bytes(&ty, "0x0aff").unwrap_err(), Error::Formatting(_)));
    assert!(matches!(into_bytes(&ty, "10,255").unwrap_err(), Error::Formatting(_)));
    let (text, consumed) = from_bytes(&ty, &[10, 255, 16, 9]).unwrap();
    assert_eq!((text.as_str(), consumed), ("0x0aff10", 3));
}

#[test]
fn parse_hex_requires_prefix() {
    assert_eq!(parse_hex("0x0aff").unwrap(), vec![10, 255]);
    assert!(matches!(parse_hex("0aff").unwrap_err(), Error::InvalidHexString));
    assert!(matches!(parse_hex("0x0afg").unwrap_err(), Error::HexDecodeError));
    assert!(matches!(parse_hex("0x0af").unwrap_err(), Error::HexDecodeError));
}

#[test]
fn leaf_errors_name_their_kind() {
    assert!(matches!(
        into_bytes(&TypeDescriptor::U8, "256").unwrap_err(),
        Error::ParseError(v) if v == "256"
    ));
    assert!(matches!(
        into_bytes(&TypeDescriptor::I32, "abc").unwrap_err(),
        Error::ParseError(_)
    ));
    assert!(matches!(
        into_bytes(&TypeDescriptor::U128, "not-a-number").unwrap_err(),
        Error::BigUintError(_)
    ));
    assert!(matches!(
        into_bytes(
            &TypeDescriptor::U128,
            "340282366920938463463374607431768211456"
        )
        .unwrap_err(),
        Error::BigUintError(_)
    ));
    assert!(matches!(
        into_bytes(&TypeDescriptor::Key, "not-a-key").unwrap_err(),
        Error::ParseError(_)
    ));
    assert!(matches!(
        into_bytes(&TypeDescriptor::URef, "not-a-uref").unwrap_err(),
        Error::InvalidURef
    ));
    assert!(matches!(
        into_bytes(&TypeDescriptor::PublicKey, "zz").unwrap_err(),
        Error::InvalidPublicKey
    ));
    assert!(matches!(
        from_bytes(&TypeDescriptor::U64, &[1, 2]).unwrap_err(),
        Error::DeserializationError
    ));
    assert!(matches!(
        from_bytes(&TypeDescriptor::Bool, &[9]).unwrap_err(),
        Error::DeserializationError
    ));
}

#[test]
fn signed_texts_accept_signs() {
    assert_eq!(into_bytes(&TypeDescriptor::I32, "+5").unwrap(), vec![5, 0, 0, 0]);
    assert_eq!(into_bytes(&TypeDescriptor::U8, "+5").unwrap(), vec![5]);
    assert!(matches!(
        into_bytes(&TypeDescriptor::U8, "-5").unwrap_err(),
        Error::ParseError(_)
    ));
    // Out-of-range values are rejected, not wrapped.
    assert!(matches!(
        into_bytes(&TypeDescriptor::I32, "2147483648").unwrap_err(),
        Error::ParseError(_)
    ));
}

#[test]
fn leaf_kinds_are_primitive() {
    assert!(TypeDescriptor::U64.is_leaf());
    assert!(TypeDescriptor::Option(Box::new(TypeDescriptor::Key)).is_leaf());
    assert!(!TypeDescriptor::List(Box::new(TypeDescriptor::U8)).is_leaf());
    assert!(!TypeDescriptor::Custom("PaymentVoucher".to_string()).is_leaf());
}

#[test]
fn unsigned_text_parsing_accepts_a_plus_sign() {
    assert_eq!(parse_value(&['+', '5']), Some(5));
    assert_eq!(parse_value(&['5']), Some(5));
    assert_eq!(parse_value(&['+']), None);
    assert_eq!(parse_value(&['-', '5']), None);
}

#[test]
fn key_texts_admit_only_the_two_hash_forms() {
    // The engine accepts the package-hash and account-hash forms, as the
    // original's address type did; every other key text is a parse error,
    // including short bid-address payloads.
    let hex = "e24a366ebac487e9f3da31af5b8e2a67accd614c5ff73dbc3c640a347c3b5e49";
    let account = format!("account-hash-{}", hex);
    let bytes = into_bytes(&TypeDescriptor::Key, &account).unwrap();
    assert_eq!(bytes.len(), 33);
    assert_eq!(bytes[0], 0);
    assert!(matches!(
        into_bytes(&TypeDescriptor::Key, "bid-addr-0101").unwrap_err(),
        Error::ParseError(_)
    ));
    assert!(matches!(
        into_bytes(
            &TypeDescriptor::Key,
            "uref-000102030405060708090a0b0c0d0e0f101112131415161718191a1b1c1d1e1f-007"
        )
        .unwrap_err(),
        Error::ParseError(_)
    ));
    // An accepted prefix with bad hex is still a returned error.
    assert!(matches!(
        into_bytes(&TypeDescriptor::Key, "hash-zz").unwrap_err(),
        Error::ParseError(_)
    ));
}

#[test]
fn decode_errors_name_deserialization() {
    assert!(matches!(
        from_bytes(&TypeDescriptor::String, &[9, 0, 0, 0, 104, 105]).unwrap_err(),
        Error::DeserializationError
    ));
    let opt = TypeDescriptor::Option(Box::new(TypeDescriptor::U8));
    assert!(matches!(
        from_bytes(&opt, &[7, 7]).unwrap_err(),
        Error::DeserializationError
    ));
    assert!(matches!(
        from_bytes(&TypeDescriptor::List(Box::new(TypeDescriptor::U8)), &[2, 0, 0, 0, 5])
            .unwrap_err(),
        Error::DeserializationError
    ));
}

#[test]
fn key_and_uref_decode_consume_exactly_with_trailing_bytes() {
    let hex = "e24a366ebac487e9f3da31af5b8e2a67accd614c5ff73dbc3c640a347c3b5e49";
    let mut bytes = into_bytes(&TypeDescriptor::Key, &format!("hash-{}", hex)).unwrap();
    let n = bytes.len();
    bytes.extend([9u8, 9, 9]);
    let (_, consumed) = from_bytes(&TypeDescriptor::Key, &bytes).unwrap();
    assert_eq!(consumed, n);
    let mut bytes = into_bytes(
        &TypeDescriptor::URef,
        &format!("uref-{}-007", "000102030405060708090a0b0c0d0e0f101112131415161718191a1b1c1d1e1f"),
    )
    .unwrap();
    let n = bytes.len();
    bytes.extend([1u8]);
    let (_, consumed) = from_bytes(&TypeDescriptor::URef, &bytes).unwrap();
    assert_eq!(consumed, n);
}
