use casper_types::bytesrepr::ToBytes;
use odra_cli::args::{
    build_complex_arg, compose, decode, entry_point_args, flat_arg, ArgValues, Argument,
    CommandArg, Entrypoint,
};
use odra_cli::registry::register_missing_types;
use odra_cli::schema::{CustomType, CustomTypeSet, StructMember, TypeDescriptor};
use odra_cli::types::Error;

const NAMED_TOKEN_METADATA_BYTES: [u8; 50] = [
    4, 0, 0, 0, 107, 112, 111, 98, 0, 32, 74, 169, 209, 1, 0, 0, 1, 1, 226, 74, 54, 110, 186, 196,
    135, 233, 243, 218, 49, 175, 91, 142, 42, 103, 172, 205, 97, 76, 95, 247, 61, 188, 60, 100,
    10, 52, 124, 59, 94, 73,
];

const NAMED_TOKEN_METADATA_JSON: &str = "{\n  \"token_hash\": \"kpob\",\n  \"expiration\": \"2000000000000\",\n  \"resolver\": \"Key::Hash(e24a366ebac487e9f3da31af5b8e2a67accd614c5ff73dbc3c640a347c3b5e49)\"\n}";

fn member(name: &str, ty: TypeDescriptor) -> StructMember {
    StructMember {
        name: name.to_string(),
        description: String::new(),
        ty,
    }
}

fn custom_types() -> CustomTypeSet {
    let mut types = CustomTypeSet::new();
    types.insert(CustomType::Struct {
        name: "PaymentVoucher".to_string(),
        members: vec![
            member("payment", TypeDescriptor::Custom("PaymentInfo".to_string())),
            member(
                "names",
                TypeDescriptor::List(Box::new(TypeDescriptor::Custom(
                    "NameMintInfo".to_string(),
                ))),
            ),
            member("voucher_expiration", TypeDescriptor::U64),
        ],
    });
    types.insert(CustomType::Struct {
        name: "PaymentInfo".to_string(),
        members: vec![
            member("buyer", TypeDescriptor::Key),
            member("payment_id", TypeDescriptor::String),
            member("amount", TypeDescriptor::U512),
        ],
    });
    register_missing_types(&mut types);
    types
}

fn entry_point() -> Entrypoint {
    Entrypoint {
        name: "test".to_string(),
        description: String::new(),
        arguments: vec![
            Argument {
                name: "voucher".to_string(),
                ty: TypeDescriptor::Custom("PaymentVoucher".to_string()),
                optional: false,
                description: String::new(),
            },
            Argument {
                name: "signature".to_string(),
                ty: TypeDescriptor::List(Box::new(TypeDescriptor::U8)),
                optional: false,
                description: String::new(),
            },
        ],
        return_ty: TypeDescriptor::Bool,
        is_mutable: false,
    }
}

fn command_args() -> Vec<CommandArg> {
    vec![
        CommandArg::new("voucher.payment.buyer", "", TypeDescriptor::Key, true, false),
        CommandArg::new(
            "voucher.payment.payment_id",
            "",
            TypeDescriptor::String,
            true,
            false,
        ),
        CommandArg::new("voucher.payment.amount", "", TypeDescriptor::U512, true, false),
        CommandArg::new("voucher.names.label", "", TypeDescriptor::String, true, true),
        CommandArg::new("voucher.names.owner", "", TypeDescriptor::Key, true, true),
        CommandArg::new(
            "voucher.names.token_expiration",
            "",
            TypeDescriptor::U64,
            true,
            true,
        ),
        CommandArg::new(
            "voucher.voucher_expiration",
            "",
            TypeDescriptor::U64,
            true,
            false,
        ),
        CommandArg::new("signature", "", TypeDescriptor::U8, true, true),
    ]
}

fn assert_same_leaves(actual: &[CommandArg], expected: &[CommandArg]) {
    assert_eq!(actual.len(), expected.len());
    for (a, e) in actual.iter().zip(expected.iter()) {
        assert_eq!(a.name, e.name);
        assert_eq!(a.required, e.required);
        assert_eq!(a.ty, e.ty);
        assert_eq!(a.is_list_element, e.is_list_element);
        assert_eq!(a.description, e.description);
    }
}

#[test]
fn test_decode() {
    let custom_types = custom_types();
    let ty = TypeDescriptor::Custom("NameTokenMetadata".to_string());
    let (result, consumed) = decode(&NAMED_TOKEN_METADATA_BYTES, &ty, &custom_types).unwrap();
    assert_eq!(result, NAMED_TOKEN_METADATA_JSON);
    assert_eq!(consumed, NAMED_TOKEN_METADATA_BYTES.len());
}

#[test]
fn test_command_args() {
    let entry_point = entry_point();
    let custom_types = custom_types();
    let mut args: Vec<CommandArg> = Vec::new();
    for arg in &entry_point.arguments {
        args.extend(flat_arg(arg, &custom_types, false).unwrap());
    }
    let expected = command_args();
    assert_same_leaves(&args, &expected);
    let all = entry_point_args(&entry_point, &custom_types).unwrap();
    assert_same_leaves(&all, &expected);
}

fn values(pairs: &[(&str, &[&str])]) -> ArgValues {
    let mut map = ArgValues::new();
    for (path, vals) in pairs {
        map.push(
            path.to_string(),
            vals.iter().map(|v| v.to_string()).collect(),
        );
    }
    map
}

const BUYER: &str = "hash-56fef1f62d86ab68655c2a5d1c8b9ed8e60d5f7e59736e9d4c215a40b10f4a22";
const OWNER: &str = "hash-f01cec215ddfd4c4a19d58f9c917023391a1da871e047dc47a83ae55f6cfc20a";

#[test]
fn test_compose() {
    let entry_point = entry_point();
    let types = custom_types();
    let args = values(&[
        ("voucher.payment.buyer", &[BUYER]),
        ("voucher.payment.payment_id", &["id_001"]),
        ("voucher.payment.amount", &["666"]),
        ("voucher.names.label", &["kpob", "qwerty"]),
        ("voucher.names.owner", &[OWNER, OWNER]),
        ("voucher.names.token_expiration", &["1000000", "1000000"]),
        ("voucher.voucher_expiration", &["2000000"]),
        ("signature", &["1,148,81,107,136,16,186,87,48,202,151"]),
    ]);
    let composed = compose(&entry_point, &args, &types).unwrap();
    assert_eq!(composed.len(), 2);
    assert_eq!(composed[0].0, "voucher");
    assert_eq!(composed[1].0, "signature");

    // The voucher payload must be the record serialized field by field,
    // with the repeated names written as a counted run of whole records.
    let mut expected: Vec<u8> = Vec::new();
    let buyer = casper_types::Key::from_formatted_str(BUYER).unwrap();
    expected.extend(buyer.to_bytes().unwrap());
    expected.extend("id_001".to_string().to_bytes().unwrap());
    expected.extend(casper_types::U512::from_dec_str("666").unwrap().to_bytes().unwrap());
    expected.extend(2u32.to_bytes().unwrap());
    let owner = casper_types::Key::from_formatted_str(OWNER).unwrap();
    for label in ["kpob", "qwerty"] {
        expected.extend(label.to_string().to_bytes().unwrap());
        expected.extend(owner.to_bytes().unwrap());
        expected.extend(1000000u64.to_bytes().unwrap());
    }
    expected.extend(2000000u64.to_bytes().unwrap());
    assert_eq!(composed[0].1, expected);

    let mut expected_sig: Vec<u8> = Vec::new();
    expected_sig.extend(11u32.to_bytes().unwrap());
    expected_sig.extend([1u8, 148, 81, 107, 136, 16, 186, 87, 48, 202, 151]);
    assert_eq!(composed[1].1, expected_sig);
}

#[test]
fn grouped_composite_interleaves_records() {
    // A struct with fields {a: String, b: U64} supplied as two parallel
    // columns must compose into count=2, then each record in field order.
    let leaves = vec![
        CommandArg::new("arg.rec.a", "", TypeDescriptor::String, true, true),
        CommandArg::new("arg.rec.b", "", TypeDescriptor::U64, true, true),
    ];
    let args = values(&[("arg.rec.a", &["x", "y"]), ("arg.rec.b", &["1", "2"])]);
    let bytes = build_complex_arg(&leaves, &args).unwrap();
    let mut expected: Vec<u8> = Vec::new();
    expected.extend(2u32.to_bytes().unwrap());
    expected.extend("x".to_string().to_bytes().unwrap());
    expected.extend(1u64.to_bytes().unwrap());
    expected.extend("y".to_string().to_bytes().unwrap());
    expected.extend(2u64.to_bytes().unwrap());
    assert_eq!(bytes, expected);
}

#[test]
fn missing_optional_contributes_nothing() {
    let leaves = vec![
        CommandArg::new("arg.rec.a", "", TypeDescriptor::String, true, false),
        CommandArg::new("arg.rec.b", "", TypeDescriptor::U64, false, false),
    ];
    let args = values(&[("arg.rec.a", &["x"])]);
    let bytes = build_complex_arg(&leaves, &args).unwrap();
    let expected = "x".to_string().to_bytes().unwrap();
    assert_eq!(bytes, expected);
}

#[test]
fn missing_required_is_an_error() {
    let leaves = vec![CommandArg::new("arg.rec.a", "", TypeDescriptor::String, true, false)];
    let args = values(&[]);
    let err = build_complex_arg(&leaves, &args).unwrap_err();
    assert!(matches!(err, Error::MissingRequiredValue(p) if p == "arg.rec.a"));
}

#[test]
fn unknown_type_fails_flatten_and_decode() {
    let types = custom_types();
    let arg = Argument {
        name: "thing".to_string(),
        ty: TypeDescriptor::Custom("DoesNotExist".to_string()),
        optional: false,
        description: String::new(),
    };
    let err = flat_arg(&arg, &types, false).unwrap_err();
    assert!(matches!(err, Error::UnknownType(n) if n == "DoesNotExist"));
    let err = decode(&[0u8, 0, 0, 0], &arg.ty, &types).unwrap_err();
    assert!(matches!(err, Error::UnknownType(n) if n == "DoesNotExist"));
}

#[test]
fn enum_decodes_to_variant_name() {
    let mut types = CustomTypeSet::new();
    types.insert(CustomType::Enum {
        name: "Mode".to_string(),
        variants: vec![
            odra_cli::schema::EnumVariant {
                name: "Off".to_string(),
                description: String::new(),
                discriminant: 0,
                ty: TypeDescriptor::Unit,
            },
            odra_cli::schema::EnumVariant {
                name: "On".to_string(),
                description: String::new(),
                discriminant: 1,
                ty: TypeDescriptor::Unit,
            },
        ],
    });
    let ty = TypeDescriptor::Custom("Mode".to_string());
    let (text, consumed) = decode(&[1u8, 99], &ty, &types).unwrap();
    assert_eq!(text, "On");
    assert_eq!(consumed, 1);
    let err = decode(&[7u8], &ty, &types).unwrap_err();
    assert!(matches!(err, Error::VariantNotFound(7)));
}

#[test]
fn list_of_structs_decodes_through_registry() {
    let types = custom_types();
    // Two TokenRenewalInfo records: {token_id: "a", token_expiration: 5}.
    let mut bytes: Vec<u8> = Vec::new();
    bytes.extend(2u32.to_bytes().unwrap());
    for id in ["a", "b"] {
        bytes.extend(id.to_string().to_bytes().unwrap());
        bytes.extend(5u64.to_bytes().unwrap());
    }
    let ty = TypeDescriptor::List(Box::new(TypeDescriptor::Custom(
        "TokenRenewalInfo".to_string(),
    )));
    let (text, consumed) = decode(&bytes, &ty, &types).unwrap();
    assert_eq!(consumed, bytes.len());
    assert!(text.starts_with("[\n"));
    assert!(text.contains("\"token_id\": \"a\""));
    assert!(text.contains("\"token_id\": \"b\""));
}

#[test]
fn absent_optional_composite_is_skipped() {
    // An optional composite argument with no values under any of its
    // leaves contributes no entry at all, not an empty payload.
    let types = custom_types();
    let entry_point = Entrypoint {
        name: "test".to_string(),
        description: String::new(),
        arguments: vec![
            Argument {
                name: "voucher".to_string(),
                ty: TypeDescriptor::Custom("PaymentVoucher".to_string()),
                optional: true,
                description: String::new(),
            },
            Argument {
                name: "flag".to_string(),
                ty: TypeDescriptor::Bool,
                optional: false,
                description: String::new(),
            },
        ],
        return_ty: TypeDescriptor::Bool,
        is_mutable: false,
    };
    let args = values(&[("flag", &["true"])]);
    let composed = compose(&entry_point, &args, &types).unwrap();
    assert_eq!(composed.len(), 1);
    assert_eq!(composed[0].0, "flag");
    assert_eq!(composed[0].1, vec![1u8]);
}

#[test]
fn single_member_argument_reads_its_leaf_path() {
    // A Custom argument that flattens to one leaf takes its value from
    // the leaf's dotted path, the flag the front end registers.
    let mut types = CustomTypeSet::new();
    types.insert(CustomType::Struct {
        name: "Wrapper".to_string(),
        members: vec![member("amount", TypeDescriptor::U64)],
    });
    let entry_point = Entrypoint {
        name: "test".to_string(),
        description: String::new(),
        arguments: vec![Argument {
            name: "wrapped".to_string(),
            ty: TypeDescriptor::Custom("Wrapper".to_string()),
            optional: false,
            description: String::new(),
        }],
        return_ty: TypeDescriptor::Bool,
        is_mutable: false,
    };
    let args = values(&[("wrapped.amount", &["7"])]);
    let composed = compose(&entry_point, &args, &types).unwrap();
    assert_eq!(composed.len(), 1);
    assert_eq!(composed[0].0, "wrapped");
    assert_eq!(composed[0].1, vec![7, 0, 0, 0, 0, 0, 0, 0]);
}

#[test]
fn flattening_carries_member_descriptions() {
    let mut types = CustomTypeSet::new();
    types.insert(CustomType::Struct {
        name: "Described".to_string(),
        members: vec![StructMember {
            name: "amount".to_string(),
            description: "the amount in motes".to_string(),
            ty: TypeDescriptor::U64,
        }],
    });
    let arg = Argument {
        name: "payment".to_string(),
        ty: TypeDescriptor::Custom("Described".to_string()),
        optional: false,
        description: String::new(),
    };
    let leaves = flat_arg(&arg, &types, false).unwrap();
    assert_eq!(leaves.len(), 1);
    assert_eq!(leaves[0].name, "payment.amount");
    assert_eq!(leaves[0].description, "the amount in motes");
}

#[test]
fn missing_required_single_leaf_names_its_path() {
    let mut types = CustomTypeSet::new();
    types.insert(CustomType::Struct {
        name: "Wrapper".to_string(),
        members: vec![member("amount", TypeDescriptor::U64)],
    });
    let entry_point = Entrypoint {
        name: "test".to_string(),
        description: String::new(),
        arguments: vec![Argument {
            name: "wrapped".to_string(),
            ty: TypeDescriptor::Custom("Wrapper".to_string()),
            optional: false,
            description: String::new(),
        }],
        return_ty: TypeDescriptor::Bool,
        is_mutable: false,
    };
    let err = compose(&entry_point, &values(&[]), &types).unwrap_err();
    assert!(matches!(err, Error::MissingRequiredValue(p) if p == "wrapped.amount"));
}
