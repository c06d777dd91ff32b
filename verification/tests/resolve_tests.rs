//! Name resolution: lookups, uniqueness checks, payload references.

use aiprotodsl::ast::{
    AbstractType, BaseType, EnumSection, Literal, MessageField, MessageSection, PayloadSection,
    PayloadSelector, Protocol, ResolvedProtocol, TransportField, TransportSection,
    TransportTypeSpec, TypeDefField, TypeDefSection, TypeSpec,
};
use aiprotodsl::value::{Value, ValueMap};

fn mfield(name: &str, ts: TypeSpec) -> MessageField {
    MessageField {
        name: name.to_string(),
        type_spec: ts,
        default: None,
        constraint: None,
        condition: None,
        quantum: None,
    }
}

fn message(name: &str, fields: Vec<MessageField>) -> MessageSection {
    MessageSection { name: name.to_string(), fields }
}

fn empty_proto() -> Protocol {
    Protocol {
        transport: None,
        payload: None,
        type_defs: vec![],
        enum_defs: vec![],
        messages: vec![],
        structs: vec![],
    }
}

fn transport_cat_len() -> TransportSection {
    TransportSection {
        fields: vec![
            TransportField {
                name: "cat".to_string(),
                type_spec: TransportTypeSpec::Base(BaseType::U8),
                default: None,
                constraint: None,
                quantum: None,
            },
            TransportField {
                name: "len".to_string(),
                type_spec: TransportTypeSpec::Base(BaseType::U16),
                default: None,
                constraint: None,
                quantum: None,
            },
        ],
    }
}

#[test]
fn resolve_minimal() {
    // message M { x: u8; }
    let mut p = empty_proto();
    p.messages = vec![message("M", vec![mfield("x", TypeSpec::Base(BaseType::U8))])];
    let r = ResolvedProtocol::resolve(p).expect("resolve");
    assert!(r.get_message("M").is_some());
}

#[test]
fn resolve_transport_and_payload() {
    // transport { cat: u8; len: u16; }
    // payload { messages: A, B; selector: cat -> 1: A, 2: B; }
    let mut p = empty_proto();
    p.transport = Some(transport_cat_len());
    p.payload = Some(PayloadSection {
        messages: vec!["A".to_string(), "B".to_string()],
        selector: Some(PayloadSelector {
            transport_field: "cat".to_string(),
            value_to_message: vec![
                (Literal::Int(1), "A".to_string(), false),
                (Literal::Int(2), "B".to_string(), false),
            ],
        }),
        repeated: false,
    });
    p.messages = vec![
        message("A", vec![mfield("x", TypeSpec::Base(BaseType::U8))]),
        message("B", vec![mfield("y", TypeSpec::Base(BaseType::U16))]),
    ];
    let r = ResolvedProtocol::resolve(p).expect("resolve");
    assert_eq!(r.messages_after_transport().len(), 2);

    let mut tv = ValueMap::new();
    tv.insert("cat".to_string(), Value::U8(2));
    assert_eq!(r.message_for_transport_values(&tv), Some("B"));
    assert!(!r.payload_repeated());
    assert!(!r.payload_is_list_for_transport(&tv));
}

#[test]
fn resolve_struct_ref() {
    // struct S { a: u8; } message M { id: u8; s: S; }
    let mut p = empty_proto();
    p.structs = vec![aiprotodsl::ast::StructSection {
        name: "S".to_string(),
        fields: vec![aiprotodsl::ast::StructField {
            name: "a".to_string(),
            type_spec: TypeSpec::Base(BaseType::U8),
            default: None,
            constraint: None,
            condition: None,
            quantum: None,
        }],
    }];
    p.messages = vec![message(
        "M",
        vec![
            mfield("id", TypeSpec::Base(BaseType::U8)),
            mfield("s", TypeSpec::StructRef("S".to_string())),
        ],
    )];
    let r = ResolvedProtocol::resolve(p).expect("resolve");
    assert!(r.get_struct("S").is_some());
    assert!(r.get_message("M").is_some());
}

#[test]
fn resolve_type_defs() {
    // type T { x: integer; } enum E { A = 0; } message M { a: u8; }
    let mut p = empty_proto();
    p.type_defs = vec![TypeDefSection {
        name: "T".to_string(),
        fields: vec![TypeDefField {
            name: "x".to_string(),
            abstract_type: AbstractType::Integer,
            optional: false,
            constraint: None,
            quantum: None,
        }],
    }];
    p.enum_defs = vec![EnumSection {
        name: "E".to_string(),
        variants: vec![("A".to_string(), Literal::Int(0))],
    }];
    p.messages = vec![message("M", vec![mfield("a", TypeSpec::Base(BaseType::U8))])];
    let r = ResolvedProtocol::resolve(p).expect("resolve");
    assert!(r.get_type_def("T").is_some());
}

#[test]
fn resolve_duplicate_message_name_fails() {
    let mut p = empty_proto();
    p.messages = vec![
        message("M", vec![mfield("x", TypeSpec::Base(BaseType::U8))]),
        message("M", vec![mfield("y", TypeSpec::Base(BaseType::U16))]),
    ];
    let r = ResolvedProtocol::resolve(p);
    assert!(r.is_err());
    assert!(r.unwrap_err().contains("Duplicate message name"));
}

#[test]
fn resolve_duplicate_struct_name_fails() {
    let mut p = empty_proto();
    let s = |n: &str| aiprotodsl::ast::StructSection { name: n.to_string(), fields: vec![] };
    p.structs = vec![s("S"), s("S")];
    let r = ResolvedProtocol::resolve(p);
    assert!(r.is_err());
    assert!(r.unwrap_err().contains("Duplicate struct name"));
}

#[test]
fn resolve_duplicate_type_name_fails() {
    let mut p = empty_proto();
    let t = |n: &str| TypeDefSection { name: n.to_string(), fields: vec![] };
    p.type_defs = vec![t("T"), t("T")];
    let r = ResolvedProtocol::resolve(p);
    assert!(r.is_err());
    assert!(r.unwrap_err().contains("Duplicate type name"));
}

#[test]
fn resolve_payload_message_undefined_fails() {
    let mut p = empty_proto();
    p.transport = Some(transport_cat_len());
    p.payload = Some(PayloadSection {
        messages: vec!["Missing".to_string()],
        selector: None,
        repeated: false,
    });
    p.messages = vec![message("M", vec![mfield("x", TypeSpec::Base(BaseType::U8))])];
    let r = ResolvedProtocol::resolve(p);
    assert!(r.is_err());
    assert!(r.unwrap_err().contains("not a defined message"));
}

#[test]
fn resolve_selector_message_undefined_fails() {
    let mut p = empty_proto();
    p.transport = Some(transport_cat_len());
    p.payload = Some(PayloadSection {
        messages: vec!["M".to_string()],
        selector: Some(PayloadSelector {
            transport_field: "cat".to_string(),
            value_to_message: vec![(Literal::Int(1), "Missing".to_string(), false)],
        }),
        repeated: false,
    });
    p.messages = vec![message("M", vec![mfield("x", TypeSpec::Base(BaseType::U8))])];
    let r = ResolvedProtocol::resolve(p);
    assert!(r.is_err());
    assert!(r.unwrap_err().contains("not a defined message"));
}

#[test]
fn resolve_struct_ref_undefined_allowed() {
    // Struct references are not resolved here; the codec fails at
    // encode or decode time when the definition is missing.
    let mut p = empty_proto();
    p.messages = vec![message(
        "M",
        vec![
            mfield("id", TypeSpec::Base(BaseType::U8)),
            mfield("s", TypeSpec::StructRef("UnknownStruct".to_string())),
        ],
    )];
    let r = ResolvedProtocol::resolve(p);
    assert!(r.is_ok());
    let resolved = r.unwrap();
    let codec =
        aiprotodsl::codec::Codec::new(resolved, aiprotodsl::codec::Endianness::Big);
    assert!(codec.decode_message("M", &[1, 2]).is_err());
}

#[test]
fn payload_repeated_via_list_selector() {
    let mut p = empty_proto();
    p.transport = Some(transport_cat_len());
    p.payload = Some(PayloadSection {
        messages: vec!["M".to_string()],
        selector: Some(PayloadSelector {
            transport_field: "cat".to_string(),
            value_to_message: vec![(Literal::Int(1), "M".to_string(), true)],
        }),
        repeated: false,
    });
    p.messages = vec![message("M", vec![mfield("x", TypeSpec::Base(BaseType::U8))])];
    let r = ResolvedProtocol::resolve(p).expect("resolve");
    assert!(r.payload_repeated());
    let mut tv = ValueMap::new();
    tv.insert("cat".to_string(), Value::U8(1));
    assert!(r.payload_is_list_for_transport(&tv));
    tv.insert("cat".to_string(), Value::U8(9));
    assert!(!r.payload_is_list_for_transport(&tv));
}
