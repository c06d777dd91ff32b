//! Codec, walk engine and frame layer behaviour over concrete protocols.

use aiprotodsl::ast::{
    ArrayLen, BaseType, Condition, Constraint, Literal, MessageField, MessageSection, Protocol,
    ResolvedProtocol, StructField, StructSection, TransportField, TransportSection,
    TransportTypeSpec, TypeSpec,
};
use aiprotodsl::codec::{Codec, CodecError, Endianness};
use aiprotodsl::frame::{decode_frame, encode_frame_with_compliant_only};
use aiprotodsl::value::{Value, ValueMap};
use aiprotodsl::walk;
use aiprotodsl::walk::{
    message_extent, remove_message_in_place, validate_and_zero_message_in_place,
    validate_message_in_place, write_u32_in_place, zero_padding_reserved_in_place, BinaryWalker,
    BinaryWalkerMut,
};

fn mfield(name: &str, ts: TypeSpec) -> MessageField {
    MessageField {
        name: name.to_string(),
        type_spec: ts,
        default: None,
        constraint: None,
        condition: None,
        quantum: None,
    }
}

fn mfield_c(name: &str, ts: TypeSpec, c: Constraint) -> MessageField {
    MessageField {
        name: name.to_string(),
        type_spec: ts,
        default: None,
        constraint: Some(c),
        condition: None,
        quantum: None,
    }
}

fn sfield(name: &str, ts: TypeSpec) -> StructField {
    StructField {
        name: name.to_string(),
        type_spec: ts,
        default: None,
        constraint: None,
        condition: None,
        quantum: None,
    }
}

fn proto(messages: Vec<MessageSection>, structs: Vec<StructSection>) -> Protocol {
    Protocol {
        transport: None,
        payload: None,
        type_defs: vec![],
        enum_defs: vec![],
        messages,
        structs,
    }
}

fn simple_proto() -> ResolvedProtocol {
    // message Simple { id: u8; len: u16; data: list<u8>; }
    let m = MessageSection {
        name: "Simple".to_string(),
        fields: vec![
            mfield("id", TypeSpec::Base(BaseType::U8)),
            mfield("len", TypeSpec::Base(BaseType::U16)),
            mfield("data", TypeSpec::List(Box::new(TypeSpec::Base(BaseType::U8)))),
        ],
    };
    ResolvedProtocol::resolve(proto(vec![m], vec![])).expect("resolve")
}

fn bounded_proto() -> ResolvedProtocol {
    // message Bounded { kind: u8 [0..10]; value: u32 [0..1000]; }
    let m = MessageSection {
        name: "Bounded".to_string(),
        fields: vec![
            mfield_c("kind", TypeSpec::Base(BaseType::U8), Constraint::Range(vec![(0, 10)])),
            mfield_c("value", TypeSpec::Base(BaseType::U32), Constraint::Range(vec![(0, 1000)])),
        ],
    };
    ResolvedProtocol::resolve(proto(vec![m], vec![])).expect("resolve")
}

fn simple_values(id: u8, len: u16, data: &[u8]) -> ValueMap {
    let mut v = ValueMap::new();
    v.insert("id".to_string(), Value::U8(id));
    v.insert("len".to_string(), Value::U16(len));
    v.insert(
        "data".to_string(),
        Value::List(data.iter().map(|b| Value::U8(*b)).collect()),
    );
    v
}

#[test]
fn test_encode_decode_simple() {
    let codec = Codec::new(simple_proto(), Endianness::Little);
    let values = simple_values(42, 3, &[1, 2, 3]);
    let encoded = codec.encode_message("Simple", &values).expect("encode");
    assert!(encoded.len() >= 3 + 2 + 1 + 4);

    let decoded = codec.decode_message("Simple", &encoded).expect("decode");
    assert_eq!(decoded.get("id").and_then(Value::as_u64), Some(42));
    assert_eq!(decoded.get("len").and_then(Value::as_u64), Some(3));
}

#[test]
fn test_validation_constraint() {
    let codec = Codec::new(bounded_proto(), Endianness::Little);
    let mut values = ValueMap::new();
    values.insert("kind".to_string(), Value::U8(5));
    values.insert("value".to_string(), Value::U32(500));
    let encoded = codec.encode_message("Bounded", &values).expect("encode");
    let decoded = codec.decode_message("Bounded", &encoded).expect("decode");
    assert_eq!(decoded.get("kind").and_then(Value::as_u64), Some(5));

    let mut bad = encoded.clone();
    bad[0] = 20;
    let (consumed, result) = codec.decode_message_with_extent("Bounded", &bad);
    assert!(consumed > 0);
    assert!(result.is_err());
    // A rejected record still reports the full extent, so a frame can skip it.
    assert_eq!(consumed, encoded.len());
}

#[test]
fn test_validation_constraint_multiple_intervals() {
    // message MultiRange { code: u8 [0..2, 10..15, 100..100]; }
    let m = MessageSection {
        name: "MultiRange".to_string(),
        fields: vec![mfield_c(
            "code",
            TypeSpec::Base(BaseType::U8),
            Constraint::Range(vec![(0, 2), (10, 15), (100, 100)]),
        )],
    };
    let resolved = ResolvedProtocol::resolve(proto(vec![m], vec![])).expect("resolve");
    let codec = Codec::new(resolved, Endianness::Little);

    for (val, valid) in [
        (0u8, true),
        (2, true),
        (5, false),
        (10, true),
        (15, true),
        (20, false),
        (100, true),
    ] {
        let mut values = ValueMap::new();
        values.insert("code".to_string(), Value::U8(val));
        let encoded = codec.encode_message("MultiRange", &values).expect("encode");
        let result = codec.decode_message("MultiRange", &encoded);
        if valid {
            let decoded = result.expect("decode");
            assert_eq!(decoded.get("code").and_then(Value::as_u64), Some(val as u64));
        } else {
            assert!(result.is_err(), "value {} should fail validation", val);
        }
    }
}

#[test]
fn test_frame_decode_multiple_messages() {
    let codec = Codec::new(simple_proto(), Endianness::Little);
    let b1 = codec.encode_message("Simple", &simple_values(1, 0, &[])).expect("encode");
    let b2 = codec.encode_message("Simple", &simple_values(2, 0, &[])).expect("encode");
    let frame_bytes: Vec<u8> = b1.into_iter().chain(b2.into_iter()).collect();

    let result = decode_frame(&codec, "Simple", &frame_bytes, None).expect("frame decode");
    assert_eq!(result.messages.len(), 2);
    assert_eq!(result.removed.len(), 0);
}

#[test]
fn test_padding_reserved_zeroed_on_encode() {
    // transport { padding: padding(2); value: u16; }
    let transport = TransportSection {
        fields: vec![
            TransportField {
                name: "padding".to_string(),
                type_spec: TransportTypeSpec::Padding(2),
                default: None,
                constraint: None,
                quantum: None,
            },
            TransportField {
                name: "value".to_string(),
                type_spec: TransportTypeSpec::Base(BaseType::U16),
                default: None,
                constraint: None,
                quantum: None,
            },
        ],
    };
    let m = MessageSection {
        name: "M".to_string(),
        fields: vec![mfield("x", TypeSpec::Base(BaseType::U8))],
    };
    let mut p = proto(vec![m], vec![]);
    p.transport = Some(transport);
    let resolved = ResolvedProtocol::resolve(p).expect("resolve");
    let codec = Codec::new(resolved, Endianness::Big);

    let mut tv = ValueMap::new();
    tv.insert("value".to_string(), Value::U16(0x1234));
    let encoded = codec.encode_transport(&tv).expect("encode");
    assert_eq!(encoded.len(), 2 + 2);
    assert_eq!(encoded[0], 0);
    assert_eq!(encoded[1], 0);
    assert_eq!(encoded[2], 0x12);
    assert_eq!(encoded[3], 0x34);
}

#[test]
fn test_walk_message_extent_and_validate() {
    let resolved = simple_proto();
    let codec = Codec::new(simple_proto(), Endianness::Little);
    let endianness = walk::Endianness::Little;

    let v = simple_values(10, 2, &[0xaa, 0xbb]);
    let encoded = codec.encode_message("Simple", &v).expect("encode");

    let extent = message_extent(&encoded, 0, &resolved, endianness, "Simple").expect("extent");
    assert_eq!(extent, encoded.len());

    validate_message_in_place(&encoded, 0, &resolved, endianness, "Simple").expect("valid");

    let resolved_bounded = bounded_proto();
    let codec_bounded = Codec::new(bounded_proto(), Endianness::Little);
    let mut vb = ValueMap::new();
    vb.insert("kind".to_string(), Value::U8(5));
    vb.insert("value".to_string(), Value::U32(500));
    let encoded_bounded = codec_bounded.encode_message("Bounded", &vb).expect("encode");
    validate_message_in_place(&encoded_bounded, 0, &resolved_bounded, endianness, "Bounded")
        .expect("valid");

    let mut invalid = encoded_bounded.clone();
    invalid[0] = 20;
    let ok = validate_message_in_place(&invalid, 0, &resolved_bounded, endianness, "Bounded");
    assert!(ok.is_err());
}

#[test]
fn test_walk_zero_padding_reserved_in_place() {
    // message WithReserved { a: u8; padding: padding(2); b: u16; }
    let m = MessageSection {
        name: "WithReserved".to_string(),
        fields: vec![
            mfield("a", TypeSpec::Base(BaseType::U8)),
            mfield("padding", TypeSpec::Padding(2)),
            mfield("b", TypeSpec::Base(BaseType::U16)),
        ],
    };
    let resolved = ResolvedProtocol::resolve(proto(vec![m], vec![])).expect("resolve");
    let m2 = MessageSection {
        name: "WithReserved".to_string(),
        fields: vec![
            mfield("a", TypeSpec::Base(BaseType::U8)),
            mfield("padding", TypeSpec::Padding(2)),
            mfield("b", TypeSpec::Base(BaseType::U16)),
        ],
    };
    let resolved2 = ResolvedProtocol::resolve(proto(vec![m2], vec![])).expect("resolve");
    let codec = Codec::new(resolved2, Endianness::Little);
    let endianness = walk::Endianness::Little;

    let mut v = ValueMap::new();
    v.insert("a".to_string(), Value::U8(1));
    v.insert("b".to_string(), Value::U16(0x1234));
    let mut buf = codec.encode_message("WithReserved", &v).expect("encode");
    buf[1] = 0xff;
    buf[2] = 0xff;

    zero_padding_reserved_in_place(&mut buf, 0, &resolved, endianness, "WithReserved")
        .expect("zero");
    assert_eq!(buf[1], 0);
    assert_eq!(buf[2], 0);
    assert_eq!(buf[0], 1);
    assert_eq!(buf[3], 0x34);
    assert_eq!(buf[4], 0x12);
}

#[test]
fn test_walk_remove_message_in_place() {
    let resolved = simple_proto();
    let codec = Codec::new(simple_proto(), Endianness::Little);
    let endianness = walk::Endianness::Little;

    let b1 = codec.encode_message("Simple", &simple_values(1, 0, &[])).expect("encode");
    let b2 = codec.encode_message("Simple", &simple_values(2, 0, &[])).expect("encode");
    let mut frame_bytes: Vec<u8> = b1.into_iter().chain(b2.into_iter()).collect();
    let orig_len = frame_bytes.len();

    let extent1 = message_extent(&frame_bytes, 0, &resolved, endianness, "Simple").expect("extent");
    let new_len = remove_message_in_place(&mut frame_bytes, 0, extent1);
    frame_bytes.truncate(new_len);

    assert_eq!(frame_bytes.len(), orig_len - extent1);
    let extent2 = message_extent(&frame_bytes, 0, &resolved, endianness, "Simple").expect("extent");
    assert_eq!(extent2, frame_bytes.len());
    validate_message_in_place(&frame_bytes, 0, &resolved, endianness, "Simple").expect("valid");
}

#[test]
fn test_presence_bits_encode_decode() {
    // message WithPresence { flags: presence_bits(1); a: optional<u8>; b: optional<u16>; }
    let m = MessageSection {
        name: "WithPresence".to_string(),
        fields: vec![
            mfield("flags", TypeSpec::PresenceBits(1)),
            mfield("a", TypeSpec::Optional(Box::new(TypeSpec::Base(BaseType::U8)))),
            mfield("b", TypeSpec::Optional(Box::new(TypeSpec::Base(BaseType::U16)))),
        ],
    };
    let resolved = ResolvedProtocol::resolve(proto(vec![m], vec![])).expect("resolve");
    let codec = Codec::new(resolved, Endianness::Little);

    let mut v = ValueMap::new();
    v.insert("flags".to_string(), Value::U64(3));
    v.insert("a".to_string(), Value::List(vec![Value::U8(10)]));
    v.insert("b".to_string(), Value::List(vec![Value::U16(0x1234)]));
    let encoded = codec.encode_message("WithPresence", &v).expect("encode");
    assert_eq!(encoded.len(), 1 + 1 + 2);
    assert_eq!(encoded[0], 3);
    assert_eq!(encoded[1], 10);
    assert_eq!(encoded[2], 0x34);
    assert_eq!(encoded[3], 0x12);

    let decoded = codec.decode_message("WithPresence", &encoded).expect("decode");
    assert_eq!(decoded.get("flags").and_then(Value::as_u64), Some(3));
    assert_eq!(decoded.get("a"), Some(&Value::U8(10)));
    assert_eq!(decoded.get("b"), Some(&Value::U16(0x1234)));

    let mut v2 = ValueMap::new();
    v2.insert("a".to_string(), Value::List(vec![Value::U8(42)]));
    v2.insert("b".to_string(), Value::List(vec![]));
    let encoded2 = codec.encode_message("WithPresence", &v2).expect("encode");
    assert_eq!(encoded2.len(), 1 + 1);
    assert_eq!(encoded2[0], 1);
    assert_eq!(encoded2[1], 42);

    let decoded2 = codec.decode_message("WithPresence", &encoded2).expect("decode");
    assert_eq!(decoded2.get("flags").and_then(Value::as_u64), Some(1));
    assert_eq!(decoded2.get("a"), Some(&Value::U8(42)));
    assert_eq!(decoded2.get("b"), Some(&Value::List(vec![])));
}

#[test]
fn test_fspec_encode_decode() {
    // message FspecRecord { fspec: bitmap(2,7) -> (0:a, 1:b); a: optional<u8>; b: optional<u16>; }
    let m = MessageSection {
        name: "FspecRecord".to_string(),
        fields: vec![
            mfield(
                "fspec",
                TypeSpec::BitmapPresence {
                    total_bits: 2,
                    presence_per_block: 7,
                    mapping: vec![(0, "a".to_string()), (1, "b".to_string())],
                },
            ),
            mfield("a", TypeSpec::Optional(Box::new(TypeSpec::Base(BaseType::U8)))),
            mfield("b", TypeSpec::Optional(Box::new(TypeSpec::Base(BaseType::U16)))),
        ],
    };
    let resolved = ResolvedProtocol::resolve(proto(vec![m], vec![])).expect("resolve");
    let codec = Codec::new(resolved, Endianness::Little);

    let mut v = ValueMap::new();
    v.insert("fspec".to_string(), Value::Bytes(vec![]));
    v.insert("a".to_string(), Value::List(vec![Value::U8(10)]));
    v.insert("b".to_string(), Value::List(vec![Value::U16(0x1234)]));
    let encoded = codec.encode_message("FspecRecord", &v).expect("encode");
    assert!(encoded.len() >= 2);
    assert_eq!(encoded[0] & 0x7f, 0x40);
    let decoded = codec.decode_message("FspecRecord", &encoded).expect("decode");
    assert_eq!(decoded.get("a"), Some(&Value::U8(10)));
    assert_eq!(decoded.get("b"), Some(&Value::U16(0x1234)));
}

fn nest_level(name: &str, inner_bit_name: &str, inner: TypeSpec) -> StructSection {
    StructSection {
        name: name.to_string(),
        fields: vec![
            sfield(
                "fspec",
                TypeSpec::BitmapPresence {
                    total_bits: 1,
                    presence_per_block: 7,
                    mapping: vec![(0, inner_bit_name.to_string())],
                },
            ),
            sfield(inner_bit_name, TypeSpec::Optional(Box::new(inner))),
        ],
    }
}

#[test]
fn test_nested_fspec_presence_stack_depth_5() {
    let structs = vec![
        nest_level("Level1", "b", TypeSpec::StructRef("Level2".to_string())),
        nest_level("Level2", "c", TypeSpec::StructRef("Level3".to_string())),
        nest_level("Level3", "d", TypeSpec::StructRef("Level4".to_string())),
        nest_level("Level4", "e", TypeSpec::StructRef("Level5".to_string())),
        {
            let mut s = nest_level("Level5", "v", TypeSpec::Base(BaseType::U8));
            s.fields[1].constraint = Some(Constraint::Range(vec![(0, 255)]));
            s
        },
    ];
    let m = MessageSection {
        name: "Nest5".to_string(),
        fields: vec![
            mfield(
                "fspec",
                TypeSpec::BitmapPresence {
                    total_bits: 1,
                    presence_per_block: 7,
                    mapping: vec![(0, "a".to_string())],
                },
            ),
            mfield("a", TypeSpec::Optional(Box::new(TypeSpec::StructRef("Level1".to_string())))),
        ],
    };
    let resolved = ResolvedProtocol::resolve(proto(vec![m], structs)).expect("resolve");
    let codec = Codec::new(resolved, Endianness::Big);

    let mut v5 = ValueMap::new();
    v5.insert("v".to_string(), Value::List(vec![Value::U8(42)]));
    let mut v4 = ValueMap::new();
    v4.insert("e".to_string(), Value::List(vec![Value::Struct(v5)]));
    let mut v3 = ValueMap::new();
    v3.insert("d".to_string(), Value::List(vec![Value::Struct(v4)]));
    let mut v2 = ValueMap::new();
    v2.insert("c".to_string(), Value::List(vec![Value::Struct(v3)]));
    let mut v1 = ValueMap::new();
    v1.insert("b".to_string(), Value::List(vec![Value::Struct(v2)]));
    let mut msg = ValueMap::new();
    msg.insert("a".to_string(), Value::List(vec![Value::Struct(v1)]));

    let encoded = codec.encode_message("Nest5", &msg).expect("encode");
    assert!(encoded.len() >= 7, "encoded should have at least 7 bytes, got {}", encoded.len());
    assert_eq!(encoded, vec![0x80, 0x80, 0x80, 0x80, 0x80, 0x80, 0x2A]);

    let decoded = codec.decode_message("Nest5", &encoded).expect("decode");
    let a = decoded.get("a").and_then(Value::as_struct).expect("a present");
    let b = a.get("b").and_then(Value::as_struct).expect("b present");
    let c = b.get("c").and_then(Value::as_struct).expect("c present");
    let d = c.get("d").and_then(Value::as_struct).expect("d present");
    let e = d.get("e").and_then(Value::as_struct).expect("e present");
    let leaf = e.get("v").and_then(Value::as_u64).expect("v present");
    assert_eq!(leaf, 42, "leaf value should be 42 after decode (presence stack depth 5)");
}

#[test]
fn extent_agrees_with_decode_consumed() {
    let resolved = simple_proto();
    let codec = Codec::new(simple_proto(), Endianness::Big);
    let v = simple_values(7, 4, &[1, 2, 3, 4]);
    let encoded = codec.encode_message("Simple", &v).expect("encode");
    let (consumed, result) = codec.decode_message_with_extent("Simple", &encoded);
    assert!(result.is_ok());
    let extent =
        message_extent(&encoded, 0, &resolved, walk::Endianness::Big, "Simple").expect("extent");
    assert_eq!(extent, consumed);
}

#[test]
fn roundtrip_is_stable_after_decode() {
    let codec = Codec::new(simple_proto(), Endianness::Big);
    let v = simple_values(9, 2, &[0xde, 0xad]);
    let encoded = codec.encode_message("Simple", &v).expect("encode");
    let decoded = codec.decode_message("Simple", &encoded).expect("decode");
    let encoded2 = codec.encode_message("Simple", &decoded).expect("encode");
    assert_eq!(encoded, encoded2);
    let decoded2 = codec.decode_message("Simple", &encoded2).expect("decode");
    assert_eq!(decoded.get("id"), decoded2.get("id"));
    assert_eq!(decoded.get("len"), decoded2.get("len"));
    assert_eq!(decoded.get("data"), decoded2.get("data"));
}

#[test]
fn unknown_message_gives_unknown_struct_error() {
    let codec = Codec::new(simple_proto(), Endianness::Big);
    let (consumed, result) = codec.decode_message_with_extent("Missing", &[1, 2, 3]);
    assert_eq!(consumed, 0);
    assert!(matches!(result, Err(CodecError::UnknownStruct(_))));
}

#[test]
fn short_buffer_is_reported() {
    let resolved = simple_proto();
    let r = message_extent(&[1u8], 0, &resolved, walk::Endianness::Big, "Simple");
    assert!(matches!(r, Err(CodecError::ShortBuffer)));
}

#[test]
fn sized_int_sign_extends() {
    // message S { v: i16 stored in 10 bits }
    let m = MessageSection {
        name: "S".to_string(),
        fields: vec![mfield("v", TypeSpec::SizedInt(BaseType::I16, 10))],
    };
    let resolved = ResolvedProtocol::resolve(proto(vec![m], vec![])).expect("resolve");
    let codec = Codec::new(resolved, Endianness::Big);
    // 10 bits occupy 2 bytes when byte-aligned; 0x03FF is -1 in 10 bits.
    let decoded = codec.decode_message("S", &[0x03, 0xFF]).expect("decode");
    assert_eq!(decoded.get("v"), Some(&Value::I16(-1)));
}

#[test]
fn bitfields_share_bytes_and_must_realign() {
    // message B { hi: bitfield(4); lo: bitfield(4); tail: u8 }
    let m = MessageSection {
        name: "B".to_string(),
        fields: vec![
            mfield("hi", TypeSpec::Bitfield(4)),
            mfield("lo", TypeSpec::Bitfield(4)),
            mfield("tail", TypeSpec::Base(BaseType::U8)),
        ],
    };
    let resolved = ResolvedProtocol::resolve(proto(vec![m], vec![])).expect("resolve");
    let codec = Codec::new(resolved, Endianness::Big);
    // Bits are taken least-significant first: 0x2A = 0b0010_1010.
    let decoded = codec.decode_message("B", &[0x2A, 7]).expect("decode");
    assert_eq!(decoded.get("hi").and_then(Value::as_u64), Some(0x0A));
    assert_eq!(decoded.get("lo").and_then(Value::as_u64), Some(0x02));
    assert_eq!(decoded.get("tail").and_then(Value::as_u64), Some(7));
    let (consumed, _) = codec.decode_message_with_extent("B", &[0x2A, 7]);
    assert_eq!(consumed, 2);
}

#[test]
fn unaligned_scope_end_is_an_error() {
    // message U { one: bitfield(3); } leaves the scope off a byte boundary.
    let m = MessageSection {
        name: "U".to_string(),
        fields: vec![mfield("one", TypeSpec::Bitfield(3))],
    };
    let resolved = ResolvedProtocol::resolve(proto(vec![m], vec![])).expect("resolve");
    let codec = Codec::new(resolved, Endianness::Big);
    assert!(codec.decode_message("U", &[0xFF]).is_err());
    let v = ValueMap::new();
    assert!(codec.encode_message("U", &v).is_err());
}

#[test]
fn octets_fx_keeps_terminator() {
    let m = MessageSection {
        name: "O".to_string(),
        fields: vec![mfield("blob", TypeSpec::OctetsFx)],
    };
    let resolved = ResolvedProtocol::resolve(proto(vec![m], vec![])).expect("resolve");
    let codec = Codec::new(resolved, Endianness::Big);
    let decoded = codec.decode_message("O", &[0x81, 0x80, 0x01]).expect("decode");
    assert_eq!(decoded.get("blob"), Some(&Value::Bytes(vec![0x81, 0x80, 0x01])));
    let encoded = codec.encode_message("O", &decoded).expect("encode");
    assert_eq!(encoded, vec![0x81, 0x80, 0x01]);
}

#[test]
fn conditional_field_follows_its_guard() {
    // message C { kind: u8; extra: u16 if kind == 1; }
    let m = MessageSection {
        name: "C".to_string(),
        fields: vec![
            mfield("kind", TypeSpec::Base(BaseType::U8)),
            MessageField {
                name: "extra".to_string(),
                type_spec: TypeSpec::Base(BaseType::U16),
                default: None,
                constraint: None,
                condition: Some(Condition {
                    field: "kind".to_string(),
                    value: Literal::Int(1),
                }),
                quantum: None,
            },
        ],
    };
    let resolved = ResolvedProtocol::resolve(proto(vec![m], vec![])).expect("resolve");
    let codec = Codec::new(resolved, Endianness::Big);
    let with = codec.decode_message("C", &[1, 0x12, 0x34]).expect("decode");
    assert_eq!(with.get("extra"), Some(&Value::U16(0x1234)));
    let (consumed, without) = codec.decode_message_with_extent("C", &[2, 0x12, 0x34]);
    assert_eq!(consumed, 1);
    assert!(without.expect("decode").get("extra").is_none());
}

#[test]
fn array_length_comes_from_recorded_field() {
    // message A { n: count_of(items); items: u8[n]; }
    let m = MessageSection {
        name: "A".to_string(),
        fields: vec![
            mfield("n", TypeSpec::CountOf("items".to_string())),
            mfield(
                "items",
                TypeSpec::Array(
                    Box::new(TypeSpec::Base(BaseType::U8)),
                    ArrayLen::FieldRef("n".to_string()),
                ),
            ),
        ],
    };
    let resolved = ResolvedProtocol::resolve(proto(vec![m], vec![])).expect("resolve");
    let codec = Codec::new(resolved, Endianness::Big);
    let decoded = codec.decode_message("A", &[0, 0, 0, 2, 7, 8]).expect("decode");
    assert_eq!(
        decoded.get("items"),
        Some(&Value::List(vec![Value::U8(7), Value::U8(8)]))
    );
}

#[test]
fn removal_keeps_later_records_intact() {
    let resolved = simple_proto();
    let codec = Codec::new(simple_proto(), Endianness::Little);
    let b1 = codec.encode_message("Simple", &simple_values(1, 1, &[0x11])).expect("encode");
    let b2 = codec.encode_message("Simple", &simple_values(2, 1, &[0x22])).expect("encode");
    let len1 = b1.len();
    let mut buf: Vec<u8> = b1.into_iter().chain(b2.clone().into_iter()).collect();

    let new_len = remove_message_in_place(&mut buf, 0, len1);
    buf.truncate(new_len);
    assert_eq!(buf, b2);

    let result = decode_frame(&codec, "Simple", &buf, None).expect("frame decode");
    assert_eq!(result.messages.len(), 1);
    assert_eq!(result.removed.len(), 0);
    assert_eq!(result.messages[0].values.get("id"), Some(&Value::U8(2)));
}

#[test]
fn write_u32_updates_exactly_four_bytes() {
    let mut buf = vec![0xAAu8; 8];
    write_u32_in_place(&mut buf, 2, 0x01020304, walk::Endianness::Big).expect("write");
    assert_eq!(buf, vec![0xAA, 0xAA, 0x01, 0x02, 0x03, 0x04, 0xAA, 0xAA]);
    write_u32_in_place(&mut buf, 2, 0x01020304, walk::Endianness::Little).expect("write");
    assert_eq!(buf, vec![0xAA, 0xAA, 0x04, 0x03, 0x02, 0x01, 0xAA, 0xAA]);
    assert!(write_u32_in_place(&mut buf, 5, 1, walk::Endianness::Big).is_err());
}

#[test]
fn validate_and_zero_walks_once() {
    // message VZ { kind: u8 [0..10]; padding: padding(2); }
    let m = MessageSection {
        name: "VZ".to_string(),
        fields: vec![
            mfield_c("kind", TypeSpec::Base(BaseType::U8), Constraint::Range(vec![(0, 10)])),
            mfield("padding", TypeSpec::Padding(2)),
        ],
    };
    let resolved = ResolvedProtocol::resolve(proto(vec![m], vec![])).expect("resolve");
    let mut buf = vec![5u8, 0xFF, 0xFF];
    let n = validate_and_zero_message_in_place(&mut buf, 0, &resolved, walk::Endianness::Big, "VZ")
        .expect("walk");
    assert_eq!(n, 3);
    assert_eq!(buf, vec![5, 0, 0]);

    let mut bad = vec![20u8, 0xFF, 0xFF];
    assert!(
        validate_and_zero_message_in_place(&mut bad, 0, &resolved, walk::Endianness::Big, "VZ")
            .is_err()
    );
}

#[test]
fn walker_structs_track_position() {
    let resolved = simple_proto();
    let codec = Codec::new(simple_proto(), Endianness::Little);
    let v = simple_values(3, 0, &[]);
    let encoded = codec.encode_message("Simple", &v).expect("encode");
    let mut w = BinaryWalker::new(&encoded, &resolved, walk::Endianness::Little);
    assert_eq!(w.position(), 0);
    let n = w.skip_message("Simple").expect("skip");
    assert_eq!(n, encoded.len());
    assert_eq!(w.position(), encoded.len());
    assert_eq!(w.remaining().len(), 0);

    let mut buf = encoded.clone();
    let mut wm = BinaryWalkerMut::at(&mut buf, 0, &resolved, walk::Endianness::Little);
    let n2 = wm.skip_message("Simple").expect("skip");
    assert_eq!(n2, n);
}

#[test]
fn frame_partitions_rejected_records() {
    let codec = Codec::new(bounded_proto(), Endianness::Big);
    let mut good = ValueMap::new();
    good.insert("kind".to_string(), Value::U8(5));
    good.insert("value".to_string(), Value::U32(7));
    let b1 = codec.encode_message("Bounded", &good).expect("encode");
    let mut b2 = b1.clone();
    b2[0] = 20;
    let frame_bytes: Vec<u8> = b1.clone().into_iter().chain(b2.into_iter()).collect();
    let result = decode_frame(&codec, "Bounded", &frame_bytes, None).expect("frame decode");
    assert_eq!(result.messages.len(), 1);
    assert_eq!(result.removed.len(), 1);
    assert_eq!(result.messages[0].byte_range, (0, b1.len()));
    assert_eq!(result.removed[0].byte_range, (b1.len(), 2 * b1.len()));

    let reencoded =
        encode_frame_with_compliant_only(&codec, "Bounded", &result, None, None).expect("encode");
    assert_eq!(reencoded, b1);
}

#[test]
fn frame_respects_transport_prefix() {
    let codec = Codec::new(simple_proto(), Endianness::Little);
    let b1 = codec.encode_message("Simple", &simple_values(1, 0, &[])).expect("encode");
    let mut framed = vec![0xEE, 0xEE, 0xEE];
    framed.extend(b1);
    let result = decode_frame(&codec, "Simple", &framed, Some(3)).expect("frame decode");
    assert_eq!(result.messages.len(), 1);
    assert_eq!(result.messages[0].byte_range.0, 3);
    assert!(decode_frame(&codec, "Simple", &[0, 1], Some(3)).is_err());
}

#[test]
fn resolver_checks_names_and_mappings() {
    // Duplicate message names are refused.
    let dup = proto(
        vec![
            MessageSection { name: "M".to_string(), fields: vec![] },
            MessageSection { name: "M".to_string(), fields: vec![] },
        ],
        vec![],
    );
    assert!(ResolvedProtocol::resolve(dup).is_err());

    // An explicit bitmap table must name the optional run, in order.
    let mismatch = proto(
        vec![MessageSection {
            name: "M".to_string(),
            fields: vec![
                mfield(
                    "fspec",
                    TypeSpec::BitmapPresence {
                        total_bits: 2,
                        presence_per_block: 7,
                        mapping: vec![(0, "b".to_string()), (1, "a".to_string())],
                    },
                ),
                mfield("a", TypeSpec::Optional(Box::new(TypeSpec::Base(BaseType::U8)))),
                mfield("b", TypeSpec::Optional(Box::new(TypeSpec::Base(BaseType::U8)))),
            ],
        }],
        vec![],
    );
    assert!(ResolvedProtocol::resolve(mismatch).is_err());
}

#[test]
fn fspec_mapping_lookups() {
    let m = MessageSection {
        name: "M".to_string(),
        fields: vec![
            mfield(
                "fspec",
                TypeSpec::BitmapPresence {
                    total_bits: 2,
                    presence_per_block: 7,
                    mapping: vec![(0, "a".to_string()), (1, "b".to_string())],
                },
            ),
            mfield("a", TypeSpec::Optional(Box::new(TypeSpec::Base(BaseType::U8)))),
            mfield("b", TypeSpec::Optional(Box::new(TypeSpec::Base(BaseType::U8)))),
        ],
    };
    let resolved = ResolvedProtocol::resolve(proto(vec![m], vec![])).expect("resolve");
    let mapping = resolved.fspec_mapping_message("M").expect("mapping");
    assert_eq!(mapping.field_for_bit(0), Some("a"));
    assert_eq!(mapping.field_for_bit(1), Some("b"));
    assert_eq!(mapping.field_for_bit(2), None);
    assert_eq!(mapping.bit_for_field("b"), Some(1));
    assert_eq!(mapping.bit_for_field("zz"), None);
    assert!(resolved.fspec_mapping_struct("M").is_none());
    assert!(resolved.get_message("M").is_some());
    assert!(resolved.get_struct("M").is_none());
}

#[test]
fn literal_readings() {
    assert_eq!(Literal::Int(5).as_u64(), Some(5));
    assert_eq!(Literal::Int(-1).as_u64(), None);
    assert_eq!(Literal::Hex(0xFF).as_u64(), Some(0xFF));
    assert_eq!(Literal::Int(-1).as_i64(), Some(-1));
    assert_eq!(Literal::Bool(true).as_i64(), None);
    assert_eq!(Literal::String("x".to_string()).as_u64(), None);
}

#[test]
fn length_prefix_mismatch_is_rejected() {
    // message P { n: count_of(items); items: u8[n]; }
    let m = MessageSection {
        name: "P".to_string(),
        fields: vec![
            mfield("n", TypeSpec::CountOf("items".to_string())),
            mfield(
                "items",
                TypeSpec::Array(
                    Box::new(TypeSpec::Base(BaseType::U8)),
                    ArrayLen::FieldRef("n".to_string()),
                ),
            ),
        ],
    };
    let resolved = ResolvedProtocol::resolve(proto(vec![m], vec![])).expect("resolve");
    let codec = Codec::new(resolved, Endianness::Big);

    // Prefix says 5, the referenced array holds nothing: encode must refuse.
    let mut bad = ValueMap::new();
    bad.insert("n".to_string(), Value::U32(5));
    bad.insert("items".to_string(), Value::List(vec![]));
    match codec.encode_message("P", &bad) {
        Err(CodecError::LengthMismatch(msg)) => {
            assert!(msg.contains("5"), "prefix value in text: {}", msg);
            assert!(msg.contains("0"), "actual length in text: {}", msg);
        }
        other => panic!("expected LengthMismatch, got {:?}", other),
    }

    // A prefix that agrees encodes and round-trips.
    let mut good = ValueMap::new();
    good.insert("n".to_string(), Value::U32(2));
    good.insert("items".to_string(), Value::List(vec![Value::U8(7), Value::U8(8)]));
    let encoded = codec.encode_message("P", &good).expect("encode");
    let decoded = codec.decode_message("P", &encoded).expect("decode");
    assert_eq!(
        decoded.get("items"),
        Some(&Value::List(vec![Value::U8(7), Value::U8(8)]))
    );

    // A missing prefix defaults to zero, which agrees with an empty list.
    let mut empty = ValueMap::new();
    empty.insert("items".to_string(), Value::List(vec![]));
    assert!(codec.encode_message("P", &empty).is_ok());
}

#[test]
fn length_prefix_checks_byte_runs_too() {
    // message L { len: length_of(blob); blob: octets_fx; }
    let m = MessageSection {
        name: "L".to_string(),
        fields: vec![
            mfield("len", TypeSpec::LengthOf("blob".to_string())),
            mfield("blob", TypeSpec::OctetsFx),
        ],
    };
    let resolved = ResolvedProtocol::resolve(proto(vec![m], vec![])).expect("resolve");
    let codec = Codec::new(resolved, Endianness::Big);

    let mut good = ValueMap::new();
    good.insert("len".to_string(), Value::U32(1));
    good.insert("blob".to_string(), Value::Bytes(vec![0x01]));
    assert!(codec.encode_message("L", &good).is_ok());

    let mut bad = ValueMap::new();
    bad.insert("len".to_string(), Value::U32(3));
    bad.insert("blob".to_string(), Value::Bytes(vec![0x01]));
    assert!(matches!(
        codec.encode_message("L", &bad),
        Err(CodecError::LengthMismatch(_))
    ));
}

#[test]
fn range_errors_carry_the_offending_value() {
    let codec = Codec::new(bounded_proto(), Endianness::Little);
    let mut values = ValueMap::new();
    values.insert("kind".to_string(), Value::U8(5));
    values.insert("value".to_string(), Value::U32(500));
    let mut bad = codec.encode_message("Bounded", &values).expect("encode");
    bad[0] = 20;
    match codec.decode_message("Bounded", &bad) {
        Err(CodecError::Validation(msg)) => {
            assert!(msg.contains("kind"), "path in text: {}", msg);
            assert!(msg.contains("value 20"), "offending value in text: {}", msg);
        }
        other => panic!("expected Validation, got {:?}", other),
    }

    let resolved = bounded_proto();
    match validate_message_in_place(&bad, 0, &resolved, walk::Endianness::Little, "Bounded") {
        Err(CodecError::Validation(msg)) => {
            assert!(msg.contains("kind"), "path in walk text: {}", msg);
            assert!(msg.contains("value 20"), "offending value in walk text: {}", msg);
        }
        other => panic!("expected Validation, got {:?}", other),
    }
}
