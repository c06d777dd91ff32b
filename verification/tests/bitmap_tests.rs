//! Variable-length presence bitmaps: decoding, encoding, bit order,
//! FX termination, and round trips.

use aiprotodsl::ast::{MessageField, MessageSection, Protocol, ResolvedProtocol, TypeSpec};
use aiprotodsl::codec::{Codec, CodecError, Endianness};
use aiprotodsl::value::{Value, ValueMap};

fn mfield(name: &str, ts: TypeSpec) -> MessageField {
    MessageField {
        name: name.to_string(),
        type_spec: ts,
        default: None,
        constraint: None,
        condition: None,
        quantum: None,
    }
}

fn opt_u8(name: &str) -> MessageField {
    mfield(name, TypeSpec::Optional(Box::new(TypeSpec::Base(aiprotodsl::ast::BaseType::U8))))
}

fn bitmap_message(
    msg_name: &str,
    total_bits: u32,
    per_block: u32,
    optionals: &[&str],
) -> ResolvedProtocol {
    let mapping: Vec<(u32, String)> = optionals
        .iter()
        .enumerate()
        .map(|(i, n)| (i as u32, n.to_string()))
        .collect();
    let mut fields = vec![mfield(
        "fspec",
        TypeSpec::BitmapPresence { total_bits, presence_per_block: per_block, mapping },
    )];
    for n in optionals {
        fields.push(opt_u8(n));
    }
    let protocol = Protocol {
        transport: None,
        payload: None,
        type_defs: vec![],
        enum_defs: vec![],
        messages: vec![MessageSection { name: msg_name.to_string(), fields }],
        structs: vec![],
    };
    ResolvedProtocol::resolve(protocol).expect("resolve")
}

const NAMES_14: [&str; 14] = [
    "a", "b", "c", "d", "e", "f", "g", "h", "i", "j", "k", "l", "m", "n",
];
const NAMES_28: [&str; 28] = [
    "a", "b", "c", "d", "e", "f", "g", "h", "i", "j", "k", "l", "m", "n", "o", "p", "q", "r",
    "s", "t", "u", "v", "w", "x", "y", "z", "aa", "ab",
];

fn codec_14_7() -> Codec {
    Codec::new(bitmap_message("Bitmap14_7", 14, 7, &NAMES_14), Endianness::Big)
}

fn codec_14_3() -> Codec {
    Codec::new(bitmap_message("Bitmap14_3", 14, 3, &NAMES_14), Endianness::Big)
}

fn codec_28_7() -> Codec {
    Codec::new(bitmap_message("Bitmap28_7", 28, 7, &NAMES_28), Endianness::Big)
}

fn codec_7_7() -> Codec {
    Codec::new(
        bitmap_message("Bitmap7_7", 7, 7, &["a", "b", "c", "d", "e", "f", "g"]),
        Endianness::Big,
    )
}

fn codec_2_7() -> Codec {
    Codec::new(bitmap_message("Bitmap2_7", 2, 7, &["a", "b"]), Endianness::Big)
}

fn optional_u8(decoded: &ValueMap, name: &str) -> Option<u8> {
    match decoded.get(name) {
        Some(Value::U8(x)) => Some(*x),
        Some(Value::List(l)) if !l.is_empty() => match l.first() {
            Some(Value::U8(x)) => Some(*x),
            _ => None,
        },
        _ => None,
    }
}

fn optional_absent(decoded: &ValueMap, name: &str) -> bool {
    matches!(decoded.get(name), Some(Value::List(l)) if l.is_empty())
}

fn vals(names: &[&str], present: &[(usize, u8)]) -> ValueMap {
    let mut m = ValueMap::new();
    m.insert("fspec".to_string(), Value::Bytes(vec![]));
    for (i, n) in names.iter().enumerate() {
        let v = match present.iter().find(|(j, _)| *j == i) {
            Some((_, x)) => Value::List(vec![Value::U8(*x)]),
            None => Value::List(vec![]),
        };
        m.insert(n.to_string(), v);
    }
    m
}

#[test]
fn bitmap_presence_decode_one_byte_fx0_all_absent() {
    let codec = codec_14_7();
    let payload: Vec<u8> = vec![0x00, 0x99];
    let decoded = codec.decode_message("Bitmap14_7", &payload).expect("decode");
    for name in NAMES_14.iter() {
        assert!(optional_absent(&decoded, name), "{} should be absent", name);
    }
    let (consumed, _) = codec.decode_message_with_extent("Bitmap14_7", &payload);
    assert_eq!(consumed, 1, "FSPEC is 1 byte when FX=0; no extra byte read");
}

#[test]
fn bitmap_presence_decode_one_byte_fx0_first_present() {
    let codec = codec_14_7();
    let payload: Vec<u8> = vec![0x80, 42];
    let decoded = codec.decode_message("Bitmap14_7", &payload).expect("decode");
    assert_eq!(optional_u8(&decoded, "a"), Some(42));
    for name in NAMES_14.iter().skip(1) {
        assert!(optional_absent(&decoded, name), "{} should be absent", name);
    }
}

#[test]
fn bitmap_presence_decode_one_byte_fx0_all_seven_present() {
    let codec = codec_14_7();
    let payload: Vec<u8> = vec![0xFE, 10, 11, 12, 13, 14, 15, 16];
    let decoded = codec.decode_message("Bitmap14_7", &payload).expect("decode");
    for (i, n) in NAMES_14.iter().take(7).enumerate() {
        assert_eq!(optional_u8(&decoded, n), Some(10 + i as u8), "{}", n);
    }
    for name in NAMES_14.iter().skip(7) {
        assert!(optional_absent(&decoded, name), "{} should be absent", name);
    }
}

#[test]
fn bitmap_presence_decode_two_bytes_first_optional_present() {
    let codec = codec_14_7();
    let payload: Vec<u8> = vec![0x81, 0x00, 100];
    let decoded = codec.decode_message("Bitmap14_7", &payload).expect("decode");
    assert_eq!(optional_u8(&decoded, "a"), Some(100));
    for name in NAMES_14.iter().skip(1) {
        assert!(optional_absent(&decoded, name), "{} should be absent", name);
    }
}

#[test]
fn bitmap_presence_decode_two_bytes_eight_present() {
    let codec = codec_14_7();
    let payload: Vec<u8> = vec![0xFF, 0x80, 1, 2, 3, 4, 5, 6, 7, 8];
    let decoded = codec.decode_message("Bitmap14_7", &payload).expect("decode");
    for (i, name) in NAMES_14.iter().take(8).enumerate() {
        assert_eq!(optional_u8(&decoded, name), Some(1 + i as u8), "{}", name);
    }
    for name in NAMES_14.iter().skip(8) {
        assert!(optional_absent(&decoded, name), "{} should be absent", name);
    }
    let (consumed, _) = codec.decode_message_with_extent("Bitmap14_7", &payload);
    assert_eq!(consumed, 10, "2 FSPEC bytes + 8 values");
}

#[test]
fn bitmap_presence_encode_all_absent_one_byte() {
    let codec = codec_7_7();
    let v = vals(&["a", "b", "c", "d", "e", "f", "g"], &[]);
    let encoded = codec.encode_message("Bitmap7_7", &v).expect("encode");
    assert_eq!(encoded[0], 0x00, "single byte 0x00 when all absent, FX=0");
    assert_eq!(encoded.len(), 1, "only FSPEC byte");
}

#[test]
fn bitmap_presence_encode_first_present_one_byte() {
    let codec = codec_2_7();
    let v = vals(&["a", "b"], &[(0, 33)]);
    let encoded = codec.encode_message("Bitmap2_7", &v).expect("encode");
    assert_eq!(encoded[0], 0x80, "bit 7 = first optional present, FX=0 in bit 0");
    assert_eq!(encoded.len(), 2, "1 byte FSPEC + 1 byte value for a");
}

#[test]
fn bitmap_presence_encode_all_seven_present_one_byte() {
    let codec = codec_7_7();
    let v = vals(
        &["a", "b", "c", "d", "e", "f", "g"],
        &[(0, 1), (1, 2), (2, 3), (3, 4), (4, 5), (5, 6), (6, 7)],
    );
    let encoded = codec.encode_message("Bitmap7_7", &v).expect("encode");
    assert_eq!(encoded[0], 0xFE, "bits 7-1 set, FX=0");
    assert_eq!(encoded.len(), 1 + 7, "1 FSPEC + 7 u8");
}

#[test]
fn bitmap_presence_encode_eight_present_two_bytes() {
    let codec = codec_14_7();
    let present: Vec<(usize, u8)> = (0..8).map(|i| (i, i as u8)).collect();
    let v = vals(&NAMES_14, &present);
    let encoded = codec.encode_message("Bitmap14_7", &v).expect("encode");
    assert_eq!(encoded[0], 0xFF, "first block: all 7 present + FX=1");
    assert_eq!(encoded[1], 0x80, "second block: optional 7 (bit 7) present, FX=0");
    assert_eq!(encoded.len(), 2 + 8, "2 FSPEC + 8 u8");
}

#[test]
fn bitmap_presence_roundtrip_2_7_both_absent() {
    let codec = codec_2_7();
    let v = vals(&["a", "b"], &[]);
    let encoded = codec.encode_message("Bitmap2_7", &v).expect("encode");
    let decoded = codec.decode_message("Bitmap2_7", &encoded).expect("decode");
    assert!(optional_absent(&decoded, "a"));
    assert!(optional_absent(&decoded, "b"));
}

#[test]
fn bitmap_presence_roundtrip_2_7_both_present() {
    let codec = codec_2_7();
    let v = vals(&["a", "b"], &[(0, 10), (1, 20)]);
    let encoded = codec.encode_message("Bitmap2_7", &v).expect("encode");
    let decoded = codec.decode_message("Bitmap2_7", &encoded).expect("decode");
    assert_eq!(optional_u8(&decoded, "a"), Some(10));
    assert_eq!(optional_u8(&decoded, "b"), Some(20));
}

#[test]
fn bitmap_presence_roundtrip_14_7_one_byte_fspec() {
    let codec = codec_14_7();
    let v = vals(&NAMES_14, &[(0, 1), (1, 2), (2, 3)]);
    let encoded = codec.encode_message("Bitmap14_7", &v).expect("encode");
    let decoded = codec.decode_message("Bitmap14_7", &encoded).expect("decode");
    assert_eq!(optional_u8(&decoded, "a"), Some(1));
    assert_eq!(optional_u8(&decoded, "b"), Some(2));
    assert_eq!(optional_u8(&decoded, "c"), Some(3));
    for name in NAMES_14.iter().skip(3) {
        assert!(optional_absent(&decoded, name), "{} absent", name);
    }
}

#[test]
fn bitmap_presence_encode_bit_order_optional_1() {
    let codec = codec_7_7();
    let v = vals(&["a", "b", "c", "d", "e", "f", "g"], &[(1, 50)]);
    let encoded = codec.encode_message("Bitmap7_7", &v).expect("encode");
    assert_eq!(encoded[0], 0x40, "optional 1 present => bit 6 set => 0x40 (FX=0)");
}

#[test]
fn bitmap_presence_encode_bit_order_optional_0() {
    let codec = codec_7_7();
    let v = vals(&["a", "b", "c", "d", "e", "f", "g"], &[(0, 50)]);
    let encoded = codec.encode_message("Bitmap7_7", &v).expect("encode");
    assert_eq!(encoded[0], 0x80, "optional 0 present => bit 7 set => 0x80 (FX=0)");
}

#[test]
fn bitmap_28_7_decode_one_block() {
    let codec = codec_28_7();
    let payload: Vec<u8> = vec![0x80, 77];
    let decoded = codec.decode_message("Bitmap28_7", &payload).expect("decode");
    assert_eq!(optional_u8(&decoded, "a"), Some(77));
    for name in NAMES_28.iter().skip(1) {
        assert!(optional_absent(&decoded, name), "{} should be absent", name);
    }
    let (consumed, _) = codec.decode_message_with_extent("Bitmap28_7", &payload);
    assert_eq!(consumed, 1 + 1, "1 FSPEC byte + 1 u8");
}

#[test]
fn bitmap_28_7_decode_two_blocks() {
    let codec = codec_28_7();
    let payload: Vec<u8> = vec![0x81, 0x00, 77];
    let decoded = codec.decode_message("Bitmap28_7", &payload).expect("decode");
    assert_eq!(optional_u8(&decoded, "a"), Some(77));
    for name in NAMES_28.iter().skip(1) {
        assert!(optional_absent(&decoded, name), "{} should be absent", name);
    }
    let (consumed, _) = codec.decode_message_with_extent("Bitmap28_7", &payload);
    assert_eq!(consumed, 2 + 1, "2 FSPEC bytes + 1 u8");
}

#[test]
fn bitmap_28_7_decode_three_blocks() {
    let codec = codec_28_7();
    let payload: Vec<u8> = vec![0x81, 0x01, 0x00, 99];
    let decoded = codec.decode_message("Bitmap28_7", &payload).expect("decode");
    assert_eq!(optional_u8(&decoded, "a"), Some(99));
    for name in NAMES_28.iter().skip(1) {
        assert!(optional_absent(&decoded, name), "{} should be absent", name);
    }
    let (consumed, _) = codec.decode_message_with_extent("Bitmap28_7", &payload);
    assert_eq!(consumed, 3 + 1, "3 FSPEC bytes + 1 u8");
}

#[test]
fn bitmap_28_7_decode_four_blocks() {
    let codec = codec_28_7();
    let payload: Vec<u8> = vec![0x81, 0x01, 0x01, 0x00, 42];
    let decoded = codec.decode_message("Bitmap28_7", &payload).expect("decode");
    assert_eq!(optional_u8(&decoded, "a"), Some(42));
    for name in NAMES_28.iter().skip(1) {
        assert!(optional_absent(&decoded, name), "{} should be absent", name);
    }
    let (consumed, _) = codec.decode_message_with_extent("Bitmap28_7", &payload);
    assert_eq!(consumed, 4 + 1, "4 FSPEC bytes + 1 u8");
}

#[test]
fn bitmap_14_3_decode_one_byte_fx0_all_absent() {
    let codec = codec_14_3();
    let payload: Vec<u8> = vec![0x00, 0x99];
    let decoded = codec.decode_message("Bitmap14_3", &payload).expect("decode");
    for name in NAMES_14.iter() {
        assert!(optional_absent(&decoded, name), "{} should be absent", name);
    }
    let (consumed, _) = codec.decode_message_with_extent("Bitmap14_3", &payload);
    assert_eq!(consumed, 1, "FSPEC is 1 byte when FX=0");
}

#[test]
fn bitmap_14_3_encode_all_absent_one_byte() {
    let codec = codec_14_3();
    let v = vals(&NAMES_14, &[]);
    let encoded = codec.encode_message("Bitmap14_3", &v).expect("encode");
    assert!(encoded.len() >= 1 && encoded.len() <= 5);
    let last_fspec = encoded.len() - 1;
    assert_eq!(encoded[last_fspec] & 0x01, 0, "last FSPEC byte has FX=0");
}

#[test]
fn bitmap_14_3_roundtrip_four_present() {
    let codec = codec_14_3();
    let v = vals(&NAMES_14, &[(0, 1), (1, 2), (2, 3), (3, 4)]);
    let encoded = codec.encode_message("Bitmap14_3", &v).expect("encode");
    let decoded = codec.decode_message("Bitmap14_3", &encoded).expect("decode");
    assert_eq!(optional_u8(&decoded, "a"), Some(1));
    assert_eq!(optional_u8(&decoded, "b"), Some(2));
    assert_eq!(optional_u8(&decoded, "c"), Some(3));
    assert_eq!(optional_u8(&decoded, "d"), Some(4));
    for name in NAMES_14.iter().skip(4) {
        assert!(optional_absent(&decoded, name), "{} absent", name);
    }
}

#[test]
fn bitmap_presence_decode_reject_last_fx1_at_max_size() {
    let codec = codec_14_7();
    let payload: Vec<u8> = vec![0x81, 0x01, 0x00];
    let result = codec.decode_message("Bitmap14_7", &payload);
    match &result {
        Err(CodecError::Validation(msg)) => {
            assert!(msg.contains("last FSPEC byte must have FX=0"), "got: {}", msg);
        }
        other => panic!("expected Validation error, got: {:?}", other),
    }
}

#[test]
fn bitmap_consecutive_form_uses_fixed_width() {
    // per_block = 0: the bitmap is ceil(total_bits/8) bytes of consecutive
    // most-significant-first presence bits, with no FX termination.
    let codec = Codec::new(
        bitmap_message("Plain10", 10, 0, &["a", "b", "c", "d", "e", "f", "g", "h", "i", "j"]),
        Endianness::Big,
    );
    // Bits 0 and 8 set: byte 0 = 0x80, byte 1 = 0x80.
    let payload: Vec<u8> = vec![0x80, 0x80, 5, 9];
    let decoded = codec.decode_message("Plain10", &payload).expect("decode");
    assert_eq!(optional_u8(&decoded, "a"), Some(5));
    assert_eq!(optional_u8(&decoded, "i"), Some(9));
    let (consumed, _) = codec.decode_message_with_extent("Plain10", &payload);
    assert_eq!(consumed, 4);
}
