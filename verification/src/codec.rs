//! Byte order, the error taxonomy, and the bidirectional codec between byte
//! buffers and field-name-to-value maps.

use vstd::prelude::*;
use vstd::string::StringExecFns;
use vstd::arithmetic::power2::{pow2, lemma2_to64, lemma_pow2_strictly_increases, lemma_pow2_pos};
use crate::ast::{
    ArrayLen, BaseType, Condition, Constraint, Literal, MessageField, Protocol, ResolvedProtocol,
    StructField, StructSection, TransportField, TransportTypeSpec, TypeSpec, base_type_size,
    find_name, literal_as_i64, message_names, spec_base_type_size, spec_is_signed, struct_names,
};
use crate::value::{
    ValModel, Value, ValueMap, list_model, entries_model, map_find, map_get, spec_as_i64,
    spec_as_u64, str_eq, lemma_list_model_index, lemma_entries_model_index,
    lemma_entries_model_push,
};
use crate::walk::{
    FxRes, PresenceModel, presence_bit, presence_step, read_fx, MAX_DEPTH, name_view,
};
use crate::wire::{word_val, word_bytes, read_word, write_word};

verus! {

broadcast use
    vstd::std_specs::vec::axiom_vec_index_decreases,
    vstd::std_specs::vec::axiom_vec_decreases_to_view,
    vstd::seq::axiom_seq_index_decreases;

/// Byte order for multi-byte integers, floats and length/count prefixes.
#[derive(Debug, Clone, Copy, PartialEq, Eq, Structural)]
pub enum Endianness {
    Big,
    Little,
}

/// True for the big-endian byte order.
pub fn endian_is_big(e: &Endianness) -> (r: bool)
    ensures
        r == (*e is Big),
{
    matches!(e, Endianness::Big)
}

/// The kind of a [`CodecError`], without its text.
pub ghost enum ErrKind {
    Short,
    Validation,
    UnknownStruct,
    UnknownField,
    LengthMismatch,
}

/// Failure taxonomy shared by the codec, the walk engine and the frame layer.
#[derive(Debug)]
pub enum CodecError {
    /// A read required more bytes than remained.
    ShortBuffer,
    /// A constraint or a structural invariant was breached; carries the
    /// offending path and a short descriptor.
    Validation(String),
    /// A struct or message name had no definition.
    UnknownStruct(String),
    /// A field reference had no recorded value.
    UnknownField(String),
    /// A length or count prefix disagreed with the actual sequence length.
    LengthMismatch(String),
}

impl View for CodecError {
    type V = ErrKind;

    open spec fn view(&self) -> ErrKind {
        match self {
            CodecError::ShortBuffer => ErrKind::Short,
            CodecError::Validation(_) => ErrKind::Validation,
            CodecError::UnknownStruct(_) => ErrKind::UnknownStruct,
            CodecError::UnknownField(_) => ErrKind::UnknownField,
            CodecError::LengthMismatch(_) => ErrKind::LengthMismatch,
        }
    }
}

impl CodecError {
    /// A one-line description: the kind followed by the carried text.
    pub fn describe(&self) -> (r: String)
        ensures
            match self {
                CodecError::ShortBuffer => r@ == "unexpected end of buffer"@,
                CodecError::Validation(m) => r@ == "Validation: "@ + m@,
                CodecError::UnknownStruct(m) => r@ == "Unknown struct: "@ + m@,
                CodecError::UnknownField(m) => r@ == "Unknown field: "@ + m@,
                CodecError::LengthMismatch(m) => r@ == "Length/count mismatch: "@ + m@,
            },
    {
        match self {
            CodecError::ShortBuffer => String::from_str("unexpected end of buffer"),
            CodecError::Validation(m) => String::from_str("Validation: ").concat(m.as_str()),
            CodecError::UnknownStruct(m) => String::from_str("Unknown struct: ").concat(
                m.as_str(),
            ),
            CodecError::UnknownField(m) => String::from_str("Unknown field: ").concat(m.as_str()),
            CodecError::LengthMismatch(m) => String::from_str("Length/count mismatch: ").concat(
                m.as_str(),
            ),
        }
    }
}

/// Decode-side bit cursor: bits are consumed least-significant first within
/// each byte; `next == 8` means byte-aligned (a fresh byte is needed).
pub ghost struct BitRead {
    pub cur: u8,
    pub next: u8,
}

/// A fresh, byte-aligned bit cursor.
pub open spec fn fresh_bits() -> BitRead {
    BitRead { cur: 0, next: 8 }
}

/// Decode state: position, recorded readings of earlier fields, presence
/// source, bit cursor.
pub ghost struct DState {
    pub pos: nat,
    pub vals: Seq<(Seq<char>, Option<i64>, Option<u64>)>,
    pub presence: PresenceModel,
    pub bits: BitRead,
}

/// Decode configuration: struct definitions and byte order.
pub ghost struct DCfg {
    pub structs: Seq<StructSection>,
    pub big: bool,
}

/// Outcome of decoding one field shape.
pub ghost enum DRes {
    Done { st: DState, v: ValModel },
    Fail { pos: nat, kind: ErrKind },
}

/// Outcome of decoding a run of items.
pub ghost enum DItemsRes {
    Done { st: DState, items: Seq<ValModel> },
    Fail { pos: nat, kind: ErrKind },
}

/// Outcome of decoding the fields of a scope.
pub ghost enum DFieldsRes {
    Done { st: DState, out: Seq<(Seq<char>, ValModel)> },
    Fail { pos: nat, kind: ErrKind },
}

/// Outcome of decoding one whole message.
pub ghost enum DMsgRes {
    Done { consumed: nat, out: Seq<(Seq<char>, ValModel)> },
    Fail { consumed: nat, kind: ErrKind },
}

/// Index of the entry a lookup finds among recorded readings: the last entry
/// with that name, or `-1`.
pub open spec fn dfind(vals: Seq<(Seq<char>, Option<i64>, Option<u64>)>, key: Seq<char>) -> int
    decreases vals.len(),
{
    if vals.len() == 0 {
        -1
    } else if vals[vals.len() - 1].0 == key {
        vals.len() - 1
    } else {
        dfind(vals.drop_last(), key)
    }
}

/// The signed reading recorded under a name.
pub open spec fn dget_i64(
    vals: Seq<(Seq<char>, Option<i64>, Option<u64>)>,
    key: Seq<char>,
) -> Option<i64> {
    if dfind(vals, key) >= 0 {
        vals[dfind(vals, key)].1
    } else {
        None
    }
}

/// The unsigned reading recorded under a name.
pub open spec fn dget_u64(
    vals: Seq<(Seq<char>, Option<i64>, Option<u64>)>,
    key: Seq<char>,
) -> Option<u64> {
    if dfind(vals, key) >= 0 {
        vals[dfind(vals, key)].2
    } else {
        None
    }
}

/// Whether a conditional field participates during decode.
pub open spec fn dcond_passes(
    vals: Seq<(Seq<char>, Option<i64>, Option<u64>)>,
    c: Condition,
) -> bool {
    dget_i64(vals, c.field@) == literal_as_i64(c.value)
}

/// Outcome of reading packed bits.
pub ghost enum BitsRes {
    Done { val: u64, pos: nat, bits: BitRead },
    Fail { pos: nat },
}

/// Reads `n` bits through the cursor, least-significant bit first, refilling
/// from the buffer one byte at a time.
pub open spec fn read_bits_spec(
    data: Seq<u8>,
    pos: nat,
    bs: BitRead,
    n: nat,
    k: nat,
    acc: u64,
) -> BitsRes
    decreases n - k,
{
    if k >= n {
        BitsRes::Done { val: acc, pos, bits: bs }
    } else if bs.next == 8 && pos >= data.len() {
        BitsRes::Fail { pos }
    } else {
        let cur = if bs.next == 8 {
            data[pos as int]
        } else {
            bs.cur
        };
        let nb = if bs.next == 8 {
            0u8
        } else {
            bs.next
        };
        let pos2: nat = if bs.next == 8 {
            (pos + 1) as nat
        } else {
            pos
        };
        let bit = (cur >> nb) & 1;
        let acc2 = if bit != 0 && k < 64 {
            acc | (1u64 << (k as u64))
        } else {
            acc
        };
        read_bits_spec(
            data,
            pos2,
            BitRead { cur, next: (nb + 1) as u8 },
            n,
            k + 1,
            acc2,
        )
    }
}

/// The scalar value of a base type read from `raw`, the unsigned word of its
/// full byte width.
pub open spec fn scalar_value(bt: BaseType, raw: nat) -> ValModel {
    match bt {
        BaseType::U8 => ValModel::U8(raw as u8),
        BaseType::U16 => ValModel::U16(raw as u16),
        BaseType::U32 => ValModel::U32(raw as u32),
        BaseType::U64 => ValModel::U64(raw as u64),
        BaseType::I8 => ValModel::I8(crate::walk::sign_extend_bits(raw, 8) as i8),
        BaseType::I16 => ValModel::I16(crate::walk::sign_extend_bits(raw, 16) as i16),
        BaseType::I32 => ValModel::I32(crate::walk::sign_extend_bits(raw, 32) as i32),
        BaseType::I64 => ValModel::I64(crate::walk::sign_extend_bits(raw, 64) as i64),
        BaseType::Bool => ValModel::Bool(raw != 0),
        BaseType::Float => ValModel::F32Bits(raw as u32),
        BaseType::Double => ValModel::F64Bits(raw as u64),
    }
}

/// The value of a sized integer: `raw` masked to `n` bits, sign-extended for
/// signed base types, then narrowed to the base type's width.
pub open spec fn sized_int_value(bt: BaseType, n: u64, raw: u64) -> ValModel {
    let masked: u64 = if n >= 64 {
        raw
    } else {
        (raw as nat % pow2(n as nat)) as u64
    };
    let v64: i64 = if spec_is_signed(bt) && n > 0 {
        crate::walk::sign_extend_bits(masked as nat, (if n > 64 { 64u64 } else { n }) as nat) as i64
    } else {
        0
    };
    match bt {
        BaseType::U8 => ValModel::U8(masked as u8),
        BaseType::U16 => ValModel::U16(masked as u16),
        BaseType::U32 => ValModel::U32(masked as u32),
        BaseType::U64 => ValModel::U64(masked),
        BaseType::I8 => ValModel::I8(v64 as i8),
        BaseType::I16 => ValModel::I16(v64 as i16),
        BaseType::I32 => ValModel::I32(v64 as i32),
        BaseType::I64 => ValModel::I64(v64),
        _ => ValModel::U64(masked),
    }
}

/// Whether a decoded value passes a constraint: intervals need a signed
/// reading inside one of them; enumerations compare signed readings, where
/// two non-numeric sides also agree.
pub open spec fn vconstraint_ok(v: ValModel, c: Constraint) -> bool {
    match c {
        Constraint::Range(iv) => spec_as_i64(v) matches Some(n) && exists|i: int|
            0 <= i < iv@.len() && (#[trigger] iv@[i]).0 <= n <= iv@[i].1,
        Constraint::Enum(lits) => exists|i: int|
            0 <= i < lits@.len() && literal_as_i64(#[trigger] lits@[i]) == spec_as_i64(v),
    }
}

/// Outcome of taking a variable-length byte run.
pub ghost enum OctRes {
    Done { bytes: Seq<u8>, pos: nat },
    Fail { pos: nat },
}

/// Takes bytes while bit 7 is set, including the terminating byte; running
/// out of buffer mid-run is a failure at the position of the missing byte.
pub open spec fn octets_take(data: Seq<u8>, pos: nat) -> OctRes
    decreases data.len() - pos,
{
    if pos >= data.len() {
        OctRes::Fail { pos }
    } else if data[pos as int] & 0x80 == 0 {
        OctRes::Done { bytes: seq![data[pos as int]], pos: pos + 1 }
    } else {
        match octets_take(data, pos + 1) {
            OctRes::Done { bytes, pos: p } => OctRes::Done {
                bytes: seq![data[pos as int]] + bytes,
                pos: p,
            },
            OctRes::Fail { pos: p } => OctRes::Fail { pos: p },
        }
    }
}

/// Decodes one field shape into a value, advancing the decode state exactly
/// as the byte-level codec does.
pub open spec fn dec_type(cfg: DCfg, data: Seq<u8>, st: DState, t: TypeSpec, fuel: nat) -> DRes
    decreases fuel, 0nat,
{
    if fuel == 0 {
        DRes::Fail { pos: st.pos, kind: ErrKind::Validation }
    } else {
        match t {
            TypeSpec::Base(bt) => {
                if st.bits.next != 8 {
                    DRes::Fail { pos: st.pos, kind: ErrKind::Validation }
                } else {
                    let size = spec_base_type_size(bt);
                    if st.pos + size > data.len() {
                        DRes::Fail { pos: st.pos, kind: ErrKind::Short }
                    } else {
                        DRes::Done {
                            st: DState { pos: st.pos + size, ..st },
                            v: scalar_value(
                                bt,
                                word_val(
                                    data.subrange(st.pos as int, (st.pos + size) as int),
                                    cfg.big,
                                ),
                            ),
                        }
                    }
                }
            },
            TypeSpec::Padding(n) | TypeSpec::Reserved(n) => {
                if st.bits.next != 8 {
                    DRes::Fail { pos: st.pos, kind: ErrKind::Validation }
                } else if st.pos + n > data.len() {
                    DRes::Fail { pos: st.pos, kind: ErrKind::Short }
                } else {
                    DRes::Done {
                        st: DState { pos: (st.pos + n) as nat, ..st },
                        v: if t is Padding {
                            ValModel::Padding
                        } else {
                            ValModel::Reserved
                        },
                    }
                }
            },
            TypeSpec::Bitfield(n) => {
                if n > 64 {
                    DRes::Fail { pos: st.pos, kind: ErrKind::Validation }
                } else {
                    match read_bits_spec(data, st.pos, st.bits, n as nat, 0, 0) {
                        BitsRes::Done { val, pos, bits } => DRes::Done {
                            st: DState { pos, bits, ..st },
                            v: ValModel::U64(val),
                        },
                        BitsRes::Fail { pos } => DRes::Fail { pos, kind: ErrKind::Short },
                    }
                }
            },
            TypeSpec::SizedInt(bt, n) => {
                if st.bits.next == 8 {
                    let size = ((n + 7) / 8) as nat;
                    if size > 8 {
                        DRes::Fail { pos: st.pos, kind: ErrKind::Validation }
                    } else if st.pos + size > data.len() {
                        DRes::Fail { pos: st.pos, kind: ErrKind::Short }
                    } else {
                        DRes::Done {
                            st: DState { pos: st.pos + size, ..st },
                            v: sized_int_value(
                                bt,
                                n,
                                word_val(
                                    data.subrange(st.pos as int, (st.pos + size) as int),
                                    cfg.big,
                                ) as u64,
                            ),
                        }
                    }
                } else {
                    if n > 64 {
                        DRes::Fail { pos: st.pos, kind: ErrKind::Validation }
                    } else {
                        match read_bits_spec(data, st.pos, st.bits, n as nat, 0, 0) {
                            BitsRes::Done { val, pos, bits } => DRes::Done {
                                st: DState { pos, bits, ..st },
                                v: sized_int_value(bt, n, val),
                            },
                            BitsRes::Fail { pos } => DRes::Fail { pos, kind: ErrKind::Short },
                        }
                    }
                }
            },
            TypeSpec::LengthOf(_) | TypeSpec::CountOf(_) => {
                if st.bits.next != 8 {
                    DRes::Fail { pos: st.pos, kind: ErrKind::Validation }
                } else if st.pos + 4 > data.len() {
                    DRes::Fail { pos: st.pos, kind: ErrKind::Short }
                } else {
                    DRes::Done {
                        st: DState { pos: st.pos + 4, ..st },
                        v: ValModel::U32(
                            word_val(
                                data.subrange(st.pos as int, (st.pos + 4) as int),
                                cfg.big,
                            ) as u32,
                        ),
                    }
                }
            },
            TypeSpec::PresenceBits(n) => {
                if st.bits.next != 8 {
                    DRes::Fail { pos: st.pos, kind: ErrKind::Validation }
                } else if n != 1 && n != 2 && n != 4 {
                    DRes::Fail { pos: st.pos, kind: ErrKind::Validation }
                } else if st.pos + n > data.len() {
                    DRes::Fail { pos: st.pos, kind: ErrKind::Short }
                } else {
                    let v = word_val(
                        data.subrange(st.pos as int, (st.pos + n) as int),
                        cfg.big,
                    ) as u64;
                    DRes::Done {
                        st: DState {
                            pos: (st.pos + n) as nat,
                            presence: PresenceModel::Fixed { value: v, idx: 0 },
                            ..st
                        },
                        v: ValModel::U64(v),
                    }
                }
            },
            TypeSpec::BitmapPresence { total_bits, presence_per_block, .. } => {
                if st.bits.next != 8 {
                    DRes::Fail { pos: st.pos, kind: ErrKind::Validation }
                } else if presence_per_block == 0 {
                    let nb = ((total_bits + 7) / 8) as nat;
                    if st.pos + nb > data.len() {
                        DRes::Fail { pos: st.pos, kind: ErrKind::Short }
                    } else {
                        let bytes = data.subrange(st.pos as int, (st.pos + nb) as int);
                        DRes::Done {
                            st: DState {
                                pos: st.pos + nb,
                                presence: PresenceModel::Var { bytes, idx: 0, per_block: 0 },
                                ..st
                            },
                            v: ValModel::Bytes(bytes),
                        }
                    }
                } else {
                    let blocks = (((total_bits + presence_per_block - 1) as nat) / (
                    presence_per_block as nat));
                    match read_fx(data, st.pos, blocks) {
                        FxRes::Done { bytes, pos } => DRes::Done {
                            st: DState {
                                pos,
                                presence: PresenceModel::Var {
                                    bytes,
                                    idx: 0,
                                    per_block: presence_per_block,
                                },
                                ..st
                            },
                            v: ValModel::Bytes(bytes),
                        },
                        FxRes::Fail(e) => DRes::Fail { pos: st.pos, kind: e },
                    }
                }
            },
            TypeSpec::PaddingBits(n) => {
                if n > 64 {
                    DRes::Fail { pos: st.pos, kind: ErrKind::Validation }
                } else {
                    match read_bits_spec(data, st.pos, st.bits, n as nat, 0, 0) {
                        BitsRes::Done { val: _, pos, bits } => DRes::Done {
                            st: DState { pos, bits, ..st },
                            v: ValModel::Padding,
                        },
                        BitsRes::Fail { pos } => DRes::Fail { pos, kind: ErrKind::Short },
                    }
                }
            },
            TypeSpec::StructRef(nm) => {
                if st.bits.next != 8 {
                    DRes::Fail { pos: st.pos, kind: ErrKind::Validation }
                } else {
                    let si = find_name(
                        Seq::new(cfg.structs.len(), |k: int| cfg.structs[k].name@),
                        nm@,
                        0,
                    );
                    if si == -1 {
                        DRes::Fail { pos: st.pos, kind: ErrKind::UnknownStruct }
                    } else {
                        match dec_sfields(
                            cfg,
                            data,
                            DState { presence: PresenceModel::NoSource, bits: fresh_bits(), ..st },
                            cfg.structs[si].fields@,
                            0,
                            Seq::empty(),
                            (fuel - 1) as nat,
                        ) {
                            DFieldsRes::Done { st: st2, out } => DRes::Done {
                                st: DState { presence: st.presence, bits: st.bits, ..st2 },
                                v: ValModel::Struct(out),
                            },
                            DFieldsRes::Fail { pos, kind } => DRes::Fail { pos, kind },
                        }
                    }
                }
            },
            TypeSpec::Array(elem, len) => {
                if st.bits.next != 8 {
                    DRes::Fail { pos: st.pos, kind: ErrKind::Validation }
                } else {
                    match (match len {
                        ArrayLen::Constant(k) => Some(k),
                        ArrayLen::FieldRef(f) => dget_u64(st.vals, f@),
                    }) {
                        None => DRes::Fail { pos: st.pos, kind: ErrKind::UnknownField },
                        Some(k) => match dec_items(cfg, data, st, *elem, k as nat, (fuel - 1) as nat) {
                            DItemsRes::Done { st: st2, items } => DRes::Done {
                                st: st2,
                                v: ValModel::List(items),
                            },
                            DItemsRes::Fail { pos, kind } => DRes::Fail { pos, kind },
                        },
                    }
                }
            },
            TypeSpec::List(elem) => {
                if st.bits.next != 8 {
                    DRes::Fail { pos: st.pos, kind: ErrKind::Validation }
                } else if st.pos + 4 > data.len() {
                    DRes::Fail { pos: st.pos, kind: ErrKind::Short }
                } else {
                    let k = word_val(data.subrange(st.pos as int, (st.pos + 4) as int), cfg.big);
                    match dec_items(
                        cfg,
                        data,
                        DState { pos: st.pos + 4, ..st },
                        *elem,
                        k,
                        (fuel - 1) as nat,
                    ) {
                        DItemsRes::Done { st: st2, items } => DRes::Done {
                            st: st2,
                            v: ValModel::List(items),
                        },
                        DItemsRes::Fail { pos, kind } => DRes::Fail { pos, kind },
                    }
                }
            },
            TypeSpec::RepList(elem) => {
                if st.bits.next != 8 {
                    DRes::Fail { pos: st.pos, kind: ErrKind::Validation }
                } else if st.pos + 1 > data.len() {
                    DRes::Fail { pos: st.pos, kind: ErrKind::Short }
                } else {
                    let k = data[st.pos as int] as nat;
                    match dec_items(
                        cfg,
                        data,
                        DState { pos: st.pos + 1, ..st },
                        *elem,
                        k,
                        (fuel - 1) as nat,
                    ) {
                        DItemsRes::Done { st: st2, items } => DRes::Done {
                            st: st2,
                            v: ValModel::List(items),
                        },
                        DItemsRes::Fail { pos, kind } => DRes::Fail { pos, kind },
                    }
                }
            },
            TypeSpec::OctetsFx => {
                if st.bits.next != 8 {
                    DRes::Fail { pos: st.pos, kind: ErrKind::Validation }
                } else {
                    match octets_take(data, st.pos) {
                        OctRes::Done { bytes, pos } => DRes::Done {
                            st: DState { pos, ..st },
                            v: ValModel::Bytes(bytes),
                        },
                        OctRes::Fail { pos } => DRes::Fail { pos, kind: ErrKind::Short },
                    }
                }
            },
            TypeSpec::Optional(elem) => {
                if st.bits.next != 8 {
                    DRes::Fail { pos: st.pos, kind: ErrKind::Validation }
                } else {
                    match presence_bit(st.presence) {
                        None => {
                            if st.pos + 1 > data.len() {
                                DRes::Fail { pos: st.pos, kind: ErrKind::Short }
                            } else {
                                let present = data[st.pos as int] != 0;
                                let st2 = DState { pos: st.pos + 1, ..st };
                                if present {
                                    dec_type(cfg, data, st2, *elem, (fuel - 1) as nat)
                                } else {
                                    DRes::Done { st: st2, v: ValModel::List(Seq::empty()) }
                                }
                            }
                        },
                        Some(present) => {
                            let st2 = DState { presence: presence_step(st.presence), ..st };
                            if present {
                                dec_type(cfg, data, st2, *elem, (fuel - 1) as nat)
                            } else {
                                DRes::Done { st: st2, v: ValModel::List(Seq::empty()) }
                            }
                        },
                    }
                }
            },
        }
    }
}

/// Decodes `n` consecutive items of one element shape.
pub open spec fn dec_items(
    cfg: DCfg,
    data: Seq<u8>,
    st: DState,
    elem: TypeSpec,
    n: nat,
    fuel: nat,
) -> DItemsRes
    decreases fuel, n,
{
    if n == 0 {
        DItemsRes::Done { st, items: Seq::empty() }
    } else {
        match dec_type(cfg, data, st, elem, fuel) {
            DRes::Done { st: st2, v } => match dec_items(
                cfg,
                data,
                st2,
                elem,
                (n - 1) as nat,
                fuel,
            ) {
                DItemsRes::Done { st: st3, items } => DItemsRes::Done {
                    st: st3,
                    items: seq![v] + items,
                },
                DItemsRes::Fail { pos, kind } => DItemsRes::Fail { pos, kind },
            },
            DRes::Fail { pos, kind } => DItemsRes::Fail { pos, kind },
        }
    }
}

/// The reading of a decoded value that later fields may refer to.
pub open spec fn recorded(name: Seq<char>, v: ValModel) -> (Seq<char>, Option<i64>, Option<u64>) {
    (name, spec_as_i64(v), spec_as_u64(v))
}

/// Decodes the fields of a message body from index `i`: conditional fields
/// whose condition fails are skipped entirely; the scope must end
/// byte-aligned. Constraints are checked afterwards, not here.
pub open spec fn dec_mfields(
    cfg: DCfg,
    data: Seq<u8>,
    st: DState,
    fields: Seq<MessageField>,
    i: nat,
    out: Seq<(Seq<char>, ValModel)>,
    fuel: nat,
) -> DFieldsRes
    decreases fuel, fields.len() - i,
{
    if fuel == 0 {
        DFieldsRes::Fail { pos: st.pos, kind: ErrKind::Validation }
    } else if i >= fields.len() {
        if st.bits.next != 8 {
            DFieldsRes::Fail { pos: st.pos, kind: ErrKind::Validation }
        } else {
            DFieldsRes::Done { st, out }
        }
    } else {
        let f = fields[i as int];
        if (match f.condition {
            Some(c) => !dcond_passes(st.vals, c),
            None => false,
        }) {
            dec_mfields(cfg, data, st, fields, i + 1, out, fuel)
        } else {
            match dec_type(cfg, data, st, f.type_spec, (fuel - 1) as nat) {
                DRes::Done { st: st2, v } => dec_mfields(
                    cfg,
                    data,
                    DState { vals: st2.vals.push(recorded(f.name@, v)), ..st2 },
                    fields,
                    i + 1,
                    out.push((f.name@, v)),
                    fuel,
                ),
                DRes::Fail { pos, kind: _ } => DFieldsRes::Fail {
                    pos,
                    kind: ErrKind::Validation,
                },
            }
        }
    }
}

/// Decodes the fields of a struct body from index `i`; each field's
/// constraint is checked as soon as the field is decoded, and the scope must
/// end byte-aligned.
pub open spec fn dec_sfields(
    cfg: DCfg,
    data: Seq<u8>,
    st: DState,
    fields: Seq<StructField>,
    i: nat,
    out: Seq<(Seq<char>, ValModel)>,
    fuel: nat,
) -> DFieldsRes
    decreases fuel, fields.len() - i,
{
    if fuel == 0 {
        DFieldsRes::Fail { pos: st.pos, kind: ErrKind::Validation }
    } else if i >= fields.len() {
        if st.bits.next != 8 {
            DFieldsRes::Fail { pos: st.pos, kind: ErrKind::Validation }
        } else {
            DFieldsRes::Done { st, out }
        }
    } else {
        let f = fields[i as int];
        if (match f.condition {
            Some(c) => !dcond_passes(st.vals, c),
            None => false,
        }) {
            dec_sfields(cfg, data, st, fields, i + 1, out, fuel)
        } else {
            match dec_type(cfg, data, st, f.type_spec, (fuel - 1) as nat) {
                DRes::Done { st: st2, v } => {
                    if (match f.constraint {
                        Some(c) => !vconstraint_ok(v, c),
                        None => false,
                    }) {
                        DFieldsRes::Fail { pos: st2.pos, kind: ErrKind::Validation }
                    } else {
                        dec_sfields(
                            cfg,
                            data,
                            DState { vals: st2.vals.push(recorded(f.name@, v)), ..st2 },
                            fields,
                            i + 1,
                            out.push((f.name@, v)),
                            fuel,
                        )
                    }
                },
                DRes::Fail { pos, kind: _ } => DFieldsRes::Fail {
                    pos,
                    kind: ErrKind::Validation,
                },
            }
        }
    }
}

/// Whether every constrained message field that was decoded passes its
/// constraint, checked in declaration order.
pub open spec fn msg_validate_ok(
    fields: Seq<MessageField>,
    out: Seq<(Seq<char>, ValModel)>,
    i: nat,
) -> bool
    decreases fields.len() - i,
{
    if i >= fields.len() {
        true
    } else {
        (match fields[i as int].constraint {
            None => true,
            Some(c) => match map_get(out, fields[i as int].name@) {
                None => true,
                Some(v) => vconstraint_ok(v, c),
            },
        }) && msg_validate_ok(fields, out, i + 1)
    }
}

/// Decodes one whole message: the named message's fields from a fresh scope
/// at offset zero, then the message-level constraint pass. The consumed
/// count reports how far the cursor advanced, on failure too.
pub open spec fn dec_message(
    p: Protocol,
    big: bool,
    data: Seq<u8>,
    name: Seq<char>,
    fuel: nat,
) -> DMsgRes {
    let mi = find_name(message_names(p), name, 0);
    if mi == -1 {
        DMsgRes::Fail { consumed: 0, kind: ErrKind::UnknownStruct }
    } else {
        let cfg = DCfg { structs: p.structs@, big };
        match dec_mfields(
            cfg,
            data,
            DState {
                pos: 0,
                vals: Seq::empty(),
                presence: PresenceModel::NoSource,
                bits: fresh_bits(),
            },
            p.messages@[mi].fields@,
            0,
            Seq::empty(),
            fuel,
        ) {
            DFieldsRes::Done { st, out } => {
                if msg_validate_ok(p.messages@[mi].fields@, out, 0) {
                    DMsgRes::Done { consumed: st.pos, out }
                } else {
                    DMsgRes::Fail { consumed: st.pos, kind: ErrKind::Validation }
                }
            },
            DFieldsRes::Fail { pos, kind } => DMsgRes::Fail { consumed: pos, kind },
        }
    }
}

/// Prepends already-decoded items to the outcome of decoding the rest.
pub open spec fn ditems_prepend(pre: Seq<ValModel>, r: DItemsRes) -> DItemsRes {
    match r {
        DItemsRes::Done { st, items } => DItemsRes::Done { st, items: pre + items },
        DItemsRes::Fail { pos, kind } => DItemsRes::Fail { pos, kind },
    }
}

proof fn lemma_ditems_prepend_assoc(a: Seq<ValModel>, b: Seq<ValModel>, r: DItemsRes)
    ensures
        ditems_prepend(a, ditems_prepend(b, r)) == ditems_prepend(a + b, r),
{
    match r {
        DItemsRes::Done { st, items } => {
            assert(a + (b + items) =~= (a + b) + items);
        },
        DItemsRes::Fail { .. } => {},
    }
}

/// Model of the recorded readings of an executable decoder.
pub open spec fn dvals_view(v: Seq<(String, Option<i64>, Option<u64>)>) -> Seq<
    (Seq<char>, Option<i64>, Option<u64>),
> {
    Seq::new(v.len(), |i: int| (v[i].0@, v[i].1, v[i].2))
}

/// Executable decoder: a cursor over the buffer plus the per-call scope
/// state.
struct Decoder<'a> {
    data: &'a [u8],
    pos: usize,
    resolved: &'a ResolvedProtocol,
    big: bool,
    vals: Vec<(String, Option<i64>, Option<u64>)>,
    presence: crate::walk::WalkPresence,
    bits_cur: u8,
    bits_next: u8,
}

impl<'a> Decoder<'a> {
    /// The decoder's state, as the specification interpreter sees it.
    spec fn state(&self) -> DState {
        DState {
            pos: self.pos as nat,
            vals: dvals_view(self.vals@),
            presence: self.presence@,
            bits: BitRead { cur: self.bits_cur, next: self.bits_next },
        }
    }

    /// The decoder's configuration.
    spec fn cfg(&self) -> DCfg {
        DCfg { structs: self.resolved.protocol.structs@, big: self.big }
    }

    /// What a decode step leaves untouched.
    spec fn frame(&self, other: &Self) -> bool {
        self.data == other.data && self.resolved == other.resolved && self.big == other.big
    }

    /// Reads `n` packed bits through the cursor, least-significant first.
    fn read_bits_i(&mut self, n: u64) -> (r: Result<u64, CodecError>)
        requires
            n <= 64,
            old(self).bits_next <= 8,
        ensures
            final(self).bits_next <= 8,
            final(self).frame(old(self)),
            final(self).vals == old(self).vals,
            final(self).presence == old(self).presence,
            match r {
                Ok(val) => read_bits_spec(
                    old(self).data@,
                    old(self).pos as nat,
                    old(self).state().bits,
                    n as nat,
                    0,
                    0,
                ) == (BitsRes::Done {
                    val,
                    pos: final(self).pos as nat,
                    bits: final(self).state().bits,
                }),
                Err(e) => read_bits_spec(
                    old(self).data@,
                    old(self).pos as nat,
                    old(self).state().bits,
                    n as nat,
                    0,
                    0,
                ) == (BitsRes::Fail { pos: final(self).pos as nat }) && e@ == ErrKind::Short,
            },
    {
        let ghost spec0 = read_bits_spec(
            self.data@,
            self.pos as nat,
            self.state().bits,
            n as nat,
            0,
            0,
        );
        let dn = self.data.len();
        let mut acc: u64 = 0;
        let mut k: u64 = 0;
        while k < n
            invariant
                k <= n <= 64,
                self.bits_next <= 8,
                dn == self.data@.len(),
                spec0 == read_bits_spec(
                    old(self).data@,
                    old(self).pos as nat,
                    old(self).state().bits,
                    n as nat,
                    0,
                    0,
                ),
                self.data == old(self).data,
                self.resolved == old(self).resolved,
                self.big == old(self).big,
                self.vals == old(self).vals,
                self.presence == old(self).presence,
                spec0 == read_bits_spec(
                    self.data@,
                    self.pos as nat,
                    BitRead { cur: self.bits_cur, next: self.bits_next },
                    n as nat,
                    k as nat,
                    acc,
                ),
            decreases n - k,
        {
            if self.bits_next == 8 {
                if self.pos >= dn {
                    proof {
                        assert(read_bits_spec(
                            self.data@,
                            self.pos as nat,
                            BitRead { cur: self.bits_cur, next: self.bits_next },
                            n as nat,
                            k as nat,
                            acc,
                        ) == (BitsRes::Fail { pos: self.pos as nat }));
                    }
                    return Err(CodecError::ShortBuffer);
                }
                self.bits_cur = self.data[self.pos];
                self.pos = self.pos + 1;
                self.bits_next = 0;
            }
            let bit = (self.bits_cur >> self.bits_next) & 1;
            if bit != 0 && k < 64 {
                acc = acc | (1u64 << k);
            }
            self.bits_next = self.bits_next + 1;
            k = k + 1;
        }
        Ok(acc)
    }

    /// Decodes one field shape into a value.
    #[verifier::rlimit(100)]
    fn dec_type_i(&mut self, t: &TypeSpec, depth: u32) -> (r: Result<Value, CodecError>)
        requires
            old(self).bits_next <= 8,
        ensures
            final(self).bits_next <= 8,
            final(self).frame(old(self)),
            match r {
                Ok(v) => dec_type(
                    old(self).cfg(),
                    old(self).data@,
                    old(self).state(),
                    *t,
                    depth as nat,
                ) == (DRes::Done { st: final(self).state(), v: v@ }),
                Err(e) => dec_type(
                    old(self).cfg(),
                    old(self).data@,
                    old(self).state(),
                    *t,
                    depth as nat,
                ) == (DRes::Fail { pos: final(self).pos as nat, kind: e@ }),
            },
        decreases depth, 0nat,
    {
        if depth == 0 {
            return Err(CodecError::Validation(String::from_str("structure nested too deeply")));
        }
        let dn = self.data.len();
        match t {
            TypeSpec::Base(bt) => {
                if self.bits_next != 8 {
                    return Err(CodecError::Validation(String::from_str(
                        "bitfield/padding_bits not byte-aligned (missing padding_bits?)",
                    )));
                }
                let size = base_type_size(bt);
                if self.pos > dn || dn - self.pos < size {
                    return Err(CodecError::ShortBuffer);
                }
                let raw = read_word(self.data, self.pos, size, self.big);
                proof {
                    crate::wire::lemma_be_val_bound(
                        self.data@.subrange(self.pos as int, self.pos + size as int),
                    );
                    crate::wire::lemma_le_val_bound(
                        self.data@.subrange(self.pos as int, self.pos + size as int),
                    );
                    crate::wire::lemma_pow256_pow2(size as nat);
                }
                let v = match bt {
                    BaseType::U8 => Value::U8(raw as u8),
                    BaseType::U16 => Value::U16(raw as u16),
                    BaseType::U32 => Value::U32(raw as u32),
                    BaseType::U64 => Value::U64(raw),
                    BaseType::I8 => Value::I8(crate::walk::sign_extend_exec(raw, 8) as i8),
                    BaseType::I16 => Value::I16(crate::walk::sign_extend_exec(raw, 16) as i16),
                    BaseType::I32 => Value::I32(crate::walk::sign_extend_exec(raw, 32) as i32),
                    BaseType::I64 => Value::I64(crate::walk::sign_extend_exec(raw, 64)),
                    BaseType::Bool => Value::Bool(raw != 0),
                    BaseType::Float => Value::F32Bits(raw as u32),
                    BaseType::Double => Value::F64Bits(raw),
                };
                self.pos = self.pos + size;
                Ok(v)
            },
            TypeSpec::Padding(n) | TypeSpec::Reserved(n) => {
                if self.bits_next != 8 {
                    return Err(CodecError::Validation(String::from_str(
                        "bitfield/padding_bits not byte-aligned (missing padding_bits?)",
                    )));
                }
                if self.pos > dn || ((dn - self.pos) as u64) < *n {
                    return Err(CodecError::ShortBuffer);
                }
                self.pos = self.pos + (*n as usize);
                if matches!(t, TypeSpec::Padding(_)) {
                    Ok(Value::Padding)
                } else {
                    Ok(Value::Reserved)
                }
            },
            TypeSpec::Bitfield(n) => {
                if *n > 64 {
                    return Err(CodecError::Validation(String::from_str(
                        "bitfield: too many bits (max 64)",
                    )));
                }
                match self.read_bits_i(*n) {
                    Ok(val) => Ok(Value::U64(val)),
                    Err(e) => Err(e),
                }
            },
            TypeSpec::SizedInt(bt, n) => {
                if self.bits_next == 8 {
                    let size64 = crate::walk::bits_to_bytes(*n);
                    if size64 > 8 {
                        return Err(CodecError::Validation(String::from_str(
                            "sized integer wider than 64 bits",
                        )));
                    }
                    let size = size64 as usize;
                    if self.pos > dn || dn - self.pos < size {
                        return Err(CodecError::ShortBuffer);
                    }
                    let raw = read_word(self.data, self.pos, size, self.big);
                    self.pos = self.pos + size;
                    Ok(sized_int_exec(bt, *n, raw))
                } else {
                    if *n > 64 {
                        return Err(CodecError::Validation(String::from_str(
                            "bitfield: too many bits (max 64)",
                        )));
                    }
                    match self.read_bits_i(*n) {
                        Ok(val) => Ok(sized_int_exec(bt, *n, val)),
                        Err(e) => Err(e),
                    }
                }
            },
            TypeSpec::LengthOf(_) | TypeSpec::CountOf(_) => {
                if self.bits_next != 8 {
                    return Err(CodecError::Validation(String::from_str(
                        "bitfield/padding_bits not byte-aligned (missing padding_bits?)",
                    )));
                }
                if self.pos > dn || dn - self.pos < 4 {
                    return Err(CodecError::ShortBuffer);
                }
                let raw = read_word(self.data, self.pos, 4, self.big);
                proof {
                    crate::wire::lemma_be_val_bound(
                        self.data@.subrange(self.pos as int, self.pos + 4),
                    );
                    crate::wire::lemma_le_val_bound(
                        self.data@.subrange(self.pos as int, self.pos + 4),
                    );
                    crate::wire::lemma_pow256_pow2(4);
                    lemma2_to64();
                }
                self.pos = self.pos + 4;
                Ok(Value::U32(raw as u32))
            },
            TypeSpec::PresenceBits(n) => {
                if self.bits_next != 8 {
                    return Err(CodecError::Validation(String::from_str(
                        "bitfield/padding_bits not byte-aligned (missing padding_bits?)",
                    )));
                }
                if !(*n == 1 || *n == 2 || *n == 4) {
                    return Err(CodecError::Validation(String::from_str(
                        "presence_bits(n): n must be 1, 2, or 4",
                    )));
                }
                let nb = *n as usize;
                if self.pos > dn || dn - self.pos < nb {
                    return Err(CodecError::ShortBuffer);
                }
                let v = read_word(self.data, self.pos, nb, self.big);
                self.presence = crate::walk::WalkPresence::Bitmap(v, 0);
                self.pos = self.pos + nb;
                Ok(Value::U64(v))
            },
            TypeSpec::BitmapPresence { total_bits, presence_per_block, .. } => {
                if self.bits_next != 8 {
                    return Err(CodecError::Validation(String::from_str(
                        "bitfield/padding_bits not byte-aligned (missing padding_bits?)",
                    )));
                }
                if *presence_per_block == 0 {
                    let nb = (((*total_bits as u64) + 7) / 8) as usize;
                    if self.pos > dn || dn - self.pos < nb {
                        return Err(CodecError::ShortBuffer);
                    }
                    let bytes = crate::walk::slice_range_to_vec(self.data, self.pos, nb);
                    let copy = crate::walk::slice_range_to_vec(self.data, self.pos, nb);
                    self.presence = crate::walk::WalkPresence::Var {
                        bytes,
                        idx: 0,
                        per_block: 0,
                    };
                    self.pos = self.pos + nb;
                    Ok(Value::Bytes(copy))
                } else {
                    let blocks = ((*total_bits as u64) + (*presence_per_block as u64) - 1) / (
                    *presence_per_block as u64);
                    match crate::walk::read_fx_exec(self.data, self.pos, blocks) {
                        Ok((bytes, p)) => {
                            let copy = copy_bytes(&bytes);
                            self.presence = crate::walk::WalkPresence::Var {
                                bytes,
                                idx: 0,
                                per_block: *presence_per_block,
                            };
                            self.pos = p;
                            Ok(Value::Bytes(copy))
                        },
                        Err(e) => Err(e),
                    }
                }
            },
            TypeSpec::PaddingBits(n) => {
                if *n > 64 {
                    return Err(CodecError::Validation(String::from_str(
                        "bitfield: too many bits (max 64)",
                    )));
                }
                match self.read_bits_i(*n) {
                    Ok(_) => Ok(Value::Padding),
                    Err(e) => Err(e),
                }
            },
            TypeSpec::StructRef(nm) => {
                if self.bits_next != 8 {
                    return Err(CodecError::Validation(String::from_str(
                        "bitfield/padding_bits not byte-aligned (missing padding_bits?)",
                    )));
                }
                let resolved = self.resolved;
                let st = match resolved.get_struct(nm.as_str()) {
                    Some(st) => st,
                    None => {
                        proof {
                            assert(struct_names(resolved.protocol) =~= Seq::new(
                                self.cfg().structs.len(),
                                |k: int| self.cfg().structs[k].name@,
                            ));
                        }
                        return Err(
                            CodecError::UnknownStruct(crate::walk::clone_str_ref(nm.as_str())),
                        );
                    },
                };
                proof {
                    assert(struct_names(resolved.protocol) =~= Seq::new(
                        self.cfg().structs.len(),
                        |k: int| self.cfg().structs[k].name@,
                    ));
                }
                let mut saved = crate::walk::WalkPresence::NoSource;
                core::mem::swap(&mut saved, &mut self.presence);
                let saved_cur = self.bits_cur;
                let saved_next = self.bits_next;
                self.bits_cur = 0;
                self.bits_next = 8;
                let res = self.dec_sfields_i(st.name.as_str(), &st.fields, depth - 1);
                self.presence = saved;
                self.bits_cur = saved_cur;
                self.bits_next = saved_next;
                match res {
                    Ok(m) => Ok(Value::Struct(m)),
                    Err(e) => Err(e),
                }
            },
            TypeSpec::Array(elem, len) => {
                if self.bits_next != 8 {
                    return Err(CodecError::Validation(String::from_str(
                        "bitfield/padding_bits not byte-aligned (missing padding_bits?)",
                    )));
                }
                let k: u64 = match len {
                    ArrayLen::Constant(k) => *k,
                    ArrayLen::FieldRef(f) => match dctx_get_u64(&self.vals, f.as_str()) {
                        Some(v) => v,
                        None => {
                            return Err(
                                CodecError::UnknownField(
                                    crate::walk::clone_str_ref(f.as_str()),
                                ),
                            );
                        },
                    },
                };
                match self.dec_items_i(elem, k, depth - 1) {
                    Ok(items) => Ok(Value::List(items)),
                    Err(e) => Err(e),
                }
            },
            TypeSpec::List(elem) => {
                if self.bits_next != 8 {
                    return Err(CodecError::Validation(String::from_str(
                        "bitfield/padding_bits not byte-aligned (missing padding_bits?)",
                    )));
                }
                if self.pos > dn || dn - self.pos < 4 {
                    return Err(CodecError::ShortBuffer);
                }
                let k = read_word(self.data, self.pos, 4, self.big);
                self.pos = self.pos + 4;
                match self.dec_items_i(elem, k, depth - 1) {
                    Ok(items) => Ok(Value::List(items)),
                    Err(e) => Err(e),
                }
            },
            TypeSpec::RepList(elem) => {
                if self.bits_next != 8 {
                    return Err(CodecError::Validation(String::from_str(
                        "bitfield/padding_bits not byte-aligned (missing padding_bits?)",
                    )));
                }
                if self.pos >= dn {
                    return Err(CodecError::ShortBuffer);
                }
                let k = self.data[self.pos] as u64;
                self.pos = self.pos + 1;
                match self.dec_items_i(elem, k, depth - 1) {
                    Ok(items) => Ok(Value::List(items)),
                    Err(e) => Err(e),
                }
            },
            TypeSpec::OctetsFx => {
                if self.bits_next != 8 {
                    return Err(CodecError::Validation(String::from_str(
                        "bitfield/padding_bits not byte-aligned (missing padding_bits?)",
                    )));
                }
                let ghost spec0 = octets_take(self.data@, self.pos as nat);
                let mut out: Vec<u8> = Vec::new();
                loop
                    invariant
                        dn == self.data@.len(),
                        self.data == old(self).data,
                        self.resolved == old(self).resolved,
                        self.big == old(self).big,
                        self.vals == old(self).vals,
                        self.presence == old(self).presence,
                        self.bits_cur == old(self).bits_cur,
                        self.bits_next == old(self).bits_next,
                        old(self).bits_next == 8,
                        depth >= 1,
                        t is OctetsFx,
                        spec0 == octets_take(self.data@, old(self).pos as nat),
                        oct_prepend(out@, octets_take(self.data@, self.pos as nat)) == spec0,
                    decreases dn - self.pos,
                {
                    if self.pos >= dn {
                        return Err(CodecError::ShortBuffer);
                    }
                    let b = self.data[self.pos];
                    self.pos = self.pos + 1;
                    proof {
                        let tail = octets_take(self.data@, self.pos as nat);
                        if b & 0x80 != 0 {
                            lemma_oct_prepend_assoc(out@, seq![b], tail);
                        }
                        assert(out@ + seq![b] =~= out@.push(b));
                    }
                    out.push(b);
                    if b & 0x80 == 0 {
                        return Ok(Value::Bytes(out));
                    }
                }
            },
            TypeSpec::Optional(elem) => {
                if self.bits_next != 8 {
                    return Err(CodecError::Validation(String::from_str(
                        "bitfield/padding_bits not byte-aligned (missing padding_bits?)",
                    )));
                }
                let mut taken = crate::walk::WalkPresence::NoSource;
                core::mem::swap(&mut taken, &mut self.presence);
                let pb: Option<bool> = match taken {
                    crate::walk::WalkPresence::NoSource => {
                        self.presence = crate::walk::WalkPresence::NoSource;
                        None
                    },
                    crate::walk::WalkPresence::Bitmap(value, idx) => {
                        let bit = idx < 64 && ((value >> (idx as u64)) & 1) == 1;
                        let idx2 = if idx == usize::MAX {
                            idx
                        } else {
                            idx + 1
                        };
                        self.presence = crate::walk::WalkPresence::Bitmap(value, idx2);
                        Some(bit)
                    },
                    crate::walk::WalkPresence::Var { bytes, idx, per_block } => {
                        let bit: bool;
                        if per_block == 0 {
                            let bi = idx / 8;
                            let off = idx % 8;
                            bit = bi < bytes.len() && ((bytes[bi] >> ((7 - off) as u8)) & 1) == 1;
                        } else {
                            let bi = idx / (per_block as usize);
                            let off = idx % (per_block as usize);
                            bit = bi < bytes.len() && off < 8 && ((bytes[bi] >> ((7 - off) as u8))
                                & 1) == 1;
                        }
                        let idx2 = if idx == usize::MAX {
                            idx
                        } else {
                            idx + 1
                        };
                        self.presence = crate::walk::WalkPresence::Var {
                            bytes,
                            idx: idx2,
                            per_block,
                        };
                        Some(bit)
                    },
                };
                match pb {
                    None => {
                        if self.pos >= dn {
                            return Err(CodecError::ShortBuffer);
                        }
                        let present = self.data[self.pos] != 0;
                        self.pos = self.pos + 1;
                        if present {
                            self.dec_type_i(elem, depth - 1)
                        } else {
                            Ok(Value::List(Vec::new()))
                        }
                    },
                    Some(present) => {
                        if present {
                            self.dec_type_i(elem, depth - 1)
                        } else {
                            Ok(Value::List(Vec::new()))
                        }
                    },
                }
            },
        }
    }

    /// Decodes `n` consecutive items of one element shape.
    fn dec_items_i(&mut self, elem: &TypeSpec, n: u64, depth: u32) -> (r: Result<
        Vec<Value>,
        CodecError,
    >)
        requires
            old(self).bits_next <= 8,
        ensures
            final(self).bits_next <= 8,
            final(self).frame(old(self)),
            match r {
                Ok(items) => dec_items(
                    old(self).cfg(),
                    old(self).data@,
                    old(self).state(),
                    *elem,
                    n as nat,
                    depth as nat,
                ) == (DItemsRes::Done { st: final(self).state(), items: list_model(items@) }),
                Err(e) => dec_items(
                    old(self).cfg(),
                    old(self).data@,
                    old(self).state(),
                    *elem,
                    n as nat,
                    depth as nat,
                ) == (DItemsRes::Fail { pos: final(self).pos as nat, kind: e@ }),
            },
        decreases depth, 1nat,
    {
        let ghost spec0 = dec_items(
            self.cfg(),
            self.data@,
            self.state(),
            *elem,
            n as nat,
            depth as nat,
        );
        let mut items: Vec<Value> = Vec::new();
        let mut k: u64 = 0;
        proof {
            lemma_list_model_index(items@);
            assert(list_model(items@) =~= Seq::<ValModel>::empty());
        }
        while k < n
            invariant
                k <= n,
                self.bits_next <= 8,
                self.data == old(self).data,
                self.resolved == old(self).resolved,
                self.big == old(self).big,
                spec0 == dec_items(
                    old(self).cfg(),
                    old(self).data@,
                    old(self).state(),
                    *elem,
                    n as nat,
                    depth as nat,
                ),
                spec0 == ditems_prepend(
                    list_model(items@),
                    dec_items(
                        self.cfg(),
                        self.data@,
                        self.state(),
                        *elem,
                        (n - k) as nat,
                        depth as nat,
                    ),
                ),
            decreases n - k,
        {
            match self.dec_type_i(elem, depth) {
                Ok(v) => {
                    proof {
                        crate::value::lemma_list_model_push(items@, v);
                    }
                    let ghost pre = list_model(items@);
                    let ghost tail_res = dec_items(
                        self.cfg(),
                        self.data@,
                        self.state(),
                        *elem,
                        (n - k - 1) as nat,
                        depth as nat,
                    );
                    proof {
                        lemma_ditems_prepend_assoc(pre, seq![v@], tail_res);
                        assert(pre + seq![v@] =~= pre.push(v@));
                    }
                    items.push(v);
                },
                Err(e) => {
                    return Err(e);
                },
            }
            k = k + 1;
        }
        proof {
            assert(list_model(items@) + Seq::<ValModel>::empty() =~= list_model(items@));
        }
        Ok(items)
    }

    /// Decodes the fields of a message body in declaration order.
    fn dec_mfields_i(&mut self, fields: &Vec<MessageField>, depth: u32) -> (r: Result<
        ValueMap,
        CodecError,
    >)
        requires
            old(self).bits_next <= 8,
        ensures
            final(self).bits_next <= 8,
            final(self).frame(old(self)),
            match r {
                Ok(m) => dec_mfields(
                    old(self).cfg(),
                    old(self).data@,
                    old(self).state(),
                    fields@,
                    0,
                    Seq::empty(),
                    depth as nat,
                ) == (DFieldsRes::Done { st: final(self).state(), out: m@ }),
                Err(e) => dec_mfields(
                    old(self).cfg(),
                    old(self).data@,
                    old(self).state(),
                    fields@,
                    0,
                    Seq::empty(),
                    depth as nat,
                ) == (DFieldsRes::Fail { pos: final(self).pos as nat, kind: e@ }),
            },
        decreases depth, 1nat,
    {
        let ghost spec0 = dec_mfields(
            self.cfg(),
            self.data@,
            self.state(),
            fields@,
            0,
            Seq::empty(),
            depth as nat,
        );
        if depth == 0 {
            return Err(CodecError::Validation(String::from_str("structure nested too deeply")));
        }
        let mut out = ValueMap::new();
        let n = fields.len();
        let mut i: usize = 0;
        while i < n
            invariant
                i <= n,
                n == fields@.len(),
                depth >= 1,
                self.bits_next <= 8,
                self.data == old(self).data,
                self.resolved == old(self).resolved,
                self.big == old(self).big,
                spec0 == dec_mfields(
                    old(self).cfg(),
                    old(self).data@,
                    old(self).state(),
                    fields@,
                    0,
                    Seq::empty(),
                    depth as nat,
                ),
                spec0 == dec_mfields(
                    self.cfg(),
                    self.data@,
                    self.state(),
                    fields@,
                    i as nat,
                    out@,
                    depth as nat,
                ),
            decreases n - i,
        {
            let f = &fields[i];
            let mut skip_this = false;
            if let Some(c) = &f.condition {
                if !dcond_check(&self.vals, c) {
                    skip_this = true;
                }
            }
            if !skip_this {
                match self.dec_type_i(&f.type_spec, depth - 1) {
                    Ok(v) => {
                        let vi = v.as_i64();
                        let vu = v.as_u64();
                        let key = crate::walk::clone_str_ref(f.name.as_str());
                        proof {
                            assert(dvals_view(self.vals@.push((key, vi, vu))) =~= dvals_view(
                                self.vals@,
                            ).push((f.name@, vi, vu)));
                        }
                        self.vals.push((key, vi, vu));
                        let key2 = crate::walk::clone_str_ref(f.name.as_str());
                        out.insert(key2, v);
                    },
                    Err(e) => {
                        let msg = String::from_str("field ").concat(f.name.as_str()).concat(
                            ": ",
                        ).concat(e.describe().as_str());
                        return Err(CodecError::Validation(msg));
                    },
                }
            }
            i = i + 1;
        }
        if self.bits_next != 8 {
            return Err(CodecError::Validation(String::from_str(
                "message: bitfield/padding_bits not byte-aligned at end",
            )));
        }
        Ok(out)
    }

    /// Decodes the fields of a struct body in declaration order, checking
    /// each field's constraint as soon as the field is decoded.
    fn dec_sfields_i(&mut self, sname: &str, fields: &Vec<StructField>, depth: u32) -> (r: Result<
        ValueMap,
        CodecError,
    >)
        requires
            old(self).bits_next <= 8,
        ensures
            final(self).bits_next <= 8,
            final(self).frame(old(self)),
            match r {
                Ok(m) => dec_sfields(
                    old(self).cfg(),
                    old(self).data@,
                    old(self).state(),
                    fields@,
                    0,
                    Seq::empty(),
                    depth as nat,
                ) == (DFieldsRes::Done { st: final(self).state(), out: m@ }),
                Err(e) => dec_sfields(
                    old(self).cfg(),
                    old(self).data@,
                    old(self).state(),
                    fields@,
                    0,
                    Seq::empty(),
                    depth as nat,
                ) == (DFieldsRes::Fail { pos: final(self).pos as nat, kind: e@ }),
            },
        decreases depth, 1nat,
    {
        let ghost spec0 = dec_sfields(
            self.cfg(),
            self.data@,
            self.state(),
            fields@,
            0,
            Seq::empty(),
            depth as nat,
        );
        if depth == 0 {
            return Err(CodecError::Validation(String::from_str("structure nested too deeply")));
        }
        let mut out = ValueMap::new();
        let n = fields.len();
        let mut i: usize = 0;
        while i < n
            invariant
                i <= n,
                n == fields@.len(),
                depth >= 1,
                self.bits_next <= 8,
                self.data == old(self).data,
                self.resolved == old(self).resolved,
                self.big == old(self).big,
                spec0 == dec_sfields(
                    old(self).cfg(),
                    old(self).data@,
                    old(self).state(),
                    fields@,
                    0,
                    Seq::empty(),
                    depth as nat,
                ),
                spec0 == dec_sfields(
                    self.cfg(),
                    self.data@,
                    self.state(),
                    fields@,
                    i as nat,
                    out@,
                    depth as nat,
                ),
            decreases n - i,
        {
            let f = &fields[i];
            let mut skip_this = false;
            if let Some(c) = &f.condition {
                if !dcond_check(&self.vals, c) {
                    skip_this = true;
                }
            }
            if !skip_this {
                match self.dec_type_i(&f.type_spec, depth - 1) {
                    Ok(v) => {
                        let mut bad = false;
                        if let Some(c) = &f.constraint {
                            if !vcheck(&v, c) {
                                bad = true;
                            }
                        }
                        if bad {
                            let mut msg = String::from_str("").concat(sname).concat(".").concat(
                                f.name.as_str(),
                            ).concat(": ");
                            if let Some(c) = &f.constraint {
                                msg = msg.concat(vconstraint_msg(&v, c).as_str());
                            }
                            return Err(CodecError::Validation(msg));
                        }
                        let vi = v.as_i64();
                        let vu = v.as_u64();
                        let key = crate::walk::clone_str_ref(f.name.as_str());
                        proof {
                            assert(dvals_view(self.vals@.push((key, vi, vu))) =~= dvals_view(
                                self.vals@,
                            ).push((f.name@, vi, vu)));
                        }
                        self.vals.push((key, vi, vu));
                        let key2 = crate::walk::clone_str_ref(f.name.as_str());
                        out.insert(key2, v);
                    },
                    Err(e) => {
                        let msg = String::from_str("").concat(sname).concat(".").concat(
                            f.name.as_str(),
                        ).concat(": ").concat(e.describe().as_str());
                        return Err(CodecError::Validation(msg));
                    },
                }
            }
            i = i + 1;
        }
        if self.bits_next != 8 {
            return Err(CodecError::Validation(String::from_str(
                "struct: bitfield/padding_bits not byte-aligned at end",
            )));
        }
        Ok(out)
    }
}

/// Prepends an already-taken byte run to the outcome of taking the rest.
pub open spec fn oct_prepend(pre: Seq<u8>, r: OctRes) -> OctRes {
    match r {
        OctRes::Done { bytes, pos } => OctRes::Done { bytes: pre + bytes, pos },
        OctRes::Fail { pos } => OctRes::Fail { pos },
    }
}

proof fn lemma_oct_prepend_assoc(a: Seq<u8>, b: Seq<u8>, r: OctRes)
    ensures
        oct_prepend(a, oct_prepend(b, r)) == oct_prepend(a + b, r),
{
    match r {
        OctRes::Done { bytes, pos } => {
            assert(a + (b + bytes) =~= (a + b) + bytes);
        },
        OctRes::Fail { .. } => {},
    }
}

/// The sized-integer value, built exactly as the model builds it.
fn sized_int_exec(bt: &BaseType, n: u64, raw: u64) -> (r: Value)
    ensures
        r@ == sized_int_value(*bt, n, raw),
{
    let masked: u64 = if n >= 64 {
        raw
    } else {
        proof {
            lemma_pow2_pos(n as nat);
        }
        raw % crate::walk::pow2_u64(n)
    };
    let signed = matches!(bt, BaseType::I8 | BaseType::I16 | BaseType::I32 | BaseType::I64);
    let v: i64 = if signed && n > 0 {
        if n >= 64 {
            crate::walk::sign_extend_exec(masked, 64)
        } else {
            proof {
                lemma_pow2_pos(n as nat);
            }
            crate::walk::sign_extend_exec(masked, n)
        }
    } else {
        0
    };
    match bt {
        BaseType::U8 => Value::U8(masked as u8),
        BaseType::U16 => Value::U16(masked as u16),
        BaseType::U32 => Value::U32(masked as u32),
        BaseType::U64 => Value::U64(masked),
        BaseType::I8 => Value::I8(v as i8),
        BaseType::I16 => Value::I16(v as i16),
        BaseType::I32 => Value::I32(v as i32),
        BaseType::I64 => Value::I64(v),
        _ => Value::U64(masked),
    }
}

/// Looks a name up among the recorded readings, most recent entry first.
fn dctx_get_u64(vals: &Vec<(String, Option<i64>, Option<u64>)>, key: &str) -> (r: Option<u64>)
    ensures
        r == dget_u64(dvals_view(vals@), key@),
{
    match dctx_find(vals, key) {
        Some(i) => vals[i].2,
        None => None,
    }
}

/// Looks a name up among the recorded readings, giving its signed reading.
fn dctx_get_i64(vals: &Vec<(String, Option<i64>, Option<u64>)>, key: &str) -> (r: Option<i64>)
    ensures
        r == dget_i64(dvals_view(vals@), key@),
{
    match dctx_find(vals, key) {
        Some(i) => vals[i].1,
        None => None,
    }
}

/// The index a lookup finds, scanning from the most recent entry.
fn dctx_find(vals: &Vec<(String, Option<i64>, Option<u64>)>, key: &str) -> (r: Option<usize>)
    ensures
        match r {
            Some(i) => i < vals@.len() && dfind(dvals_view(vals@), key@) == i,
            None => dfind(dvals_view(vals@), key@) == -1,
        },
{
    let ghost view = dvals_view(vals@);
    let n = vals.len();
    let mut i: usize = n;
    proof {
        lemma_dfind_range(view, key@);
        assert(view.take(n as int) =~= view);
    }
    loop
        invariant
            i <= n,
            n == vals@.len(),
            view == dvals_view(vals@),
            view.len() == n,
            dfind(view, key@) == dfind(view.take(i as int), key@),
        decreases i,
    {
        proof {
            lemma_dfind_range(view.take(i as int), key@);
        }
        if i == 0 {
            assert(view.take(0) =~= Seq::<(Seq<char>, Option<i64>, Option<u64>)>::empty());
            return None;
        }
        i = i - 1;
        if str_eq(vals[i].0.as_str(), key) {
            assert(view.take(i + 1).drop_last() =~= view.take(i as int));
            assert(dfind(view, key@) == i);
            return Some(i);
        }
        proof {
            assert(view.take(i + 1).drop_last() =~= view.take(i as int));
        }
    }
}

proof fn lemma_dfind_range(vals: Seq<(Seq<char>, Option<i64>, Option<u64>)>, key: Seq<char>)
    ensures
        -1 <= dfind(vals, key) < vals.len(),
        dfind(vals, key) >= 0 ==> vals[dfind(vals, key)].0 == key,
    decreases vals.len(),
{
    if vals.len() > 0 && vals[vals.len() - 1].0 != key {
        lemma_dfind_range(vals.drop_last(), key);
    }
}

/// Whether a conditional field participates, given the recorded readings.
fn dcond_check(vals: &Vec<(String, Option<i64>, Option<u64>)>, c: &Condition) -> (r: bool)
    ensures
        r == dcond_passes(dvals_view(vals@), *c),
{
    let cv = dctx_get_i64(vals, c.field.as_str());
    let exp = c.value.as_i64();
    match (cv, exp) {
        (Some(a), Some(b)) => a == b,
        (None, None) => true,
        _ => false,
    }
}


/// The failure text of a value-level constraint check: for range
/// constraints, the offending value verbatim.
fn vconstraint_msg(v: &Value, c: &Constraint) -> String {
    match c {
        Constraint::Range(_) => match v.as_i64() {
            Some(x) => String::from_str("value ").concat(
                crate::value::i64_to_string(x).as_str(),
            ).concat(" not in any interval"),
            None => String::from_str("expected numeric for range"),
        },
        Constraint::Enum(_) => String::from_str("value not in allowed enum"),
    }
}

/// Whether a decoded value passes a constraint.
fn vcheck(v: &Value, c: &Constraint) -> (r: bool)
    ensures
        r == vconstraint_ok(v@, *c),
{
    match c {
        Constraint::Range(intervals) => {
            let nv = match v.as_i64() {
                Some(nv) => nv,
                None => {
                    return false;
                },
            };
            let n = intervals.len();
            let mut i: usize = 0;
            while i < n
                invariant
                    i <= n,
                    n == intervals@.len(),
                    c matches Constraint::Range(iv) && iv == *intervals,
                    spec_as_i64(v@) == Some(nv),
                    forall|j: int| 0 <= j < i ==> !((#[trigger] intervals@[j]).0 <= nv
                        <= intervals@[j].1),
                decreases n - i,
            {
                if intervals[i].0 <= nv && nv <= intervals[i].1 {
                    proof {
                        assert(exists|j: int|
                            0 <= j < intervals@.len() && (#[trigger] intervals@[j]).0 <= nv as int
                                <= intervals@[j].1) by {
                            assert((intervals@[i as int]).0 <= nv as int <= intervals@[i as int].1);
                        }
                    }
                    return true;
                }
                i = i + 1;
            }
            false
        },
        Constraint::Enum(lits) => {
            let vi = v.as_i64();
            let n = lits.len();
            let mut i: usize = 0;
            while i < n
                invariant
                    i <= n,
                    n == lits@.len(),
                    c matches Constraint::Enum(ls) && ls == *lits,
                    spec_as_i64(v@) == vi,
                    forall|j: int| 0 <= j < i ==> literal_as_i64(#[trigger] lits@[j]) != vi,
                decreases n - i,
            {
                let li = lits[i].as_i64();
                let eq = match (li, vi) {
                    (Some(a), Some(b)) => a == b,
                    (None, None) => true,
                    _ => false,
                };
                if eq {
                    proof {
                        assert(exists|j: int|
                            0 <= j < lits@.len() && literal_as_i64(#[trigger] lits@[j])
                                == spec_as_i64(v@)) by {
                            assert(literal_as_i64(lits@[i as int]) == spec_as_i64(v@));
                        }
                    }
                    return true;
                }
                i = i + 1;
            }
            false
        },
    }
}

/// Copies a byte vector.
fn copy_bytes(b: &Vec<u8>) -> (r: Vec<u8>)
    ensures
        r@ == b@,
{
    let mut out: Vec<u8> = Vec::new();
    let mut i: usize = 0;
    proof {
        assert(out@ =~= b@.take(0));
    }
    while i < b.len()
        invariant
            i <= b@.len(),
            out@ == b@.take(i as int),
        decreases b@.len() - i,
    {
        proof {
            assert(b@.take(i + 1) =~= b@.take(i as int).push(b@[i as int]));
        }
        out.push(b[i]);
        i = i + 1;
    }
    proof {
        assert(b@.take(b@.len() as int) =~= b@);
    }
    out
}

/// The byte-level codec: a resolved protocol plus a byte order.
#[derive(Debug)]
pub struct Codec {
    pub endianness: Endianness,
    pub resolved: ResolvedProtocol,
}

impl Codec {
    /// A codec over the given resolved protocol.
    pub fn new(resolved: ResolvedProtocol, endianness: Endianness) -> (r: Self)
        ensures
            r.resolved == resolved,
            r.endianness == endianness,
    {
        Codec { endianness, resolved }
    }

    /// Decodes a single message by name, reporting both the byte count the
    /// cursor advanced and the outcome, so a frame iterator can skip past a
    /// rejected record.
    pub fn decode_message_with_extent(&self, message_name: &str, bytes: &[u8]) -> (r: (
        usize,
        Result<ValueMap, CodecError>,
    ))
        ensures
            ({
                let res = dec_message(
                    self.resolved.protocol,
                    self.endianness is Big,
                    bytes@,
                    message_name@,
                    MAX_DEPTH as nat,
                );
                match r.1 {
                    Ok(m) => res == (DMsgRes::Done { consumed: r.0 as nat, out: m@ }),
                    Err(e) => res == (DMsgRes::Fail { consumed: r.0 as nat, kind: e@ }),
                }
            }),
    {
        let msg = match self.resolved.get_message(message_name) {
            Some(m) => m,
            None => {
                return (
                    0,
                    Err(CodecError::UnknownStruct(crate::walk::clone_str_ref(message_name))),
                );
            },
        };
        let big = endian_is_big(&self.endianness);
        let mut d = Decoder {
            data: bytes,
            pos: 0,
            resolved: &self.resolved,
            big,
            vals: Vec::new(),
            presence: crate::walk::WalkPresence::NoSource,
            bits_cur: 0,
            bits_next: 8,
        };
        proof {
            assert(dvals_view(d.vals@) =~= Seq::<(Seq<char>, Option<i64>, Option<u64>)>::empty());
        }
        match d.dec_mfields_i(&msg.fields, MAX_DEPTH) {
            Err(e) => (d.pos, Err(e)),
            Ok(m) => {
                match msg_validate_exec(&msg.fields, &m) {
                    Ok(()) => (d.pos, Ok(m)),
                    Err(e) => (d.pos, Err(e)),
                }
            },
        }
    }

    /// Decodes a single message by name from the given bytes.
    pub fn decode_message(&self, message_name: &str, bytes: &[u8]) -> (r: Result<
        ValueMap,
        CodecError,
    >)
        ensures
            ({
                let res = dec_message(
                    self.resolved.protocol,
                    self.endianness is Big,
                    bytes@,
                    message_name@,
                    MAX_DEPTH as nat,
                );
                match r {
                    Ok(m) => res matches DMsgRes::Done { consumed, out } && out == m@,
                    Err(e) => res matches DMsgRes::Fail { consumed, kind } && kind == e@,
                }
            }),
    {
        self.decode_message_with_extent(message_name, bytes).1
    }
}

/// The message-level constraint pass: checks every constrained field that
/// was decoded, in declaration order.
fn msg_validate_exec(fields: &Vec<MessageField>, m: &ValueMap) -> (r: Result<(), CodecError>)
    ensures
        match r {
            Ok(()) => msg_validate_ok(fields@, m@, 0),
            Err(e) => !msg_validate_ok(fields@, m@, 0) && e@ == ErrKind::Validation,
        },
{
    let n = fields.len();
    let mut i: usize = 0;
    while i < n
        invariant
            i <= n,
            n == fields@.len(),
            msg_validate_ok(fields@, m@, 0) == msg_validate_ok(fields@, m@, i as nat),
        decreases n - i,
    {
        let f = &fields[i];
        if let Some(c) = &f.constraint {
            match m.get(f.name.as_str()) {
                Some(v) => {
                    if !vcheck(v, c) {
                        let msg = String::from_str("field ").concat(f.name.as_str()).concat(
                            ": ",
                        ).concat(vconstraint_msg(v, c).as_str());
                        return Err(CodecError::Validation(msg));
                    }
                },
                None => {},
            }
        }
        i = i + 1;
    }
    Ok(())
}

/// Encode-side bit cursor: bits are written least-significant first within a
/// byte; `next == 0` means byte-aligned (the current byte is empty).
pub ghost struct BitWrite {
    pub cur: u8,
    pub next: u8,
}

/// Encode state: the bytes written so far and the bit cursor.
pub ghost struct EState {
    pub out: Seq<u8>,
    pub bw: BitWrite,
}

/// Outcome of encoding.
pub ghost enum ERes {
    Done(EState),
    Fail(ErrKind),
}

/// Appends `n` bits of `value`, least-significant first, flushing each full
/// byte.
pub open spec fn write_bits_spec(st: EState, n: nat, value: u64) -> EState
    decreases n,
{
    if n == 0 {
        st
    } else {
        let bit = value & 1;
        let cur2 = if bit != 0 && st.bw.next < 8 {
            st.bw.cur | (1u8 << st.bw.next)
        } else {
            st.bw.cur
        };
        let next2 = (st.bw.next + 1) as u8;
        let st2 = if next2 == 8 {
            EState { out: st.out.push(cur2), bw: BitWrite { cur: 0, next: 0 } }
        } else {
            EState { out: st.out, bw: BitWrite { cur: cur2, next: next2 } }
        };
        write_bits_spec(st2, (n - 1) as nat, value >> 1u64)
    }
}

/// The default value supplied for a missing field at encode time.
pub open spec fn default_model(t: TypeSpec) -> ValModel {
    match t {
        TypeSpec::Base(BaseType::Bool) => ValModel::Bool(false),
        TypeSpec::Base(BaseType::Float) => ValModel::F32Bits(0),
        TypeSpec::Base(BaseType::Double) => ValModel::F64Bits(0),
        TypeSpec::Base(_) => ValModel::U64(0),
        TypeSpec::Padding(_) | TypeSpec::Reserved(_) | TypeSpec::PaddingBits(_) => ValModel::Padding,
        TypeSpec::List(_) => ValModel::List(Seq::empty()),
        TypeSpec::StructRef(_) => ValModel::Struct(Seq::empty()),
        TypeSpec::PresenceBits(_) | TypeSpec::BitmapPresence { .. } => ValModel::Bytes(Seq::empty()),
        _ => ValModel::U64(0),
    }
}

/// The value a scope supplies for a field: the entry under its name, or the
/// type-specific default.
pub open spec fn supplied(m: Seq<(Seq<char>, ValModel)>, name: Seq<char>, t: TypeSpec) -> ValModel {
    match map_get(m, name) {
        Some(v) => v,
        None => default_model(t),
    }
}

/// Whether an Optional field counts as present at encode time: its entry
/// exists and is not the empty-list absent marker.
pub open spec fn opt_present(m: Seq<(Seq<char>, ValModel)>, name: Seq<char>) -> bool {
    match map_get(m, name) {
        Some(v) => !(v matches ValModel::List(l) && l.len() == 0),
        None => false,
    }
}

/// The inner value an Optional contributes: the first item of a non-empty
/// list, or the value itself.
pub open spec fn inner_of(v: ValModel) -> ValModel {
    match v {
        ValModel::List(l) => if l.len() > 0 {
            l[0]
        } else {
            v
        },
        _ => v,
    }
}

/// The element shape under an Optional.
pub open spec fn optional_elem(t: TypeSpec) -> TypeSpec {
    match t {
        TypeSpec::Optional(e) => *e,
        _ => t,
    }
}

/// Whether a conditional field participates at encode time, judged from the
/// scope's value map.
pub open spec fn econd_passes(m: Seq<(Seq<char>, ValModel)>, c: Condition) -> bool {
    (match map_get(m, c.field@) {
        Some(v) => spec_as_i64(v),
        None => None,
    }) == literal_as_i64(c.value)
}

/// The run of Optional fields a presence field governs at encode time:
/// indices after `j`, passing over conditional fields whose condition fails,
/// up to the first participating non-Optional field.
pub open spec fn run_indices_m(
    m: Seq<(Seq<char>, ValModel)>,
    fields: Seq<MessageField>,
    j: int,
) -> Seq<int>
    decreases fields.len() - j,
{
    if j < 0 || j >= fields.len() {
        Seq::empty()
    } else if (match fields[j].condition {
        Some(c) => !econd_passes(m, c),
        None => false,
    }) {
        run_indices_m(m, fields, j + 1)
    } else if fields[j].type_spec is Optional {
        seq![j] + run_indices_m(m, fields, j + 1)
    } else {
        Seq::empty()
    }
}

/// Where the field loop resumes after a presence field's optional run.
pub open spec fn run_end_m(m: Seq<(Seq<char>, ValModel)>, fields: Seq<MessageField>, j: int) -> int
    decreases fields.len() - j,
{
    if j < 0 || j >= fields.len() {
        j
    } else if (match fields[j].condition {
        Some(c) => !econd_passes(m, c),
        None => false,
    }) {
        run_end_m(m, fields, j + 1)
    } else if fields[j].type_spec is Optional {
        run_end_m(m, fields, j + 1)
    } else {
        j
    }
}

/// Same as [`run_indices_m`], over struct fields.
pub open spec fn run_indices_s(
    m: Seq<(Seq<char>, ValModel)>,
    fields: Seq<StructField>,
    j: int,
) -> Seq<int>
    decreases fields.len() - j,
{
    if j < 0 || j >= fields.len() {
        Seq::empty()
    } else if (match fields[j].condition {
        Some(c) => !econd_passes(m, c),
        None => false,
    }) {
        run_indices_s(m, fields, j + 1)
    } else if fields[j].type_spec is Optional {
        seq![j] + run_indices_s(m, fields, j + 1)
    } else {
        Seq::empty()
    }
}

/// Same as [`run_end_m`], over struct fields.
pub open spec fn run_end_s(m: Seq<(Seq<char>, ValModel)>, fields: Seq<StructField>, j: int) -> int
    decreases fields.len() - j,
{
    if j < 0 || j >= fields.len() {
        j
    } else if (match fields[j].condition {
        Some(c) => !econd_passes(m, c),
        None => false,
    }) {
        run_end_s(m, fields, j + 1)
    } else if fields[j].type_spec is Optional {
        run_end_s(m, fields, j + 1)
    } else {
        j
    }
}

/// The fixed presence bitmap built from presence flags: flag `t` sets bit
/// `t`, least-significant first.
pub open spec fn bitmap_of(flags: Seq<bool>) -> u64
    decreases flags.len(),
{
    if flags.len() == 0 {
        0
    } else if flags.last() && flags.len() - 1 < 64 {
        bitmap_of(flags.drop_last()) | (1u64 << ((flags.len() - 1) as u64))
    } else {
        bitmap_of(flags.drop_last())
    }
}

/// The presence bits of one variable-bitmap block: flag `start + t` sets bit
/// `7 - t`, for `t` below `upto`.
pub open spec fn block_bits(flags: Seq<bool>, start: int, upto: nat) -> u8
    decreases upto,
{
    if upto == 0 {
        0
    } else {
        let t = (upto - 1) as nat;
        if start + t < flags.len() && 0 <= start + t && t < 8 && flags[start + t] {
            block_bits(flags, start, t) | (1u8 << ((7 - t) as u8))
        } else {
            block_bits(flags, start, t)
        }
    }
}

/// The last index whose flag is set, or `-1`.
pub open spec fn last_flag(flags: Seq<bool>) -> int
    decreases flags.len(),
{
    if flags.len() == 0 {
        -1
    } else if flags.last() {
        flags.len() - 1
    } else {
        last_flag(flags.drop_last())
    }
}

/// The bytes of an FX-terminated presence bitmap for the given flags: as
/// many blocks of `k` presence bits as the highest present flag needs, at
/// least one, each byte carrying its presence bits from the most significant
/// bit down and an FX bit in the least significant bit.
pub open spec fn fspec_bytes_of(flags: Seq<bool>, k: nat) -> Seq<u8> {
    let lp = last_flag(flags);
    let blocks: nat = if lp == -1 {
        1
    } else {
        (((lp + 1 + k - 1) as nat) / k)
    };
    Seq::new(
        blocks,
        |b: int| if b < blocks - 1 {
            block_bits(flags, b * k, (if k < 7 { k } else { 7 })) | 1u8
        } else {
            block_bits(flags, b * k, (if k < 7 { k } else { 7 }))
        },
    )
}

/// The bytes of a fixed-width consecutive presence bitmap: `nb` bytes, flag
/// `i` at the most-significant-first bit `i`.
pub open spec fn consecutive_bytes_of(flags: Seq<bool>, nb: nat) -> Seq<u8> {
    Seq::new(nb, |b: int| block_bits(flags, b * 8, 8))
}


/// The length a value carries when it is a sequence: the item count of a
/// list, the byte count of a byte string.
pub open spec fn seq_len_of(v: ValModel) -> Option<nat> {
    match v {
        ValModel::List(l) => Some(l.len()),
        ValModel::Bytes(b) => Some(b.len()),
        _ => None,
    }
}

/// Whether a length or count prefix agrees with its referenced sequence at
/// encode time: the 32-bit value about to be written must equal the
/// referenced sequence's length. A missing or non-sequence referent carries
/// no check; other field shapes are not prefixes.
pub open spec fn prefix_len_ok(
    m: Seq<(Seq<char>, ValModel)>,
    t: TypeSpec,
    supplied: ValModel,
) -> bool {
    match t {
        TypeSpec::LengthOf(r) | TypeSpec::CountOf(r) => match map_get(m, r@) {
            Some(rv) => match seq_len_of(rv) {
                Some(len) => ((match spec_as_u64(supplied) {
                    Some(x) => x,
                    None => 0,
                }) as u32) as nat == len,
                None => true,
            },
            None => true,
        },
        _ => true,
    }
}

/// The unsigned word a base-typed value encodes as, before byte layout.
pub open spec fn base_word(bt: BaseType, v: ValModel) -> u64 {
    match bt {
        BaseType::U8 => (match spec_as_u64(v) {
            Some(x) => x,
            None => 0,
        }) as u8 as u64,
        BaseType::U16 => (match spec_as_u64(v) {
            Some(x) => x,
            None => 0,
        }) as u16 as u64,
        BaseType::U32 => (match spec_as_u64(v) {
            Some(x) => x,
            None => 0,
        }) as u32 as u64,
        BaseType::U64 => (match spec_as_u64(v) {
            Some(x) => x,
            None => 0,
        }),
        BaseType::I8 => (match spec_as_i64(v) {
            Some(x) => x,
            None => 0,
        }) as i8 as u8 as u64,
        BaseType::I16 => (match spec_as_i64(v) {
            Some(x) => x,
            None => 0,
        }) as i16 as u16 as u64,
        BaseType::I32 => (match spec_as_i64(v) {
            Some(x) => x,
            None => 0,
        }) as i32 as u32 as u64,
        BaseType::I64 => (match spec_as_i64(v) {
            Some(x) => x,
            None => 0,
        }) as u64,
        BaseType::Bool => match v {
            ValModel::Bool(b) => if b {
                1
            } else {
                0
            },
            _ => if (match spec_as_u64(v) {
                Some(x) => x,
                None => 0,
            }) != 0 {
                1
            } else {
                0
            },
        },
        BaseType::Float => match v {
            ValModel::F32Bits(b) => b as u64,
            _ => 0,
        },
        BaseType::Double => match v {
            ValModel::F64Bits(b) => b,
            _ => 0,
        },
    }
}

/// Encodes one field shape from a value, appending bytes and advancing the
/// bit cursor exactly as the byte-level codec does. Presence fields write
/// nothing here: the field loop derives and writes them.
pub open spec fn enc_type(cfg: DCfg, st: EState, t: TypeSpec, v: ValModel, fuel: nat) -> ERes
    decreases fuel, 0nat,
{
    if fuel == 0 {
        ERes::Fail(ErrKind::Validation)
    } else {
        match t {
            TypeSpec::Base(bt) => {
                if st.bw.next != 0 {
                    ERes::Fail(ErrKind::Validation)
                } else {
                    ERes::Done(
                        EState {
                            out: st.out + word_bytes(
                                base_word(bt, v),
                                spec_base_type_size(bt),
                                cfg.big,
                            ),
                            ..st
                        },
                    )
                }
            },
            TypeSpec::Padding(n) | TypeSpec::Reserved(n) => {
                if st.bw.next != 0 {
                    ERes::Fail(ErrKind::Validation)
                } else if n > usize::MAX as u64 {
                    ERes::Fail(ErrKind::Validation)
                } else {
                    ERes::Done(EState { out: st.out + Seq::new(n as nat, |i: int| 0u8), ..st })
                }
            },
            TypeSpec::Bitfield(n) => {
                if n > 64 {
                    ERes::Fail(ErrKind::Validation)
                } else {
                    ERes::Done(
                        write_bits_spec(
                            st,
                            n as nat,
                            match spec_as_u64(v) {
                                Some(x) => x,
                                None => 0,
                            },
                        ),
                    )
                }
            },
            TypeSpec::SizedInt(bt, n) => {
                if st.bw.next == 0 {
                    let size = ((n + 7) / 8) as nat;
                    if size > 8 {
                        ERes::Fail(ErrKind::Validation)
                    } else {
                        let raw: u64 = if spec_is_signed(bt) {
                            (match spec_as_i64(v) {
                                Some(x) => x,
                                None => 0,
                            }) as u64
                        } else {
                            match spec_as_u64(v) {
                                Some(x) => x,
                                None => 0,
                            }
                        };
                        let masked: u64 = if n >= 64 {
                            raw
                        } else {
                            (raw as nat % pow2(n as nat)) as u64
                        };
                        ERes::Done(
                            EState { out: st.out + word_bytes(masked, size, cfg.big), ..st },
                        )
                    }
                } else {
                    if n > 64 {
                        ERes::Fail(ErrKind::Validation)
                    } else {
                        let raw: u64 = if spec_is_signed(bt) {
                            (match spec_as_i64(v) {
                                Some(x) => x,
                                None => 0,
                            }) as u64
                        } else {
                            match spec_as_u64(v) {
                                Some(x) => x,
                                None => 0,
                            }
                        };
                        let masked: u64 = if n >= 64 {
                            raw
                        } else {
                            (raw as nat % pow2(n as nat)) as u64
                        };
                        ERes::Done(write_bits_spec(st, n as nat, masked))
                    }
                }
            },
            TypeSpec::LengthOf(_) | TypeSpec::CountOf(_) => {
                if st.bw.next != 0 {
                    ERes::Fail(ErrKind::Validation)
                } else {
                    ERes::Done(
                        EState {
                            out: st.out + word_bytes(
                                (match spec_as_u64(v) {
                                    Some(x) => x,
                                    None => 0,
                                }) as u32 as u64,
                                4,
                                cfg.big,
                            ),
                            ..st
                        },
                    )
                }
            },
            TypeSpec::PresenceBits(_) | TypeSpec::BitmapPresence { .. } => ERes::Done(st),
            TypeSpec::PaddingBits(n) => {
                if n > 64 {
                    ERes::Fail(ErrKind::Validation)
                } else {
                    ERes::Done(write_bits_spec(st, n as nat, 0))
                }
            },
            TypeSpec::StructRef(nm) => {
                if st.bw.next != 0 {
                    ERes::Fail(ErrKind::Validation)
                } else {
                    let si = find_name(
                        Seq::new(cfg.structs.len(), |k: int| cfg.structs[k].name@),
                        nm@,
                        0,
                    );
                    if si == -1 {
                        ERes::Fail(ErrKind::UnknownStruct)
                    } else {
                        let sub = match v {
                            ValModel::Struct(m2) => m2,
                            _ => Seq::empty(),
                        };
                        match enc_sfields(
                            cfg,
                            sub,
                            EState { out: st.out, bw: BitWrite { cur: 0, next: 0 } },
                            cfg.structs[si].fields@,
                            0,
                            (fuel - 1) as nat,
                        ) {
                            ERes::Done(st2) => ERes::Done(EState { out: st2.out, bw: st.bw }),
                            ERes::Fail(e) => ERes::Fail(e),
                        }
                    }
                }
            },
            TypeSpec::Array(elem, _) => {
                if st.bw.next != 0 {
                    ERes::Fail(ErrKind::Validation)
                } else {
                    let items = match v {
                        ValModel::List(l) => l,
                        _ => Seq::empty(),
                    };
                    enc_items(cfg, st, *elem, items, 0, (fuel - 1) as nat)
                }
            },
            TypeSpec::List(elem) => {
                if st.bw.next != 0 {
                    ERes::Fail(ErrKind::Validation)
                } else {
                    let items = match v {
                        ValModel::List(l) => l,
                        _ => Seq::empty(),
                    };
                    enc_items(
                        cfg,
                        EState {
                            out: st.out + word_bytes(items.len() as u32 as u64, 4, cfg.big),
                            ..st
                        },
                        *elem,
                        items,
                        0,
                        (fuel - 1) as nat,
                    )
                }
            },
            TypeSpec::RepList(elem) => {
                if st.bw.next != 0 {
                    ERes::Fail(ErrKind::Validation)
                } else {
                    let items0 = match v {
                        ValModel::List(l) => l,
                        _ => Seq::empty(),
                    };
                    let items = if items0.len() > 255 {
                        items0.take(255)
                    } else {
                        items0
                    };
                    enc_items(
                        cfg,
                        EState { out: st.out.push(items.len() as u8), ..st },
                        *elem,
                        items,
                        0,
                        (fuel - 1) as nat,
                    )
                }
            },
            TypeSpec::OctetsFx => {
                if st.bw.next != 0 {
                    ERes::Fail(ErrKind::Validation)
                } else {
                    match v {
                        ValModel::Bytes(b) => ERes::Done(EState { out: st.out + b, ..st }),
                        _ => ERes::Done(EState { out: st.out.push(0u8), ..st }),
                    }
                }
            },
            TypeSpec::Optional(elem) => {
                if st.bw.next != 0 {
                    ERes::Fail(ErrKind::Validation)
                } else {
                    let absent = v matches ValModel::List(l) && l.len() == 0;
                    if absent {
                        ERes::Done(EState { out: st.out.push(0u8), ..st })
                    } else {
                        enc_type(
                            cfg,
                            EState { out: st.out.push(1u8), ..st },
                            *elem,
                            inner_of(v),
                            (fuel - 1) as nat,
                        )
                    }
                }
            },
        }
    }
}

/// Encodes the items of a sequence from index `j` on.
pub open spec fn enc_items(
    cfg: DCfg,
    st: EState,
    elem: TypeSpec,
    items: Seq<ValModel>,
    j: nat,
    fuel: nat,
) -> ERes
    decreases fuel, items.len() - j,
{
    if j >= items.len() {
        ERes::Done(st)
    } else {
        match enc_type(cfg, st, elem, items[j as int], fuel) {
            ERes::Done(st2) => enc_items(cfg, st2, elem, items, j + 1, fuel),
            ERes::Fail(e) => ERes::Fail(e),
        }
    }
}

/// Encodes the present optionals of a presence run, in run order.
pub open spec fn enc_opt_m(
    cfg: DCfg,
    m: Seq<(Seq<char>, ValModel)>,
    st: EState,
    fields: Seq<MessageField>,
    indices: Seq<int>,
    j: nat,
    fuel: nat,
) -> ERes
    decreases fuel, indices.len() - j,
{
    if j >= indices.len() {
        ERes::Done(st)
    } else {
        let idx = indices[j as int];
        if 0 <= idx < fields.len() && opt_present(m, fields[idx].name@) {
            match enc_type(
                cfg,
                st,
                optional_elem(fields[idx].type_spec),
                inner_of(
                    match map_get(m, fields[idx].name@) {
                        Some(v) => v,
                        None => ValModel::List(Seq::empty()),
                    },
                ),
                fuel,
            ) {
                ERes::Done(st2) => enc_opt_m(cfg, m, st2, fields, indices, j + 1, fuel),
                ERes::Fail(e) => ERes::Fail(e),
            }
        } else {
            enc_opt_m(cfg, m, st, fields, indices, j + 1, fuel)
        }
    }
}

/// Same as [`enc_opt_m`], over struct fields.
pub open spec fn enc_opt_s(
    cfg: DCfg,
    m: Seq<(Seq<char>, ValModel)>,
    st: EState,
    fields: Seq<StructField>,
    indices: Seq<int>,
    j: nat,
    fuel: nat,
) -> ERes
    decreases fuel, indices.len() - j,
{
    if j >= indices.len() {
        ERes::Done(st)
    } else {
        let idx = indices[j as int];
        if 0 <= idx < fields.len() && opt_present(m, fields[idx].name@) {
            match enc_type(
                cfg,
                st,
                optional_elem(fields[idx].type_spec),
                inner_of(
                    match map_get(m, fields[idx].name@) {
                        Some(v) => v,
                        None => ValModel::List(Seq::empty()),
                    },
                ),
                fuel,
            ) {
                ERes::Done(st2) => enc_opt_s(cfg, m, st2, fields, indices, j + 1, fuel),
                ERes::Fail(e) => ERes::Fail(e),
            }
        } else {
            enc_opt_s(cfg, m, st, fields, indices, j + 1, fuel)
        }
    }
}

/// The presence flags of an optional run at encode time.
pub open spec fn run_flags_m(
    m: Seq<(Seq<char>, ValModel)>,
    fields: Seq<MessageField>,
    indices: Seq<int>,
) -> Seq<bool> {
    Seq::new(
        indices.len(),
        |j: int| 0 <= indices[j] < fields.len() && opt_present(m, fields[indices[j]].name@),
    )
}

/// Same as [`run_flags_m`], over struct fields.
pub open spec fn run_flags_s(
    m: Seq<(Seq<char>, ValModel)>,
    fields: Seq<StructField>,
    indices: Seq<int>,
) -> Seq<bool> {
    Seq::new(
        indices.len(),
        |j: int| 0 <= indices[j] < fields.len() && opt_present(m, fields[indices[j]].name@),
    )
}

/// Encodes the fields of a message body from index `i` on: conditional
/// fields whose condition fails are skipped, presence fields derive and
/// write their bitmap and then the present optionals of their run, a length
/// or count prefix that disagrees with its referenced sequence is a
/// length-mismatch error, and the scope must end byte-aligned.
pub open spec fn enc_mfields(
    cfg: DCfg,
    m: Seq<(Seq<char>, ValModel)>,
    st: EState,
    fields: Seq<MessageField>,
    i: nat,
    fuel: nat,
) -> ERes
    decreases fuel, fields.len() - i,
    via enc_mfields_dec
{
    if fuel == 0 {
        ERes::Fail(ErrKind::Validation)
    } else if i >= fields.len() {
        if st.bw.next != 0 {
            ERes::Fail(ErrKind::Validation)
        } else {
            ERes::Done(st)
        }
    } else {
        let f = fields[i as int];
        if (match f.condition {
            Some(c) => !econd_passes(m, c),
            None => false,
        }) {
            enc_mfields(cfg, m, st, fields, i + 1, fuel)
        } else if f.type_spec is PresenceBits {
            let n = match f.type_spec {
                TypeSpec::PresenceBits(n) => n,
                _ => 0,
            };
            if st.bw.next != 0 {
                ERes::Fail(ErrKind::Validation)
            } else if n != 1 && n != 2 && n != 4 {
                ERes::Fail(ErrKind::Validation)
            } else {
                let indices = run_indices_m(m, fields, i + 1 as int);
                let flags = run_flags_m(m, fields, indices);
                let st2 = EState {
                    out: st.out + word_bytes(bitmap_of(flags), n as nat, cfg.big),
                    ..st
                };
                match enc_opt_m(cfg, m, st2, fields, indices, 0, (fuel - 1) as nat) {
                    ERes::Done(st3) => enc_mfields(
                        cfg,
                        m,
                        st3,
                        fields,
                        run_end_m(m, fields, i + 1 as int) as nat,
                        fuel,
                    ),
                    ERes::Fail(e) => ERes::Fail(e),
                }
            }
        } else if f.type_spec is BitmapPresence {
            let per_block = match f.type_spec {
                TypeSpec::BitmapPresence { presence_per_block, .. } => presence_per_block,
                _ => 0,
            };
            let total_bits = match f.type_spec {
                TypeSpec::BitmapPresence { total_bits, .. } => total_bits,
                _ => 0,
            };
            if st.bw.next != 0 {
                ERes::Fail(ErrKind::Validation)
            } else {
                let indices = run_indices_m(m, fields, i + 1 as int);
                let flags = run_flags_m(m, fields, indices);
                let bytes = if per_block == 0 {
                    consecutive_bytes_of(flags, ((total_bits + 7) / 8) as nat)
                } else {
                    fspec_bytes_of(flags, per_block as nat)
                };
                let st2 = EState { out: st.out + bytes, ..st };
                match enc_opt_m(cfg, m, st2, fields, indices, 0, (fuel - 1) as nat) {
                    ERes::Done(st3) => enc_mfields(
                        cfg,
                        m,
                        st3,
                        fields,
                        run_end_m(m, fields, i + 1 as int) as nat,
                        fuel,
                    ),
                    ERes::Fail(e) => ERes::Fail(e),
                }
            }
        } else if !prefix_len_ok(m, f.type_spec, supplied(m, f.name@, f.type_spec)) {
            ERes::Fail(ErrKind::LengthMismatch)
        } else {
            match enc_type(cfg, st, f.type_spec, supplied(m, f.name@, f.type_spec), (fuel - 1) as nat) {
                ERes::Done(st2) => enc_mfields(cfg, m, st2, fields, i + 1, fuel),
                ERes::Fail(e) => ERes::Fail(e),
            }
        }
    }
}

/// Encodes the fields of a struct body from index `i` on.
pub open spec fn enc_sfields(
    cfg: DCfg,
    m: Seq<(Seq<char>, ValModel)>,
    st: EState,
    fields: Seq<StructField>,
    i: nat,
    fuel: nat,
) -> ERes
    decreases fuel, fields.len() - i,
    via enc_sfields_dec
{
    if fuel == 0 {
        ERes::Fail(ErrKind::Validation)
    } else if i >= fields.len() {
        if st.bw.next != 0 {
            ERes::Fail(ErrKind::Validation)
        } else {
            ERes::Done(st)
        }
    } else {
        let f = fields[i as int];
        if (match f.condition {
            Some(c) => !econd_passes(m, c),
            None => false,
        }) {
            enc_sfields(cfg, m, st, fields, i + 1, fuel)
        } else if f.type_spec is PresenceBits {
            let n = match f.type_spec {
                TypeSpec::PresenceBits(n) => n,
                _ => 0,
            };
            if st.bw.next != 0 {
                ERes::Fail(ErrKind::Validation)
            } else if n != 1 && n != 2 && n != 4 {
                ERes::Fail(ErrKind::Validation)
            } else {
                let indices = run_indices_s(m, fields, i + 1 as int);
                let flags = run_flags_s(m, fields, indices);
                let st2 = EState {
                    out: st.out + word_bytes(bitmap_of(flags), n as nat, cfg.big),
                    ..st
                };
                match enc_opt_s(cfg, m, st2, fields, indices, 0, (fuel - 1) as nat) {
                    ERes::Done(st3) => enc_sfields(
                        cfg,
                        m,
                        st3,
                        fields,
                        run_end_s(m, fields, i + 1 as int) as nat,
                        fuel,
                    ),
                    ERes::Fail(e) => ERes::Fail(e),
                }
            }
        } else if f.type_spec is BitmapPresence {
            let per_block = match f.type_spec {
                TypeSpec::BitmapPresence { presence_per_block, .. } => presence_per_block,
                _ => 0,
            };
            let total_bits = match f.type_spec {
                TypeSpec::BitmapPresence { total_bits, .. } => total_bits,
                _ => 0,
            };
            if st.bw.next != 0 {
                ERes::Fail(ErrKind::Validation)
            } else {
                let indices = run_indices_s(m, fields, i + 1 as int);
                let flags = run_flags_s(m, fields, indices);
                let bytes = if per_block == 0 {
                    consecutive_bytes_of(flags, ((total_bits + 7) / 8) as nat)
                } else {
                    fspec_bytes_of(flags, per_block as nat)
                };
                let st2 = EState { out: st.out + bytes, ..st };
                match enc_opt_s(cfg, m, st2, fields, indices, 0, (fuel - 1) as nat) {
                    ERes::Done(st3) => enc_sfields(
                        cfg,
                        m,
                        st3,
                        fields,
                        run_end_s(m, fields, i + 1 as int) as nat,
                        fuel,
                    ),
                    ERes::Fail(e) => ERes::Fail(e),
                }
            }
        } else if !prefix_len_ok(m, f.type_spec, supplied(m, f.name@, f.type_spec)) {
            ERes::Fail(ErrKind::LengthMismatch)
        } else {
            match enc_type(cfg, st, f.type_spec, supplied(m, f.name@, f.type_spec), (fuel - 1) as nat) {
                ERes::Done(st2) => enc_sfields(cfg, m, st2, fields, i + 1, fuel),
                ERes::Fail(e) => ERes::Fail(e),
            }
        }
    }
}


proof fn lemma_run_end_m_bounds(m: Seq<(Seq<char>, ValModel)>, fields: Seq<MessageField>, j: int)
    ensures
        run_end_m(m, fields, j) >= j,
        j <= fields.len() ==> run_end_m(m, fields, j) <= fields.len(),
    decreases fields.len() - j,
{
    if 0 <= j < fields.len() {
        lemma_run_end_m_bounds(m, fields, j + 1);
    }
}

proof fn lemma_run_end_s_bounds(m: Seq<(Seq<char>, ValModel)>, fields: Seq<StructField>, j: int)
    ensures
        run_end_s(m, fields, j) >= j,
        j <= fields.len() ==> run_end_s(m, fields, j) <= fields.len(),
    decreases fields.len() - j,
{
    if 0 <= j < fields.len() {
        lemma_run_end_s_bounds(m, fields, j + 1);
    }
}

#[via_fn]
proof fn enc_mfields_dec(
    cfg: DCfg,
    m: Seq<(Seq<char>, ValModel)>,
    st: EState,
    fields: Seq<MessageField>,
    i: nat,
    fuel: nat,
) {
    lemma_run_end_m_bounds(m, fields, i + 1 as int);
}

#[via_fn]
proof fn enc_sfields_dec(
    cfg: DCfg,
    m: Seq<(Seq<char>, ValModel)>,
    st: EState,
    fields: Seq<StructField>,
    i: nat,
    fuel: nat,
) {
    lemma_run_end_s_bounds(m, fields, i + 1 as int);
}

/// Outcome of encoding one whole message.
pub ghost enum EMsgRes {
    Done(Seq<u8>),
    Fail(ErrKind),
}

/// Encodes one whole message from a value map: the named message's fields
/// from a fresh scope; presence fields are derived from the map, never taken
/// from it.
pub open spec fn enc_message(
    p: Protocol,
    big: bool,
    m: Seq<(Seq<char>, ValModel)>,
    name: Seq<char>,
    fuel: nat,
) -> EMsgRes {
    let mi = find_name(message_names(p), name, 0);
    if mi == -1 {
        EMsgRes::Fail(ErrKind::UnknownStruct)
    } else {
        let cfg = DCfg { structs: p.structs@, big };
        match enc_mfields(
            cfg,
            m,
            EState { out: Seq::empty(), bw: BitWrite { cur: 0, next: 0 } },
            p.messages@[mi].fields@,
            0,
            fuel,
        ) {
            ERes::Done(st) => EMsgRes::Done(st.out),
            ERes::Fail(e) => EMsgRes::Fail(e),
        }
    }
}

/// The integer sequence a vector of collected indices stands for.
pub open spec fn usq(v: Seq<usize>) -> Seq<int> {
    Seq::new(v.len(), |t: int| v[t] as int)
}

/// Executable encoder: the bytes written so far, plus the bit cursor.
struct Encoder<'a> {
    out: Vec<u8>,
    resolved: &'a ResolvedProtocol,
    big: bool,
    wcur: u8,
    wnext: u8,
}

impl<'a> Encoder<'a> {
    /// The encoder's state, as the specification interpreter sees it.
    spec fn estate(&self) -> EState {
        EState { out: self.out@, bw: BitWrite { cur: self.wcur, next: self.wnext } }
    }

    /// The encoder's configuration.
    spec fn cfg(&self) -> DCfg {
        DCfg { structs: self.resolved.protocol.structs@, big: self.big }
    }

    /// What an encode step leaves untouched.
    spec fn frame(&self, other: &Self) -> bool {
        self.resolved == other.resolved && self.big == other.big
    }

    /// Appends `n` bits of `value`, least-significant first.
    fn write_bits_i(&mut self, n: u64, value: u64)
        requires
            old(self).wnext <= 7,
        ensures
            final(self).wnext <= 7,
            final(self).frame(old(self)),
            final(self).estate() == write_bits_spec(old(self).estate(), n as nat, value),
    {
        let ghost spec0 = write_bits_spec(self.estate(), n as nat, value);
        let mut val = value;
        let mut k: u64 = 0;
        while k < n
            invariant
                k <= n,
                self.wnext <= 7,
                self.resolved == old(self).resolved,
                self.big == old(self).big,
                spec0 == write_bits_spec(old(self).estate(), n as nat, value),
                spec0 == write_bits_spec(self.estate(), (n - k) as nat, val),
            decreases n - k,
        {
            let bit = val & 1;
            if bit != 0 && self.wnext < 8 {
                self.wcur = self.wcur | (1u8 << self.wnext);
            }
            self.wnext = self.wnext + 1;
            if self.wnext == 8 {
                self.out.push(self.wcur);
                self.wcur = 0;
                self.wnext = 0;
            }
            val = val >> 1u64;
            k = k + 1;
        }
    }

    /// Appends `n` zero bytes.
    fn write_zeros(&mut self, n: usize)
        ensures
            final(self).wnext == old(self).wnext,
            final(self).wcur == old(self).wcur,
            final(self).frame(old(self)),
            final(self).out@ == old(self).out@ + Seq::new(n as nat, |i: int| 0u8),
    {
        let mut j: usize = 0;
        proof {
            assert(self.out@ =~= old(self).out@ + Seq::new(0, |i: int| 0u8));
        }
        while j < n
            invariant
                j <= n,
                self.wnext == old(self).wnext,
                self.wcur == old(self).wcur,
                self.resolved == old(self).resolved,
                self.big == old(self).big,
                self.out@ == old(self).out@ + Seq::new(j as nat, |i: int| 0u8),
            decreases n - j,
        {
            proof {
                assert(old(self).out@ + Seq::new((j + 1) as nat, |i: int| 0u8) =~= (old(self).out@
                    + Seq::new(j as nat, |i: int| 0u8)).push(0u8));
            }
            self.out.push(0u8);
            j = j + 1;
        }
    }

    /// Appends a run of already-encoded bytes.
    fn write_bytes(&mut self, b: &Vec<u8>)
        ensures
            final(self).wnext == old(self).wnext,
            final(self).wcur == old(self).wcur,
            final(self).frame(old(self)),
            final(self).out@ == old(self).out@ + b@,
    {
        let mut j: usize = 0;
        proof {
            assert(self.out@ =~= old(self).out@ + b@.take(0));
        }
        while j < b.len()
            invariant
                j <= b@.len(),
                self.wnext == old(self).wnext,
                self.wcur == old(self).wcur,
                self.resolved == old(self).resolved,
                self.big == old(self).big,
                self.out@ == old(self).out@ + b@.take(j as int),
            decreases b@.len() - j,
        {
            proof {
                assert(old(self).out@ + b@.take(j + 1) =~= (old(self).out@ + b@.take(
                    j as int,
                )).push(b@[j as int]));
            }
            self.out.push(b[j]);
            j = j + 1;
        }
        proof {
            assert(b@.take(b@.len() as int) =~= b@);
        }
    }
}

/// The unsigned word a base-typed value encodes as.
fn base_word_exec(bt: &BaseType, v: &Value) -> (r: u64)
    ensures
        r == base_word(*bt, v@),
{
    match bt {
        BaseType::U8 => (match v.as_u64() {
            Some(x) => x,
            None => 0,
        }) as u8 as u64,
        BaseType::U16 => (match v.as_u64() {
            Some(x) => x,
            None => 0,
        }) as u16 as u64,
        BaseType::U32 => (match v.as_u64() {
            Some(x) => x,
            None => 0,
        }) as u32 as u64,
        BaseType::U64 => (match v.as_u64() {
            Some(x) => x,
            None => 0,
        }),
        BaseType::I8 => (match v.as_i64() {
            Some(x) => x,
            None => 0,
        }) as i8 as u8 as u64,
        BaseType::I16 => (match v.as_i64() {
            Some(x) => x,
            None => 0,
        }) as i16 as u16 as u64,
        BaseType::I32 => (match v.as_i64() {
            Some(x) => x,
            None => 0,
        }) as i32 as u32 as u64,
        BaseType::I64 => (match v.as_i64() {
            Some(x) => x,
            None => 0,
        }) as u64,
        BaseType::Bool => match v {
            Value::Bool(b) => if *b {
                1
            } else {
                0
            },
            _ => if (match v.as_u64() {
                Some(x) => x,
                None => 0,
            }) != 0 {
                1
            } else {
                0
            },
        },
        BaseType::Float => match v {
            Value::F32Bits(b) => *b as u64,
            _ => 0,
        },
        BaseType::Double => match v {
            Value::F64Bits(b) => *b,
            _ => 0,
        },
    }
}

/// Whether an Optional field counts as present at encode time.
fn opt_present_exec(m: &ValueMap, name: &str) -> (r: bool)
    ensures
        r == opt_present(m@, name@),
{
    match m.get(name) {
        Some(v) => match v {
            Value::List(l) => l.len() != 0,
            _ => true,
        },
        None => false,
    }
}

/// The default value supplied for a missing field at encode time.
fn default_exec(t: &TypeSpec) -> (r: Value)
    ensures
        r@ == default_model(*t),
{
    match t {
        TypeSpec::Base(BaseType::Bool) => Value::Bool(false),
        TypeSpec::Base(BaseType::Float) => Value::F32Bits(0),
        TypeSpec::Base(BaseType::Double) => Value::F64Bits(0),
        TypeSpec::Base(_) => Value::U64(0),
        TypeSpec::Padding(_) | TypeSpec::Reserved(_) | TypeSpec::PaddingBits(_) => Value::Padding,
        TypeSpec::List(_) => {
            let r = Value::List(Vec::new());
            proof {
                assert(r@ matches ValModel::List(l) && l =~= Seq::<ValModel>::empty());
            }
            r
        },
        TypeSpec::StructRef(_) => {
            let r = Value::Struct(ValueMap::new());
            proof {
                assert(r@ matches ValModel::Struct(l) && l =~= Seq::<(Seq<char>, ValModel)>::empty());
            }
            r
        },
        TypeSpec::PresenceBits(_) | TypeSpec::BitmapPresence { .. } => {
            let r = Value::Bytes(Vec::new());
            proof {
                assert(r@ matches ValModel::Bytes(l) && l =~= Seq::<u8>::empty());
            }
            r
        },
        _ => Value::U64(0),
    }
}


/// Checks a length or count prefix against its referenced sequence, as the
/// encode model demands; the error names the field and carries both numbers.
fn prefix_check(m: &ValueMap, f_name: &str, t: &TypeSpec) -> (r: Result<(), CodecError>)
    ensures
        match r {
            Ok(()) => prefix_len_ok(m@, *t, supplied(m@, f_name@, *t)),
            Err(e) => !prefix_len_ok(m@, *t, supplied(m@, f_name@, *t)) && e@
                == ErrKind::LengthMismatch,
        },
{
    let rname: &String = match t {
        TypeSpec::LengthOf(r) => r,
        TypeSpec::CountOf(r) => r,
        _ => {
            return Ok(());
        },
    };
    let supplied_u: u64 = match m.get(f_name) {
        Some(v) => match v.as_u64() {
            Some(x) => x,
            None => 0,
        },
        None => 0,
    };
    let w: u32 = #[verifier::truncate] (supplied_u as u32);
    let len: usize = match m.get(rname.as_str()) {
        Some(v) => match v {
            Value::List(l) => {
                proof {
                    lemma_list_model_index(l@);
                }
                l.len()
            },
            Value::Bytes(b) => b.len(),
            _ => {
                return Ok(());
            },
        },
        None => {
            return Ok(());
        },
    };
    if (w as u64) == (len as u64) {
        Ok(())
    } else {
        let msg = String::from_str("field ").concat(f_name).concat(": prefix ").concat(
            crate::value::u64_to_string(w as u64).as_str(),
        ).concat(" disagrees with sequence length ").concat(
            crate::value::u64_to_string(len as u64).as_str(),
        );
        Err(CodecError::LengthMismatch(msg))
    }
}

/// The fixed presence bitmap built from presence flags.
fn bitmap_of_exec(flags: &Vec<bool>) -> (r: u64)
    ensures
        r == bitmap_of(flags@),
{
    let mut bm: u64 = 0;
    let mut t: usize = 0;
    proof {
        assert(flags@.take(0) =~= Seq::<bool>::empty());
    }
    while t < flags.len()
        invariant
            t <= flags@.len(),
            bm == bitmap_of(flags@.take(t as int)),
        decreases flags@.len() - t,
    {
        proof {
            assert(flags@.take(t + 1).drop_last() =~= flags@.take(t as int));
            assert(flags@.take(t + 1).last() == flags@[t as int]);
        }
        let ghost pre = flags@.take(t as int);
        let ghost post = flags@.take(t + 1);
        if flags[t] && t < 64 {
            bm = bm | (1u64 << (t as u64));
        }
        proof {
            assert(post.drop_last() =~= pre);
            assert(post.len() - 1 == t);
            assert(post.last() == flags@[t as int]);
        }
        t = t + 1;
    }
    proof {
        assert(flags@.take(flags@.len() as int) =~= flags@);
    }
    bm
}

/// The presence bits of one variable-bitmap block.
fn block_bits_exec(flags: &Vec<bool>, start: usize, upto: usize) -> (r: u8)
    requires
        upto <= 8,
    ensures
        r == block_bits(flags@, start as int, upto as nat),
{
    let fl = flags.len();
    let mut byte: u8 = 0;
    let mut t: usize = 0;
    while t < upto
        invariant
            t <= upto <= 8,
            fl == flags@.len(),
            byte == block_bits(flags@, start as int, t as nat),
        decreases upto - t,
    {
        let guard = start <= usize::MAX - t && start + t < flags.len() && flags[start + t];
        if guard {
            byte = byte | (1u8 << ((7 - t) as u8));
        }
        proof {
            assert(block_bits(flags@, start as int, (t + 1) as nat) == (if start + t
                < flags@.len() && 0 <= start + t && t < 8 && flags@[start + t] {
                block_bits(flags@, start as int, t as nat) | (1u8 << ((7 - t) as u8))
            } else {
                block_bits(flags@, start as int, t as nat)
            }));
            assert(guard == (start + t < flags@.len() && 0 <= start + t && t < 8 && flags@[start
                + t]));
            assert(byte == block_bits(flags@, start as int, (t + 1) as nat));
        }
        t = t + 1;
    }
    byte
}

/// The last index whose flag is set, or none.
fn last_flag_exec(flags: &Vec<bool>) -> (r: Option<usize>)
    ensures
        match r {
            Some(i) => last_flag(flags@) == i,
            None => last_flag(flags@) == -1,
        },
{
    let n = flags.len();
    let mut i: usize = n;
    proof {
        assert(flags@.take(n as int) =~= flags@);
    }
    loop
        invariant
            i <= n,
            n == flags@.len(),
            last_flag(flags@) == last_flag(flags@.take(i as int)),
        decreases i,
    {
        if i == 0 {
            assert(flags@.take(0) =~= Seq::<bool>::empty());
            return None;
        }
        i = i - 1;
        proof {
            assert(flags@.take(i + 1).drop_last() =~= flags@.take(i as int));
            assert(flags@.take(i + 1).last() == flags@[i as int]);
        }
        if flags[i] {
            return Some(i);
        }
    }
}

impl<'a> Encoder<'a> {
    /// Encodes one field shape from a value.
    #[verifier::rlimit(100)]
    fn enc_type_i(&mut self, t: &TypeSpec, v: &Value, depth: u32) -> (r: Result<(), CodecError>)
        requires
            old(self).wnext <= 7,
        ensures
            final(self).wnext <= 7,
            final(self).frame(old(self)),
            match r {
                Ok(()) => enc_type(
                    old(self).cfg(),
                    old(self).estate(),
                    *t,
                    v@,
                    depth as nat,
                ) == ERes::Done(final(self).estate()),
                Err(e) => enc_type(old(self).cfg(), old(self).estate(), *t, v@, depth as nat)
                    == ERes::Fail(e@),
            },
        decreases depth, 0nat,
    {
        if depth == 0 {
            return Err(CodecError::Validation(String::from_str("structure nested too deeply")));
        }
        match t {
            TypeSpec::Base(bt) => {
                if self.wnext != 0 {
                    return Err(CodecError::Validation(String::from_str(
                        "bitfield/padding_bits not byte-aligned (missing padding_bits?)",
                    )));
                }
                let w = base_word_exec(bt, v);
                let size = base_type_size(bt);
                write_word(&mut self.out, w, size, self.big);
                Ok(())
            },
            TypeSpec::Padding(n) | TypeSpec::Reserved(n) => {
                if self.wnext != 0 {
                    return Err(CodecError::Validation(String::from_str(
                        "bitfield/padding_bits not byte-aligned (missing padding_bits?)",
                    )));
                }
                if *n > usize::MAX as u64 {
                    return Err(CodecError::Validation(String::from_str(
                        "padding wider than the address space",
                    )));
                }
                self.write_zeros(*n as usize);
                Ok(())
            },
            TypeSpec::Bitfield(n) => {
                if *n > 64 {
                    return Err(CodecError::Validation(String::from_str(
                        "bitfield: too many bits (max 64)",
                    )));
                }
                let w = match v.as_u64() {
                    Some(x) => x,
                    None => 0,
                };
                self.write_bits_i(*n, w);
                Ok(())
            },
            TypeSpec::SizedInt(bt, n) => {
                let signed = matches!(
                    bt,
                    BaseType::I8 | BaseType::I16 | BaseType::I32 | BaseType::I64,
                );
                let raw: u64 = if signed {
                    (match v.as_i64() {
                        Some(x) => x,
                        None => 0,
                    }) as u64
                } else {
                    match v.as_u64() {
                        Some(x) => x,
                        None => 0,
                    }
                };
                let masked: u64 = if *n >= 64 {
                    raw
                } else {
                    proof {
                        lemma_pow2_pos(*n as nat);
                    }
                    raw % crate::walk::pow2_u64(*n)
                };
                if self.wnext == 0 {
                    let size64 = crate::walk::bits_to_bytes(*n);
                    if size64 > 8 {
                        return Err(CodecError::Validation(String::from_str(
                            "sized integer wider than 64 bits",
                        )));
                    }
                    write_word(&mut self.out, masked, size64 as usize, self.big);
                    Ok(())
                } else {
                    if *n > 64 {
                        return Err(CodecError::Validation(String::from_str(
                            "bitfield: too many bits (max 64)",
                        )));
                    }
                    self.write_bits_i(*n, masked);
                    Ok(())
                }
            },
            TypeSpec::LengthOf(_) | TypeSpec::CountOf(_) => {
                if self.wnext != 0 {
                    return Err(CodecError::Validation(String::from_str(
                        "bitfield/padding_bits not byte-aligned (missing padding_bits?)",
                    )));
                }
                let w = match v.as_u64() {
                    Some(x) => x,
                    None => 0,
                };
                write_word(&mut self.out, #[verifier::truncate] (w as u32) as u64, 4, self.big);
                Ok(())
            },
            TypeSpec::PresenceBits(_) | TypeSpec::BitmapPresence { .. } => Ok(()),
            TypeSpec::PaddingBits(n) => {
                if *n > 64 {
                    return Err(CodecError::Validation(String::from_str(
                        "bitfield: too many bits (max 64)",
                    )));
                }
                self.write_bits_i(*n, 0);
                Ok(())
            },
            TypeSpec::StructRef(nm) => {
                if self.wnext != 0 {
                    return Err(CodecError::Validation(String::from_str(
                        "bitfield/padding_bits not byte-aligned (missing padding_bits?)",
                    )));
                }
                let resolved = self.resolved;
                let st = match resolved.get_struct(nm.as_str()) {
                    Some(st) => st,
                    None => {
                        proof {
                            assert(struct_names(resolved.protocol) =~= Seq::new(
                                self.cfg().structs.len(),
                                |k: int| self.cfg().structs[k].name@,
                            ));
                        }
                        return Err(
                            CodecError::UnknownStruct(crate::walk::clone_str_ref(nm.as_str())),
                        );
                    },
                };
                proof {
                    assert(struct_names(resolved.protocol) =~= Seq::new(
                        self.cfg().structs.len(),
                        |k: int| self.cfg().structs[k].name@,
                    ));
                }
                let empty_map = ValueMap::new();
                let sub: &ValueMap = match v {
                    Value::Struct(m2) => m2,
                    _ => &empty_map,
                };
                let saved_cur = self.wcur;
                let saved_next = self.wnext;
                self.wcur = 0;
                self.wnext = 0;
                let res = self.enc_sfields_i(sub, &st.fields, depth - 1);
                self.wcur = saved_cur;
                self.wnext = saved_next;
                res
            },
            TypeSpec::Array(elem, _) => {
                if self.wnext != 0 {
                    return Err(CodecError::Validation(String::from_str(
                        "bitfield/padding_bits not byte-aligned (missing padding_bits?)",
                    )));
                }
                let empty_vec: Vec<Value> = Vec::new();
                let items: &Vec<Value> = match v {
                    Value::List(l) => l,
                    _ => &empty_vec,
                };
                proof {
                    if !(v@ is List) {
                        assert(list_model(items@) =~= Seq::<ValModel>::empty());
                    }
                }
                self.enc_items_i(elem, items, 0, depth - 1)
            },
            TypeSpec::List(elem) => {
                if self.wnext != 0 {
                    return Err(CodecError::Validation(String::from_str(
                        "bitfield/padding_bits not byte-aligned (missing padding_bits?)",
                    )));
                }
                let empty_vec: Vec<Value> = Vec::new();
                let items: &Vec<Value> = match v {
                    Value::List(l) => l,
                    _ => &empty_vec,
                };
                proof {
                    lemma_list_model_index(items@);
                    if !(v@ is List) {
                        assert(list_model(items@) =~= Seq::<ValModel>::empty());
                    }
                }
                write_word(
                    &mut self.out,
                    #[verifier::truncate] (items.len() as u32) as u64,
                    4,
                    self.big,
                );
                self.enc_items_i(elem, items, 0, depth - 1)
            },
            TypeSpec::RepList(elem) => {
                if self.wnext != 0 {
                    return Err(CodecError::Validation(String::from_str(
                        "bitfield/padding_bits not byte-aligned (missing padding_bits?)",
                    )));
                }
                let empty_vec: Vec<Value> = Vec::new();
                let items: &Vec<Value> = match v {
                    Value::List(l) => l,
                    _ => &empty_vec,
                };
                proof {
                    lemma_list_model_index(items@);
                    if !(v@ is List) {
                        assert(list_model(items@) =~= Seq::<ValModel>::empty());
                    }
                }
                let k: usize = if items.len() > 255 {
                    255
                } else {
                    items.len()
                };
                proof {
                    let spec_items0 = match v@ {
                        ValModel::List(l) => l,
                        _ => Seq::<ValModel>::empty(),
                    };
                    let spec_items = if spec_items0.len() > 255 {
                        spec_items0.take(255)
                    } else {
                        spec_items0
                    };
                    assert(spec_items =~= list_model(items@).take(k as int));
                    assert(list_model(items@).take(k as int) =~= list_model(items@.take(
                        k as int,
                    ))) by {
                        lemma_list_model_index(items@.take(k as int));
                    }
                }
                self.out.push(k as u8);
                let taken = take_prefix(items, k);
                self.enc_items_i(elem, &taken, 0, depth - 1)
            },
            TypeSpec::OctetsFx => {
                if self.wnext != 0 {
                    return Err(CodecError::Validation(String::from_str(
                        "bitfield/padding_bits not byte-aligned (missing padding_bits?)",
                    )));
                }
                match v {
                    Value::Bytes(b) => {
                        self.write_bytes(b);
                        Ok(())
                    },
                    _ => {
                        self.out.push(0u8);
                        Ok(())
                    },
                }
            },
            TypeSpec::Optional(elem) => {
                if self.wnext != 0 {
                    return Err(CodecError::Validation(String::from_str(
                        "bitfield/padding_bits not byte-aligned (missing padding_bits?)",
                    )));
                }
                let absent = match v {
                    Value::List(l) => l.len() == 0,
                    _ => false,
                };
                if absent {
                    self.out.push(0u8);
                    Ok(())
                } else {
                    self.out.push(1u8);
                    let inner: &Value = match v {
                        Value::List(l) => {
                            if l.len() > 0 {
                                proof {
                                    lemma_list_model_index(l@);
                                }
                                &l[0]
                            } else {
                                v
                            }
                        },
                        _ => v,
                    };
                    self.enc_type_i(elem, inner, depth - 1)
                }
            },
        }
    }

    /// Encodes the items of a sequence in order.
    fn enc_items_i(&mut self, elem: &TypeSpec, items: &Vec<Value>, from: usize, depth: u32) -> (r:
        Result<(), CodecError>)
        requires
            old(self).wnext <= 7,
            from <= items@.len(),
        ensures
            final(self).wnext <= 7,
            final(self).frame(old(self)),
            match r {
                Ok(()) => enc_items(
                    old(self).cfg(),
                    old(self).estate(),
                    *elem,
                    list_model(items@),
                    from as nat,
                    depth as nat,
                ) == ERes::Done(final(self).estate()),
                Err(e) => enc_items(
                    old(self).cfg(),
                    old(self).estate(),
                    *elem,
                    list_model(items@),
                    from as nat,
                    depth as nat,
                ) == ERes::Fail(e@),
            },
        decreases depth, 1nat,
    {
        let ghost spec0 = enc_items(
            self.cfg(),
            self.estate(),
            *elem,
            list_model(items@),
            from as nat,
            depth as nat,
        );
        proof {
            lemma_list_model_index(items@);
        }
        let n = items.len();
        let mut j: usize = from;
        while j < n
            invariant
                from <= j <= n,
                n == items@.len(),
                self.wnext <= 7,
                self.resolved == old(self).resolved,
                self.big == old(self).big,
                spec0 == enc_items(
                    old(self).cfg(),
                    old(self).estate(),
                    *elem,
                    list_model(items@),
                    from as nat,
                    depth as nat,
                ),
                spec0 == enc_items(
                    self.cfg(),
                    self.estate(),
                    *elem,
                    list_model(items@),
                    j as nat,
                    depth as nat,
                ),
            decreases n - j,
        {
            proof {
                lemma_list_model_index(items@);
            }
            match self.enc_type_i(elem, &items[j], depth) {
                Ok(()) => {},
                Err(e) => {
                    return Err(e);
                },
            }
            j = j + 1;
        }
        Ok(())
    }
}

/// Copies the first `k` items of a list of values.
fn take_prefix(items: &Vec<Value>, k: usize) -> (r: Vec<Value>)
    requires
        k <= items@.len(),
    ensures
        list_model(r@) == list_model(items@.take(k as int)),
        r@.len() == k,
{
    let mut out: Vec<Value> = Vec::new();
    let mut i: usize = 0;
    proof {
        lemma_list_model_index(items@);
        assert(out@ =~= items@.take(0).map_values(|x: Value| x));
        lemma_list_model_index(out@);
        lemma_list_model_index(items@.take(0));
        assert(list_model(out@) =~= list_model(items@.take(0)));
    }
    while i < k
        invariant
            i <= k <= items@.len(),
            out@.len() == i,
            list_model(out@) == list_model(items@.take(i as int)),
        decreases k - i,
    {
        let c = copy_value(&items[i]);
        proof {
            crate::value::lemma_list_model_push(out@, c);
            lemma_list_model_index(items@);
            lemma_list_model_index(items@.take(i as int));
            lemma_list_model_index(items@.take(i + 1));
            assert(list_model(out@.push(c)) =~= list_model(items@.take(i + 1)));
        }
        out.push(c);
        i = i + 1;
    }
    out
}

/// Deep-copies a value.
fn copy_value(v: &Value) -> (r: Value)
    ensures
        r@ == v@,
    decreases v,
{
    match v {
        Value::U8(x) => Value::U8(*x),
        Value::U16(x) => Value::U16(*x),
        Value::U32(x) => Value::U32(*x),
        Value::U64(x) => Value::U64(*x),
        Value::I8(x) => Value::I8(*x),
        Value::I16(x) => Value::I16(*x),
        Value::I32(x) => Value::I32(*x),
        Value::I64(x) => Value::I64(*x),
        Value::Bool(x) => Value::Bool(*x),
        Value::F32Bits(x) => Value::F32Bits(*x),
        Value::F64Bits(x) => Value::F64Bits(*x),
        Value::Bytes(b) => Value::Bytes(copy_bytes(b)),
        Value::Struct(m) => {
            let mut entries: Vec<(String, Value)> = Vec::new();
            let n = m.entries.len();
            let mut i: usize = 0;
            proof {
                lemma_entries_model_index(m.entries@);
                lemma_entries_model_index(entries@);
                assert(entries_model(entries@) =~= entries_model(m.entries@).take(0));
            }
            while i < n
                invariant
                    i <= n,
                    n == m.entries@.len(),
                    (*v) matches Value::Struct(mm) && mm == *m,
                    entries@.len() == i,
                    entries_model(entries@) == entries_model(m.entries@).take(i as int),
                decreases n - i,
            {
                proof {
                    assert((*v)->Struct_0 == *m);
                    assert(decreases_to!(*v => (*v)->Struct_0));
                    assert(decreases_to!(*m => m.entries));
                    assert(decreases_to!(m.entries => m.entries@));
                    assert(decreases_to!(m.entries@ => m.entries@[i as int]));
                    assert(decreases_to!(m.entries@[i as int] => m.entries@[i as int].1));
                    assert(decreases_to!(*v => m.entries@[i as int].1));
                }
                let key = crate::walk::clone_str_ref(m.entries[i].0.as_str());
                let val = copy_value(&m.entries[i].1);
                proof {
                    lemma_entries_model_push(entries@, (key, val));
                    lemma_entries_model_index(m.entries@);
                    assert(entries_model(entries@).push((key@, val@)) =~= entries_model(
                        m.entries@,
                    ).take(i + 1));
                }
                entries.push((key, val));
                i = i + 1;
            }
            proof {
                assert(entries_model(m.entries@).take(n as int) =~= entries_model(m.entries@));
            }
            Value::Struct(ValueMap { entries })
        },
        Value::List(items) => {
            let mut out: Vec<Value> = Vec::new();
            let n = items.len();
            let mut i: usize = 0;
            proof {
                lemma_list_model_index(items@);
                lemma_list_model_index(out@);
                assert(list_model(out@) =~= list_model(items@).take(0));
            }
            while i < n
                invariant
                    i <= n,
                    n == items@.len(),
                    (*v) matches Value::List(ll) && ll == *items,
                    out@.len() == i,
                    list_model(out@) == list_model(items@).take(i as int),
                decreases n - i,
            {
                proof {
                    assert((*v)->List_0 == *items);
                    assert(decreases_to!(*v => (*v)->List_0));
                    assert(decreases_to!(items => items@));
                    assert(decreases_to!(items@ => items@[i as int]));
                    assert(decreases_to!(*v => items@[i as int]));
                }
                let c = copy_value(&items[i]);
                proof {
                    crate::value::lemma_list_model_push(out@, c);
                    lemma_list_model_index(items@);
                    assert(list_model(out@).push(c@) =~= list_model(items@).take(i + 1));
                }
                out.push(c);
                i = i + 1;
            }
            proof {
                assert(list_model(items@).take(n as int) =~= list_model(items@));
            }
            Value::List(out)
        },
        Value::Padding => Value::Padding,
        Value::Reserved => Value::Reserved,
    }
}

proof fn lemma_block_bits_oob(flags: Seq<bool>, start: int, upto: nat)
    requires
        start >= flags.len(),
    ensures
        block_bits(flags, start, upto) == 0,
    decreases upto,
{
    if upto > 0 {
        lemma_block_bits_oob(flags, start, (upto - 1) as nat);
    }
}

/// Whether a conditional field participates at encode time.
fn econd_check(m: &ValueMap, c: &Condition) -> (r: bool)
    ensures
        r == econd_passes(m@, *c),
{
    let cv: Option<i64> = match m.get(c.field.as_str()) {
        Some(v) => v.as_i64(),
        None => None,
    };
    let exp = c.value.as_i64();
    match (cv, exp) {
        (Some(a), Some(b)) => a == b,
        (None, None) => true,
        _ => false,
    }
}

impl<'a> Encoder<'a> {
    /// Writes the derived presence bytes of one optional run, then the
    /// present optionals themselves, for a message scope.
    fn enc_presence_run_m(
        &mut self,
        m: &ValueMap,
        fields: &Vec<MessageField>,
        i: usize,
        depth: u32,
    ) -> (r: Result<usize, CodecError>)
        requires
            old(self).wnext <= 7,
            i < fields@.len(),
            depth >= 1,
            is_presence_run_field(fields@[i as int]),
        ensures
            final(self).wnext <= 7,
            final(self).frame(old(self)),
            ({
                let f = fields@[i as int];
                let indices = run_indices_m(m@, fields@, i + 1 as int);
                let flags = run_flags_m(m@, fields@, indices);
                match r {
                    Ok(j2) => {
                        &&& i < j2 <= fields@.len()
                        &&& j2 == run_end_m(m@, fields@, i + 1 as int)
                        &&& presence_run_ok_m(f)
                        &&& enc_opt_m(
                            old(self).cfg(),
                            m@,
                            EState {
                                out: old(self).estate().out + presence_bytes_m(
                                    old(self).cfg(),
                                    f,
                                    flags,
                                ),
                                bw: old(self).estate().bw,
                            },
                            fields@,
                            indices,
                            0,
                            (depth - 1) as nat,
                        ) == ERes::Done(final(self).estate())
                    },
                    Err(e) => {
                        if !presence_run_ok_m(f) {
                            e@ == ErrKind::Validation
                        } else {
                            enc_opt_m(
                                old(self).cfg(),
                                m@,
                                EState {
                                    out: old(self).estate().out + presence_bytes_m(
                                        old(self).cfg(),
                                        f,
                                        flags,
                                    ),
                                    bw: old(self).estate().bw,
                                },
                                fields@,
                                indices,
                                0,
                                (depth - 1) as nat,
                            ) == ERes::Fail(e@)
                        }
                    },
                }
            }),
        decreases depth, 2nat,
    {
        let n = fields.len();
        let mut collected: Vec<usize> = Vec::new();
        let mut j: usize = i + 1;
        let mut stop = false;
        proof {
            assert(usq(collected@) + run_indices_m(m@, fields@, j as int) =~= run_indices_m(
                m@,
                fields@,
                i + 1 as int,
            ));
        }
        while j < n && !stop
            invariant
                i + 1 <= j <= n,
                n == fields@.len(),
                forall|t: int| 0 <= t < collected@.len() ==> (#[trigger] collected@[t]) < n,
                run_indices_m(m@, fields@, i + 1 as int) == usq(collected@) + run_indices_m(
                    m@,
                    fields@,
                    j as int,
                ),
                run_end_m(m@, fields@, i + 1 as int) == run_end_m(m@, fields@, j as int),
                stop ==> j < n && run_indices_m(m@, fields@, j as int) == Seq::<int>::empty()
                    && run_end_m(m@, fields@, j as int) == j,
            decreases n - j + (if stop { 0int } else { 1int }),
        {
            let g = &fields[j];
            let mut skip_this = false;
            if let Some(c) = &g.condition {
                if !econd_check(m, c) {
                    skip_this = true;
                }
            }
            if skip_this {
                j = j + 1;
            } else if matches!(&g.type_spec, TypeSpec::Optional(_)) {
                proof {
                    assert(run_indices_m(m@, fields@, j as int) == seq![j as int]
                        + run_indices_m(m@, fields@, j + 1));
                    assert(usq(collected@.push(j)) =~= usq(collected@).push(j as int));
                    assert(usq(collected@) + (seq![j as int] + run_indices_m(m@, fields@, j + 1))
                        =~= (usq(collected@) + seq![j as int]) + run_indices_m(
                        m@,
                        fields@,
                        j + 1,
                    ));
                    assert(usq(collected@) + seq![j as int] =~= usq(collected@).push(j as int));
                }
                collected.push(j);
                j = j + 1;
            } else {
                stop = true;
            }
        }
        proof {
            if !stop {
                assert(run_indices_m(m@, fields@, j as int) =~= Seq::<int>::empty());
            }
            assert(run_indices_m(m@, fields@, i + 1 as int) =~= usq(collected@));
            assert(run_end_m(m@, fields@, i + 1 as int) == j);
        }
        let mut flags: Vec<bool> = Vec::new();
        let ghost spec_flags = run_flags_m(m@, fields@, usq(collected@));
        let mut t: usize = 0;
        while t < collected.len()
            invariant
                t <= collected@.len(),
                flags@.len() == t,
                n == fields@.len(),
                forall|x: int| 0 <= x < collected@.len() ==> (#[trigger] collected@[x]) < n,
                spec_flags == run_flags_m(m@, fields@, usq(collected@)),
                forall|x: int| 0 <= x < t ==> flags@[x] == spec_flags[x],
            decreases collected@.len() - t,
        {
            flags.push(opt_present_exec(m, fields[collected[t]].name.as_str()));
            t = t + 1;
        }
        proof {
            assert(flags@ =~= spec_flags);
        }
        let big = self.big;
        match &fields[i].type_spec {
            TypeSpec::PresenceBits(nb) => {
                if !(*nb == 1 || *nb == 2 || *nb == 4) {
                    return Err(CodecError::Validation(String::from_str(
                        "presence_bits(n): n must be 1, 2, or 4",
                    )));
                }
                let bm = bitmap_of_exec(&flags);
                write_word(&mut self.out, bm, *nb as usize, big);
            },
            TypeSpec::BitmapPresence { total_bits, presence_per_block, .. } => {
                if *presence_per_block == 0 {
                    let nbytes = (((*total_bits as u64) + 7) / 8) as usize;
                    let flen = flags.len();
                    let ghost target = consecutive_bytes_of(flags@, nbytes as nat);
                    let mut b: usize = 0;
                    proof {
                        assert(self.out@ + target.take(0) =~= self.out@);
                    }
                    let ghost out0 = self.out@;
                    while b < nbytes
                        invariant
                            b <= nbytes,
                            flen == flags@.len(),
                            self.wnext == old(self).wnext,
                            self.wcur == old(self).wcur,
                            self.resolved == old(self).resolved,
                            self.big == old(self).big,
                            target == consecutive_bytes_of(flags@, nbytes as nat),
                            self.out@ == out0 + target.take(b as int),
                        decreases nbytes - b,
                    {
                        let byte = if b <= usize::MAX / 8 {
                            block_bits_exec(&flags, b * 8, 8)
                        } else {
                            proof {
                                lemma_block_bits_oob(flags@, (b as int) * 8, 8);
                            }
                            0u8
                        };
                        proof {
                            assert(out0 + target.take(b + 1) =~= (out0 + target.take(
                                b as int,
                            )).push(target[b as int]));
                            assert(target[b as int] == block_bits(flags@, (b as int) * 8, 8));
                        }
                        self.out.push(byte);
                        b = b + 1;
                    }
                    proof {
                        assert(target.take(nbytes as int) =~= target);
                    }
                } else {
                    let k = *presence_per_block as u64;
                    let flen = flags.len();
                    let blocks: u128 = match last_flag_exec(&flags) {
                        None => 1,
                        Some(l) => ((l as u128) + (k as u128)) / (k as u128),
                    };
                    let ghost target = fspec_bytes_of(flags@, k as nat);
                    proof {
                        assert(target.len() == blocks);
                    }
                    let upto: usize = if k < 7 {
                        k as usize
                    } else {
                        7
                    };
                    let ghost out0 = self.out@;
                    let mut b: u128 = 0;
                    proof {
                        assert(out0 + target.take(0) =~= out0);
                    }
                    while b < blocks
                        invariant
                            b <= blocks,
                            blocks == target.len(),
                            k == *presence_per_block as u64,
                            k >= 1,
                            flen == flags@.len(),
                            upto == (if k < 7 { k as int } else { 7 }),
                            self.wnext == old(self).wnext,
                            self.wcur == old(self).wcur,
                            self.resolved == old(self).resolved,
                            self.big == old(self).big,
                            target == fspec_bytes_of(flags@, k as nat),
                            self.out@ == out0 + target.take(b as int),
                        decreases blocks - b,
                    {
                        let start128: u128 = if b <= u64::MAX as u128 {
                            proof {
                                vstd::arithmetic::mul::lemma_mul_upper_bound(
                                    b as int,
                                    u64::MAX as int,
                                    k as int,
                                    u32::MAX as int,
                                );
                            }
                            b * (k as u128)
                        } else {
                            u128::MAX
                        };
                        let mut byte: u8;
                        if start128 <= usize::MAX as u128 {
                            byte = block_bits_exec(&flags, start128 as usize, upto);
                        } else {
                            proof {
                                assert((b as int) * (k as int) >= (b as int)) by (nonlinear_arith)
                                    requires k >= 1, b >= 0;
                                assert((b as int) * (k as int) >= flags@.len());
                                lemma_block_bits_oob(flags@, (b as int) * (k as int), upto as nat);
                            }
                            byte = 0u8;
                        }
                        if b < blocks - 1 {
                            byte = byte | 1u8;
                        }
                        proof {
                            assert(out0 + target.take(b + 1) =~= (out0 + target.take(
                                b as int,
                            )).push(target[b as int]));
                        }
                        self.out.push(byte);
                        b = b + 1;
                    }
                    proof {
                        assert(target.take(blocks as int) =~= target);
                    }
                }
            },
            _ => {
                return Err(CodecError::Validation(String::from_str("presence field expected")));
            },
        }
        let ghost st2 = self.estate();
        let ghost opt0 = enc_opt_m(
            self.cfg(),
            m@,
            st2,
            fields@,
            usq(collected@),
            0,
            (depth - 1) as nat,
        );
        let mut t2: usize = 0;
        while t2 < collected.len()
            invariant
                t2 <= collected@.len(),
                n == fields@.len(),
                i < n,
                depth >= 1,
                self.wnext <= 7,
                self.resolved == old(self).resolved,
                self.big == old(self).big,
                presence_run_ok_m(fields@[i as int]),
                forall|x: int| 0 <= x < collected@.len() ==> (#[trigger] collected@[x]) < n,
                opt0 == enc_opt_m(
                    self.cfg(),
                    m@,
                    st2,
                    fields@,
                    usq(collected@),
                    0,
                    (depth - 1) as nat,
                ),
                opt0 == enc_opt_m(
                    old(self).cfg(),
                    m@,
                    EState {
                        out: old(self).estate().out + presence_bytes_m(
                            old(self).cfg(),
                            fields@[i as int],
                            run_flags_m(
                                m@,
                                fields@,
                                run_indices_m(m@, fields@, i + 1 as int),
                            ),
                        ),
                        bw: old(self).estate().bw,
                    },
                    fields@,
                    run_indices_m(m@, fields@, i + 1 as int),
                    0,
                    (depth - 1) as nat,
                ),
                opt0 == enc_opt_m(
                    self.cfg(),
                    m@,
                    self.estate(),
                    fields@,
                    usq(collected@),
                    t2 as nat,
                    (depth - 1) as nat,
                ),
            decreases collected@.len() - t2,
        {
            let idx = collected[t2];
            if opt_present_exec(m, fields[idx].name.as_str()) {
                let vref = match m.get(fields[idx].name.as_str()) {
                    Some(v) => v,
                    None => {
                        proof {
                            assert(false);
                        }
                        return Err(CodecError::Validation(String::from_str("present optional lost its value")));
                    },
                };
                let inner: &Value = match vref {
                    Value::List(l) => {
                        if l.len() > 0 {
                            proof {
                                lemma_list_model_index(l@);
                            }
                            &l[0]
                        } else {
                            vref
                        }
                    },
                    _ => vref,
                };
                let elem: &TypeSpec = match &fields[idx].type_spec {
                    TypeSpec::Optional(e) => e,
                    other => other,
                };
                match self.enc_type_i(elem, inner, depth - 1) {
                    Ok(()) => {},
                    Err(e) => {
                        return Err(e);
                    },
                }
            }
            t2 = t2 + 1;
        }
        Ok(j)
    }
}

/// True for the field shapes a presence run starts with.
pub open spec fn is_presence_run_field(f: MessageField) -> bool {
    f.type_spec is PresenceBits || f.type_spec is BitmapPresence
}

/// Whether a presence field's width is one the codec can write.
pub open spec fn presence_run_ok_m(f: MessageField) -> bool {
    match f.type_spec {
        TypeSpec::PresenceBits(n) => n == 1 || n == 2 || n == 4,
        TypeSpec::BitmapPresence { .. } => true,
        _ => false,
    }
}

/// The presence bytes a presence field writes for the given flags.
pub open spec fn presence_bytes_m(cfg: DCfg, f: MessageField, flags: Seq<bool>) -> Seq<u8> {
    match f.type_spec {
        TypeSpec::PresenceBits(n) => word_bytes(bitmap_of(flags), n as nat, cfg.big),
        TypeSpec::BitmapPresence { total_bits, presence_per_block, .. } => if presence_per_block
            == 0 {
            consecutive_bytes_of(flags, ((total_bits + 7) / 8) as nat)
        } else {
            fspec_bytes_of(flags, presence_per_block as nat)
        },
        _ => Seq::empty(),
    }
}

impl<'a> Encoder<'a> {
    /// Writes the derived presence bytes of one optional run, then the
    /// present optionals themselves, for a message scope.
    fn enc_presence_run_s(
        &mut self,
        m: &ValueMap,
        fields: &Vec<StructField>,
        i: usize,
        depth: u32,
    ) -> (r: Result<usize, CodecError>)
        requires
            old(self).wnext <= 7,
            i < fields@.len(),
            depth >= 1,
            is_presence_run_sfield(fields@[i as int]),
        ensures
            final(self).wnext <= 7,
            final(self).frame(old(self)),
            ({
                let f = fields@[i as int];
                let indices = run_indices_s(m@, fields@, i + 1 as int);
                let flags = run_flags_s(m@, fields@, indices);
                match r {
                    Ok(j2) => {
                        &&& i < j2 <= fields@.len()
                        &&& j2 == run_end_s(m@, fields@, i + 1 as int)
                        &&& presence_run_ok_s(f)
                        &&& enc_opt_s(
                            old(self).cfg(),
                            m@,
                            EState {
                                out: old(self).estate().out + presence_bytes_s(
                                    old(self).cfg(),
                                    f,
                                    flags,
                                ),
                                bw: old(self).estate().bw,
                            },
                            fields@,
                            indices,
                            0,
                            (depth - 1) as nat,
                        ) == ERes::Done(final(self).estate())
                    },
                    Err(e) => {
                        if !presence_run_ok_s(f) {
                            e@ == ErrKind::Validation
                        } else {
                            enc_opt_s(
                                old(self).cfg(),
                                m@,
                                EState {
                                    out: old(self).estate().out + presence_bytes_s(
                                        old(self).cfg(),
                                        f,
                                        flags,
                                    ),
                                    bw: old(self).estate().bw,
                                },
                                fields@,
                                indices,
                                0,
                                (depth - 1) as nat,
                            ) == ERes::Fail(e@)
                        }
                    },
                }
            }),
        decreases depth, 2nat,
    {
        let n = fields.len();
        let mut collected: Vec<usize> = Vec::new();
        let mut j: usize = i + 1;
        let mut stop = false;
        proof {
            assert(usq(collected@) + run_indices_s(m@, fields@, j as int) =~= run_indices_s(
                m@,
                fields@,
                i + 1 as int,
            ));
        }
        while j < n && !stop
            invariant
                i + 1 <= j <= n,
                n == fields@.len(),
                forall|t: int| 0 <= t < collected@.len() ==> (#[trigger] collected@[t]) < n,
                run_indices_s(m@, fields@, i + 1 as int) == usq(collected@) + run_indices_s(
                    m@,
                    fields@,
                    j as int,
                ),
                run_end_s(m@, fields@, i + 1 as int) == run_end_s(m@, fields@, j as int),
                stop ==> j < n && run_indices_s(m@, fields@, j as int) == Seq::<int>::empty()
                    && run_end_s(m@, fields@, j as int) == j,
            decreases n - j + (if stop { 0int } else { 1int }),
        {
            let g = &fields[j];
            let mut skip_this = false;
            if let Some(c) = &g.condition {
                if !econd_check(m, c) {
                    skip_this = true;
                }
            }
            if skip_this {
                j = j + 1;
            } else if matches!(&g.type_spec, TypeSpec::Optional(_)) {
                proof {
                    assert(run_indices_s(m@, fields@, j as int) == seq![j as int]
                        + run_indices_s(m@, fields@, j + 1));
                    assert(usq(collected@.push(j)) =~= usq(collected@).push(j as int));
                    assert(usq(collected@) + (seq![j as int] + run_indices_s(m@, fields@, j + 1))
                        =~= (usq(collected@) + seq![j as int]) + run_indices_s(
                        m@,
                        fields@,
                        j + 1,
                    ));
                    assert(usq(collected@) + seq![j as int] =~= usq(collected@).push(j as int));
                }
                collected.push(j);
                j = j + 1;
            } else {
                stop = true;
            }
        }
        proof {
            if !stop {
                assert(run_indices_s(m@, fields@, j as int) =~= Seq::<int>::empty());
            }
            assert(run_indices_s(m@, fields@, i + 1 as int) =~= usq(collected@));
            assert(run_end_s(m@, fields@, i + 1 as int) == j);
        }
        let mut flags: Vec<bool> = Vec::new();
        let ghost spec_flags = run_flags_s(m@, fields@, usq(collected@));
        let mut t: usize = 0;
        while t < collected.len()
            invariant
                t <= collected@.len(),
                flags@.len() == t,
                n == fields@.len(),
                forall|x: int| 0 <= x < collected@.len() ==> (#[trigger] collected@[x]) < n,
                spec_flags == run_flags_s(m@, fields@, usq(collected@)),
                forall|x: int| 0 <= x < t ==> flags@[x] == spec_flags[x],
            decreases collected@.len() - t,
        {
            flags.push(opt_present_exec(m, fields[collected[t]].name.as_str()));
            t = t + 1;
        }
        proof {
            assert(flags@ =~= spec_flags);
        }
        let big = self.big;
        match &fields[i].type_spec {
            TypeSpec::PresenceBits(nb) => {
                if !(*nb == 1 || *nb == 2 || *nb == 4) {
                    return Err(CodecError::Validation(String::from_str(
                        "presence_bits(n): n must be 1, 2, or 4",
                    )));
                }
                let bm = bitmap_of_exec(&flags);
                write_word(&mut self.out, bm, *nb as usize, big);
            },
            TypeSpec::BitmapPresence { total_bits, presence_per_block, .. } => {
                if *presence_per_block == 0 {
                    let nbytes = (((*total_bits as u64) + 7) / 8) as usize;
                    let flen = flags.len();
                    let ghost target = consecutive_bytes_of(flags@, nbytes as nat);
                    let mut b: usize = 0;
                    proof {
                        assert(self.out@ + target.take(0) =~= self.out@);
                    }
                    let ghost out0 = self.out@;
                    while b < nbytes
                        invariant
                            b <= nbytes,
                            flen == flags@.len(),
                            self.wnext == old(self).wnext,
                            self.wcur == old(self).wcur,
                            self.resolved == old(self).resolved,
                            self.big == old(self).big,
                            target == consecutive_bytes_of(flags@, nbytes as nat),
                            self.out@ == out0 + target.take(b as int),
                        decreases nbytes - b,
                    {
                        let byte = if b <= usize::MAX / 8 {
                            block_bits_exec(&flags, b * 8, 8)
                        } else {
                            proof {
                                lemma_block_bits_oob(flags@, (b as int) * 8, 8);
                            }
                            0u8
                        };
                        proof {
                            assert(out0 + target.take(b + 1) =~= (out0 + target.take(
                                b as int,
                            )).push(target[b as int]));
                            assert(target[b as int] == block_bits(flags@, (b as int) * 8, 8));
                        }
                        self.out.push(byte);
                        b = b + 1;
                    }
                    proof {
                        assert(target.take(nbytes as int) =~= target);
                    }
                } else {
                    let k = *presence_per_block as u64;
                    let flen = flags.len();
                    let blocks: u128 = match last_flag_exec(&flags) {
                        None => 1,
                        Some(l) => ((l as u128) + (k as u128)) / (k as u128),
                    };
                    let ghost target = fspec_bytes_of(flags@, k as nat);
                    proof {
                        assert(target.len() == blocks);
                    }
                    let upto: usize = if k < 7 {
                        k as usize
                    } else {
                        7
                    };
                    let ghost out0 = self.out@;
                    let mut b: u128 = 0;
                    proof {
                        assert(out0 + target.take(0) =~= out0);
                    }
                    while b < blocks
                        invariant
                            b <= blocks,
                            blocks == target.len(),
                            k == *presence_per_block as u64,
                            k >= 1,
                            flen == flags@.len(),
                            upto == (if k < 7 { k as int } else { 7 }),
                            self.wnext == old(self).wnext,
                            self.wcur == old(self).wcur,
                            self.resolved == old(self).resolved,
                            self.big == old(self).big,
                            target == fspec_bytes_of(flags@, k as nat),
                            self.out@ == out0 + target.take(b as int),
                        decreases blocks - b,
                    {
                        let start128: u128 = if b <= u64::MAX as u128 {
                            proof {
                                vstd::arithmetic::mul::lemma_mul_upper_bound(
                                    b as int,
                                    u64::MAX as int,
                                    k as int,
                                    u32::MAX as int,
                                );
                            }
                            b * (k as u128)
                        } else {
                            u128::MAX
                        };
                        let mut byte: u8;
                        if start128 <= usize::MAX as u128 {
                            byte = block_bits_exec(&flags, start128 as usize, upto);
                        } else {
                            proof {
                                assert((b as int) * (k as int) >= (b as int)) by (nonlinear_arith)
                                    requires k >= 1, b >= 0;
                                assert((b as int) * (k as int) >= flags@.len());
                                lemma_block_bits_oob(flags@, (b as int) * (k as int), upto as nat);
                            }
                            byte = 0u8;
                        }
                        if b < blocks - 1 {
                            byte = byte | 1u8;
                        }
                        proof {
                            assert(out0 + target.take(b + 1) =~= (out0 + target.take(
                                b as int,
                            )).push(target[b as int]));
                        }
                        self.out.push(byte);
                        b = b + 1;
                    }
                    proof {
                        assert(target.take(blocks as int) =~= target);
                    }
                }
            },
            _ => {
                return Err(CodecError::Validation(String::from_str("presence field expected")));
            },
        }
        let ghost st2 = self.estate();
        let ghost opt0 = enc_opt_s(
            self.cfg(),
            m@,
            st2,
            fields@,
            usq(collected@),
            0,
            (depth - 1) as nat,
        );
        let mut t2: usize = 0;
        while t2 < collected.len()
            invariant
                t2 <= collected@.len(),
                n == fields@.len(),
                i < n,
                depth >= 1,
                self.wnext <= 7,
                self.resolved == old(self).resolved,
                self.big == old(self).big,
                presence_run_ok_s(fields@[i as int]),
                forall|x: int| 0 <= x < collected@.len() ==> (#[trigger] collected@[x]) < n,
                opt0 == enc_opt_s(
                    self.cfg(),
                    m@,
                    st2,
                    fields@,
                    usq(collected@),
                    0,
                    (depth - 1) as nat,
                ),
                opt0 == enc_opt_s(
                    old(self).cfg(),
                    m@,
                    EState {
                        out: old(self).estate().out + presence_bytes_s(
                            old(self).cfg(),
                            fields@[i as int],
                            run_flags_s(
                                m@,
                                fields@,
                                run_indices_s(m@, fields@, i + 1 as int),
                            ),
                        ),
                        bw: old(self).estate().bw,
                    },
                    fields@,
                    run_indices_s(m@, fields@, i + 1 as int),
                    0,
                    (depth - 1) as nat,
                ),
                opt0 == enc_opt_s(
                    self.cfg(),
                    m@,
                    self.estate(),
                    fields@,
                    usq(collected@),
                    t2 as nat,
                    (depth - 1) as nat,
                ),
            decreases collected@.len() - t2,
        {
            let idx = collected[t2];
            if opt_present_exec(m, fields[idx].name.as_str()) {
                let vref = match m.get(fields[idx].name.as_str()) {
                    Some(v) => v,
                    None => {
                        proof {
                            assert(false);
                        }
                        return Err(CodecError::Validation(String::from_str("present optional lost its value")));
                    },
                };
                let inner: &Value = match vref {
                    Value::List(l) => {
                        if l.len() > 0 {
                            proof {
                                lemma_list_model_index(l@);
                            }
                            &l[0]
                        } else {
                            vref
                        }
                    },
                    _ => vref,
                };
                let elem: &TypeSpec = match &fields[idx].type_spec {
                    TypeSpec::Optional(e) => e,
                    other => other,
                };
                match self.enc_type_i(elem, inner, depth - 1) {
                    Ok(()) => {},
                    Err(e) => {
                        return Err(e);
                    },
                }
            }
            t2 = t2 + 1;
        }
        Ok(j)
    }
}

/// True for the field shapes a presence run starts with.
pub open spec fn is_presence_run_sfield(f: StructField) -> bool {
    f.type_spec is PresenceBits || f.type_spec is BitmapPresence
}

/// Whether a presence field's width is one the codec can write.
pub open spec fn presence_run_ok_s(f: StructField) -> bool {
    match f.type_spec {
        TypeSpec::PresenceBits(n) => n == 1 || n == 2 || n == 4,
        TypeSpec::BitmapPresence { .. } => true,
        _ => false,
    }
}

/// The presence bytes a presence field writes for the given flags.
pub open spec fn presence_bytes_s(cfg: DCfg, f: StructField, flags: Seq<bool>) -> Seq<u8> {
    match f.type_spec {
        TypeSpec::PresenceBits(n) => word_bytes(bitmap_of(flags), n as nat, cfg.big),
        TypeSpec::BitmapPresence { total_bits, presence_per_block, .. } => if presence_per_block
            == 0 {
            consecutive_bytes_of(flags, ((total_bits + 7) / 8) as nat)
        } else {
            fspec_bytes_of(flags, presence_per_block as nat)
        },
        _ => Seq::empty(),
    }
}


impl<'a> Encoder<'a> {
    /// Encodes the fields of a message body in declaration order.
    fn enc_mfields_i(&mut self, m: &ValueMap, fields: &Vec<MessageField>, depth: u32) -> (r:
        Result<(), CodecError>)
        requires
            old(self).wnext <= 7,
        ensures
            final(self).wnext <= 7,
            final(self).frame(old(self)),
            match r {
                Ok(()) => enc_mfields(
                    old(self).cfg(),
                    m@,
                    old(self).estate(),
                    fields@,
                    0,
                    depth as nat,
                ) == ERes::Done(final(self).estate()),
                Err(e) => enc_mfields(
                    old(self).cfg(),
                    m@,
                    old(self).estate(),
                    fields@,
                    0,
                    depth as nat,
                ) == ERes::Fail(e@),
            },
        decreases depth, 3nat,
    {
        let ghost spec0 = enc_mfields(self.cfg(), m@, self.estate(), fields@, 0, depth as nat);
        if depth == 0 {
            return Err(CodecError::Validation(String::from_str("structure nested too deeply")));
        }
        let n = fields.len();
        let mut i: usize = 0;
        while i < n
            invariant
                i <= n,
                n == fields@.len(),
                depth >= 1,
                self.wnext <= 7,
                self.resolved == old(self).resolved,
                self.big == old(self).big,
                spec0 == enc_mfields(
                    old(self).cfg(),
                    m@,
                    old(self).estate(),
                    fields@,
                    0,
                    depth as nat,
                ),
                spec0 == enc_mfields(
                    self.cfg(),
                    m@,
                    self.estate(),
                    fields@,
                    i as nat,
                    depth as nat,
                ),
            decreases n - i,
        {
            let f = &fields[i];
            let mut skip_this = false;
            if let Some(c) = &f.condition {
                if !econd_check(m, c) {
                    skip_this = true;
                }
            }
            if skip_this {
                i = i + 1;
            } else if matches!(
                &f.type_spec,
                TypeSpec::PresenceBits(_) | TypeSpec::BitmapPresence { .. },
            ) {
                if self.wnext != 0 {
                    return Err(CodecError::Validation(String::from_str(
                        "bitfield/padding_bits not byte-aligned (missing padding_bits?)",
                    )));
                }
                match self.enc_presence_run_m(m, fields, i, depth) {
                    Ok(j2) => {
                        i = j2;
                    },
                    Err(e) => {
                        return Err(e);
                    },
                }
            } else {
                match prefix_check(m, f.name.as_str(), &f.type_spec) {
                    Ok(()) => {},
                    Err(e) => {
                        return Err(e);
                    },
                }
                let res = match m.get(f.name.as_str()) {
                    Some(v) => self.enc_type_i(&f.type_spec, v, depth - 1),
                    None => {
                        let d = default_exec(&f.type_spec);
                        self.enc_type_i(&f.type_spec, &d, depth - 1)
                    },
                };
                match res {
                    Ok(()) => {},
                    Err(e) => {
                        return Err(e);
                    },
                }
                i = i + 1;
            }
        }
        if self.wnext != 0 {
            return Err(CodecError::Validation(String::from_str(
                "message: bitfield/padding_bits not byte-aligned at end",
            )));
        }
        Ok(())
    }

    /// Encodes the fields of a struct body in declaration order.
    fn enc_sfields_i(&mut self, m: &ValueMap, fields: &Vec<StructField>, depth: u32) -> (r:
        Result<(), CodecError>)
        requires
            old(self).wnext <= 7,
        ensures
            final(self).wnext <= 7,
            final(self).frame(old(self)),
            match r {
                Ok(()) => enc_sfields(
                    old(self).cfg(),
                    m@,
                    old(self).estate(),
                    fields@,
                    0,
                    depth as nat,
                ) == ERes::Done(final(self).estate()),
                Err(e) => enc_sfields(
                    old(self).cfg(),
                    m@,
                    old(self).estate(),
                    fields@,
                    0,
                    depth as nat,
                ) == ERes::Fail(e@),
            },
        decreases depth, 3nat,
    {
        let ghost spec0 = enc_sfields(self.cfg(), m@, self.estate(), fields@, 0, depth as nat);
        if depth == 0 {
            return Err(CodecError::Validation(String::from_str("structure nested too deeply")));
        }
        let n = fields.len();
        let mut i: usize = 0;
        while i < n
            invariant
                i <= n,
                n == fields@.len(),
                depth >= 1,
                self.wnext <= 7,
                self.resolved == old(self).resolved,
                self.big == old(self).big,
                spec0 == enc_sfields(
                    old(self).cfg(),
                    m@,
                    old(self).estate(),
                    fields@,
                    0,
                    depth as nat,
                ),
                spec0 == enc_sfields(
                    self.cfg(),
                    m@,
                    self.estate(),
                    fields@,
                    i as nat,
                    depth as nat,
                ),
            decreases n - i,
        {
            let f = &fields[i];
            let mut skip_this = false;
            if let Some(c) = &f.condition {
                if !econd_check(m, c) {
                    skip_this = true;
                }
            }
            if skip_this {
                i = i + 1;
            } else if matches!(
                &f.type_spec,
                TypeSpec::PresenceBits(_) | TypeSpec::BitmapPresence { .. },
            ) {
                if self.wnext != 0 {
                    return Err(CodecError::Validation(String::from_str(
                        "bitfield/padding_bits not byte-aligned (missing padding_bits?)",
                    )));
                }
                match self.enc_presence_run_s(m, fields, i, depth) {
                    Ok(j2) => {
                        i = j2;
                    },
                    Err(e) => {
                        return Err(e);
                    },
                }
            } else {
                match prefix_check(m, f.name.as_str(), &f.type_spec) {
                    Ok(()) => {},
                    Err(e) => {
                        return Err(e);
                    },
                }
                let res = match m.get(f.name.as_str()) {
                    Some(v) => self.enc_type_i(&f.type_spec, v, depth - 1),
                    None => {
                        let d = default_exec(&f.type_spec);
                        self.enc_type_i(&f.type_spec, &d, depth - 1)
                    },
                };
                match res {
                    Ok(()) => {},
                    Err(e) => {
                        return Err(e);
                    },
                }
                i = i + 1;
            }
        }
        if self.wnext != 0 {
            return Err(CodecError::Validation(String::from_str(
                "struct: bitfield/padding_bits not byte-aligned at end",
            )));
        }
        Ok(())
    }
}

impl Codec {
    /// Encodes a single message by name: missing fields take their defaults,
    /// padding is written as zero, presence fields are derived from which
    /// optionals the map holds, and a length or count prefix that disagrees
    /// with its referenced sequence's actual length is rejected with a
    /// length-mismatch error.
    pub fn encode_message(&self, message_name: &str, values: &ValueMap) -> (r: Result<
        Vec<u8>,
        CodecError,
    >)
        ensures
            ({
                let res = enc_message(
                    self.resolved.protocol,
                    self.endianness is Big,
                    values@,
                    message_name@,
                    MAX_DEPTH as nat,
                );
                match r {
                    Ok(out) => res == EMsgRes::Done(out@),
                    Err(e) => res == EMsgRes::Fail(e@),
                }
            }),
    {
        let msg = match self.resolved.get_message(message_name) {
            Some(m) => m,
            None => {
                return Err(CodecError::UnknownStruct(crate::walk::clone_str_ref(message_name)));
            },
        };
        let big = endian_is_big(&self.endianness);
        let mut enc = Encoder { out: Vec::new(), resolved: &self.resolved, big, wcur: 0, wnext: 0 };
        proof {
            assert(enc.estate().out =~= Seq::<u8>::empty());
        }
        match enc.enc_mfields_i(values, &msg.fields, MAX_DEPTH) {
            Ok(()) => Ok(enc.out),
            Err(e) => Err(e),
        }
    }
}

/// Decodes one transport field shape.
pub open spec fn tdec_type(big: bool, data: Seq<u8>, pos: nat, t: TransportTypeSpec) -> DRes {
    match t {
        TransportTypeSpec::Base(bt) => {
            let size = spec_base_type_size(bt);
            if pos + size > data.len() {
                DRes::Fail { pos, kind: ErrKind::Short }
            } else {
                DRes::Done {
                    st: DState {
                        pos: pos + size,
                        vals: Seq::empty(),
                        presence: PresenceModel::NoSource,
                        bits: fresh_bits(),
                    },
                    v: scalar_value(bt, word_val(data.subrange(pos as int, (pos + size) as int), big)),
                }
            }
        },
        TransportTypeSpec::SizedInt(bt, n) => {
            let size = ((n + 7) / 8) as nat;
            if size > 8 {
                DRes::Fail { pos, kind: ErrKind::Validation }
            } else if pos + size > data.len() {
                DRes::Fail { pos, kind: ErrKind::Short }
            } else {
                DRes::Done {
                    st: DState {
                        pos: pos + size,
                        vals: Seq::empty(),
                        presence: PresenceModel::NoSource,
                        bits: fresh_bits(),
                    },
                    v: sized_int_value(
                        bt,
                        n,
                        word_val(data.subrange(pos as int, (pos + size) as int), big) as u64,
                    ),
                }
            }
        },
        TransportTypeSpec::Padding(n) | TransportTypeSpec::Reserved(n) => {
            if pos + n > data.len() {
                DRes::Fail { pos, kind: ErrKind::Short }
            } else {
                DRes::Done {
                    st: DState {
                        pos: (pos + n) as nat,
                        vals: Seq::empty(),
                        presence: PresenceModel::NoSource,
                        bits: fresh_bits(),
                    },
                    v: if t is Padding {
                        ValModel::Padding
                    } else {
                        ValModel::Reserved
                    },
                }
            }
        },
        TransportTypeSpec::Bitfield(n) => {
            let size = ((n + 7) / 8) as nat;
            if size > 8 {
                DRes::Fail { pos, kind: ErrKind::Validation }
            } else if pos + size > data.len() {
                DRes::Fail { pos, kind: ErrKind::Short }
            } else {
                DRes::Done {
                    st: DState {
                        pos: pos + size,
                        vals: Seq::empty(),
                        presence: PresenceModel::NoSource,
                        bits: fresh_bits(),
                    },
                    v: ValModel::U64(
                        word_val(data.subrange(pos as int, (pos + size) as int), big) as u64,
                    ),
                }
            }
        },
        TransportTypeSpec::Magic(expected) => {
            if pos + expected@.len() > data.len() {
                DRes::Fail { pos, kind: ErrKind::Short }
            } else {
                DRes::Done {
                    st: DState {
                        pos: pos + expected@.len(),
                        vals: Seq::empty(),
                        presence: PresenceModel::NoSource,
                        bits: fresh_bits(),
                    },
                    v: ValModel::Bytes(
                        data.subrange(pos as int, (pos + expected@.len()) as int),
                    ),
                }
            }
        },
    }
}

/// Decodes the transport fields from index `i`, validating each constrained
/// field as it is read.
pub open spec fn tdec_fields(
    big: bool,
    data: Seq<u8>,
    pos: nat,
    fields: Seq<TransportField>,
    i: nat,
    out: Seq<(Seq<char>, ValModel)>,
) -> DMsgRes
    decreases fields.len() - i,
{
    if i >= fields.len() {
        DMsgRes::Done { consumed: pos, out }
    } else {
        let f = fields[i as int];
        match tdec_type(big, data, pos, f.type_spec) {
            DRes::Done { st, v } => {
                if (match f.constraint {
                    Some(c) => !vconstraint_ok(v, c),
                    None => false,
                }) {
                    DMsgRes::Fail { consumed: st.pos, kind: ErrKind::Validation }
                } else {
                    tdec_fields(big, data, st.pos, fields, i + 1, out.push((f.name@, v)))
                }
            },
            DRes::Fail { pos: p, kind } => DMsgRes::Fail { consumed: p, kind },
        }
    }
}

/// Encodes one transport field shape.
pub open spec fn tenc_type(big: bool, out: Seq<u8>, t: TransportTypeSpec, v: ValModel) -> Seq<u8> {
    match t {
        TransportTypeSpec::Base(bt) => out + word_bytes(
            base_word(bt, v),
            spec_base_type_size(bt),
            big,
        ),
        TransportTypeSpec::SizedInt(bt, n) => {
            let raw: u64 = if spec_is_signed(bt) {
                (match spec_as_i64(v) {
                    Some(x) => x,
                    None => 0,
                }) as u64
            } else {
                match spec_as_u64(v) {
                    Some(x) => x,
                    None => 0,
                }
            };
            let masked: u64 = if n >= 64 {
                raw
            } else {
                (raw as nat % pow2(n as nat)) as u64
            };
            out + word_bytes(masked, (if (n + 7) / 8 > 8 { 8nat } else { ((n + 7) / 8) as nat }), big)
        },
        TransportTypeSpec::Padding(n) | TransportTypeSpec::Reserved(n) => out + Seq::new(
            (if n > usize::MAX as u64 { 0nat } else { n as nat }),
            |i: int| 0u8,
        ),
        TransportTypeSpec::Bitfield(n) => {
            let raw = match spec_as_u64(v) {
                Some(x) => x,
                None => 0,
            };
            out + word_bytes(raw, (if (n + 7) / 8 > 8 { 8nat } else { ((n + 7) / 8) as nat }), big)
        },
        TransportTypeSpec::Magic(expected) => match v {
            ValModel::Bytes(b) => if b.len() == expected@.len() {
                out + b
            } else {
                out + expected@
            },
            _ => out + expected@,
        },
    }
}

/// Encodes the transport fields from index `i`; missing values take the
/// padding sentinel, which encodes as the field's neutral form.
pub open spec fn tenc_fields(
    big: bool,
    m: Seq<(Seq<char>, ValModel)>,
    out: Seq<u8>,
    fields: Seq<TransportField>,
    i: nat,
) -> Seq<u8>
    decreases fields.len() - i,
{
    if i >= fields.len() {
        out
    } else {
        let f = fields[i as int];
        let v = match map_get(m, f.name@) {
            Some(v) => v,
            None => ValModel::Padding,
        };
        tenc_fields(big, m, tenc_type(big, out, f.type_spec, v), fields, i + 1)
    }
}

impl Codec {
    /// Decodes the transport header, when the protocol defines one; each
    /// constrained field is validated as it is read.
    pub fn decode_transport(&self, bytes: &[u8]) -> (r: Result<ValueMap, CodecError>)
        ensures
            ({
                match self.resolved.protocol.transport {
                    None => r matches Ok(m) && m@ == Seq::<(Seq<char>, ValModel)>::empty(),
                    Some(t) => {
                        let res = tdec_fields(
                            self.endianness is Big,
                            bytes@,
                            0,
                            t.fields@,
                            0,
                            Seq::empty(),
                        );
                        match r {
                            Ok(m) => res matches DMsgRes::Done { consumed, out } && out == m@,
                            Err(e) => res matches DMsgRes::Fail { consumed, kind } && kind == e@,
                        }
                    },
                }
            }),
    {
        let t = match &self.resolved.protocol.transport {
            Some(t) => t,
            None => {
                return Ok(ValueMap::new());
            },
        };
        let big = endian_is_big(&self.endianness);
        let mut out = ValueMap::new();
        let mut pos: usize = 0;
        let n = t.fields.len();
        let mut i: usize = 0;
        let ghost spec0 = tdec_fields(big, bytes@, 0, t.fields@, 0, Seq::empty());
        let dn = bytes.len();
        while i < n
            invariant
                i <= n,
                pos <= dn,
                dn == bytes@.len(),
                n == t.fields@.len(),
                self.resolved.protocol.transport matches Some(tt) && tt == *t,
                big == (self.endianness is Big),
                spec0 == tdec_fields(big, bytes@, 0, t.fields@, 0, Seq::empty()),
                spec0 == tdec_fields(big, bytes@, pos as nat, t.fields@, i as nat, out@),
            decreases n - i,
        {
            let f = &t.fields[i];
            let (v, size): (Value, usize) = match &f.type_spec {
                TransportTypeSpec::Base(bt) => {
                    let size = base_type_size(bt);
                    if pos > dn || dn - pos < size {
                        return Err(CodecError::ShortBuffer);
                    }
                    let raw = read_word(bytes, pos, size, big);
                    proof {
                        crate::wire::lemma_be_val_bound(
                            bytes@.subrange(pos as int, pos + size as int),
                        );
                        crate::wire::lemma_le_val_bound(
                            bytes@.subrange(pos as int, pos + size as int),
                        );
                        crate::wire::lemma_pow256_pow2(size as nat);
                    }
                    let v = match bt {
                        BaseType::U8 => Value::U8(raw as u8),
                        BaseType::U16 => Value::U16(raw as u16),
                        BaseType::U32 => Value::U32(raw as u32),
                        BaseType::U64 => Value::U64(raw),
                        BaseType::I8 => Value::I8(crate::walk::sign_extend_exec(raw, 8) as i8),
                        BaseType::I16 => Value::I16(crate::walk::sign_extend_exec(raw, 16) as i16),
                        BaseType::I32 => Value::I32(crate::walk::sign_extend_exec(raw, 32) as i32),
                        BaseType::I64 => Value::I64(crate::walk::sign_extend_exec(raw, 64)),
                        BaseType::Bool => Value::Bool(raw != 0),
                        BaseType::Float => Value::F32Bits(raw as u32),
                        BaseType::Double => Value::F64Bits(raw),
                    };
                    (v, size)
                },
                TransportTypeSpec::SizedInt(bt, nb) => {
                    let size64 = crate::walk::bits_to_bytes(*nb);
                    if size64 > 8 {
                        return Err(
                            CodecError::Validation(
                                String::from_str("sized integer wider than 64 bits"),
                            ),
                        );
                    }
                    let size = size64 as usize;
                    if pos > dn || dn - pos < size {
                        return Err(CodecError::ShortBuffer);
                    }
                    let raw = read_word(bytes, pos, size, big);
                    (sized_int_exec(bt, *nb, raw), size)
                },
                TransportTypeSpec::Padding(nb) | TransportTypeSpec::Reserved(nb) => {
                    if pos > dn || ((dn - pos) as u64) < *nb {
                        return Err(CodecError::ShortBuffer);
                    }
                    let v = if matches!(&f.type_spec, TransportTypeSpec::Padding(_)) {
                        Value::Padding
                    } else {
                        Value::Reserved
                    };
                    (v, *nb as usize)
                },
                TransportTypeSpec::Bitfield(nb) => {
                    let size64 = crate::walk::bits_to_bytes(*nb);
                    if size64 > 8 {
                        return Err(
                            CodecError::Validation(
                                String::from_str("sized integer wider than 64 bits"),
                            ),
                        );
                    }
                    let size = size64 as usize;
                    if pos > dn || dn - pos < size {
                        return Err(CodecError::ShortBuffer);
                    }
                    let raw = read_word(bytes, pos, size, big);
                    (Value::U64(raw), size)
                },
                TransportTypeSpec::Magic(expected) => {
                    let size = expected.len();
                    if pos > dn || dn - pos < size {
                        return Err(CodecError::ShortBuffer);
                    }
                    let b = crate::walk::slice_range_to_vec(bytes, pos, size);
                    (Value::Bytes(b), size)
                },
            };
            if let Some(c) = &f.constraint {
                if !vcheck(&v, c) {
                    return Err(
                        CodecError::Validation(
                            String::from_str("field ").concat(f.name.as_str()).concat(
                                ": ",
                            ).concat(vconstraint_msg(&v, c).as_str()),
                        ),
                    );
                }
            }
            let key = crate::walk::clone_str_ref(f.name.as_str());
            out.insert(key, v);
            pos = pos + size;
            i = i + 1;
        }
        Ok(out)
    }

    /// Encodes the transport header from a value map; padding and reserved
    /// fields are written as zero, a wrong-sized magic is replaced by the
    /// declared one.
    pub fn encode_transport(&self, values: &ValueMap) -> (r: Result<Vec<u8>, CodecError>)
        ensures
            ({
                match self.resolved.protocol.transport {
                    None => r matches Ok(out) && out@ == Seq::<u8>::empty(),
                    Some(t) => r matches Ok(out) && out@ == tenc_fields(
                        self.endianness is Big,
                        values@,
                        Seq::empty(),
                        t.fields@,
                        0,
                    ),
                }
            }),
    {
        let t = match &self.resolved.protocol.transport {
            Some(t) => t,
            None => {
                let out: Vec<u8> = Vec::new();
                proof {
                    assert(out@ =~= Seq::<u8>::empty());
                }
                return Ok(out);
            },
        };
        let big = endian_is_big(&self.endianness);
        let mut out: Vec<u8> = Vec::new();
        let n = t.fields.len();
        let mut i: usize = 0;
        let ghost spec0 = tenc_fields(big, values@, Seq::empty(), t.fields@, 0);
        proof {
            assert(out@ =~= Seq::<u8>::empty());
        }
        while i < n
            invariant
                i <= n,
                n == t.fields@.len(),
                self.resolved.protocol.transport matches Some(tt) && tt == *t,
                big == (self.endianness is Big),
                spec0 == tenc_fields(big, values@, Seq::empty(), t.fields@, 0),
                spec0 == tenc_fields(big, values@, out@, t.fields@, i as nat),
            decreases n - i,
        {
            let f = &t.fields[i];
            let default_v = Value::Padding;
            let v: &Value = match values.get(f.name.as_str()) {
                Some(v) => v,
                None => &default_v,
            };
            match &f.type_spec {
                TransportTypeSpec::Base(bt) => {
                    let w = base_word_exec(bt, v);
                    let size = base_type_size(bt);
                    write_word(&mut out, w, size, big);
                },
                TransportTypeSpec::SizedInt(bt, nb) => {
                    let signed = matches!(
                        bt,
                        BaseType::I8 | BaseType::I16 | BaseType::I32 | BaseType::I64,
                    );
                    let raw: u64 = if signed {
                        (match v.as_i64() {
                            Some(x) => x,
                            None => 0,
                        }) as u64
                    } else {
                        match v.as_u64() {
                            Some(x) => x,
                            None => 0,
                        }
                    };
                    let masked: u64 = if *nb >= 64 {
                        raw
                    } else {
                        proof {
                            lemma_pow2_pos(*nb as nat);
                        }
                        raw % crate::walk::pow2_u64(*nb)
                    };
                    let size64 = crate::walk::bits_to_bytes(*nb);
                    let size = if size64 > 8 {
                        8
                    } else {
                        size64 as usize
                    };
                    write_word(&mut out, masked, size, big);
                },
                TransportTypeSpec::Padding(nb) | TransportTypeSpec::Reserved(nb) => {
                    let len = if *nb > usize::MAX as u64 {
                        0
                    } else {
                        *nb as usize
                    };
                    let mut j: usize = 0;
                    let ghost out_pre = out@;
                    proof {
                        assert(out@ =~= out_pre + Seq::new(0, |x: int| 0u8));
                    }
                    while j < len
                        invariant
                            j <= len,
                            out@ == out_pre + Seq::new(j as nat, |x: int| 0u8),
                        decreases len - j,
                    {
                        proof {
                            assert(out_pre + Seq::new((j + 1) as nat, |x: int| 0u8) =~= (out_pre
                                + Seq::new(j as nat, |x: int| 0u8)).push(0u8));
                        }
                        out.push(0u8);
                        j = j + 1;
                    }
                },
                TransportTypeSpec::Bitfield(nb) => {
                    let raw = match v.as_u64() {
                        Some(x) => x,
                        None => 0,
                    };
                    let size64 = crate::walk::bits_to_bytes(*nb);
                    let size = if size64 > 8 {
                        8
                    } else {
                        size64 as usize
                    };
                    write_word(&mut out, raw, size, big);
                },
                TransportTypeSpec::Magic(expected) => {
                    let use_value = match v {
                        Value::Bytes(b) => b.len() == expected.len(),
                        _ => false,
                    };
                    if use_value {
                        match v {
                            Value::Bytes(b) => {
                                let ghost out_pre = out@;
                                let mut j: usize = 0;
                                proof {
                                    assert(out@ =~= out_pre + b@.take(0));
                                }
                                while j < b.len()
                                    invariant
                                        j <= b@.len(),
                                        out@ == out_pre + b@.take(j as int),
                                    decreases b@.len() - j,
                                {
                                    proof {
                                        assert(out_pre + b@.take(j + 1) =~= (out_pre + b@.take(
                                            j as int,
                                        )).push(b@[j as int]));
                                    }
                                    out.push(b[j]);
                                    j = j + 1;
                                }
                                proof {
                                    assert(b@.take(b@.len() as int) =~= b@);
                                }
                            },
                            _ => {
                                proof {
                                    assert(false);
                                }
                            },
                        }
                    } else {
                        let ghost out_pre = out@;
                        let mut j: usize = 0;
                        proof {
                            assert(out@ =~= out_pre + expected@.take(0));
                        }
                        while j < expected.len()
                            invariant
                                j <= expected@.len(),
                                out@ == out_pre + expected@.take(j as int),
                            decreases expected@.len() - j,
                        {
                            proof {
                                assert(out_pre + expected@.take(j + 1) =~= (out_pre
                                    + expected@.take(j as int)).push(expected@[j as int]));
                            }
                            out.push(expected[j]);
                            j = j + 1;
                        }
                        proof {
                            assert(expected@.take(expected@.len() as int) =~= expected@);
                        }
                    }
                },
            }
            i = i + 1;
        }
        Ok(out)
    }
}

} // verus!
