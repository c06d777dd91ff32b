//! Zero-copy walk over binary data following the message structure: byte
//! extent, in-place validation, in-place zeroing of padding, and excision.
//!
//! The walker advances a byte position through a record without building
//! values. One specification interpreter, parameterized by a `validate` and a
//! `zero` switch, gives the meaning of all four public operations; each
//! executable walker is proved to follow it step by step.

use vstd::prelude::*;
use vstd::string::StringExecFns;
use vstd::arithmetic::power2::{pow2, lemma2_to64, lemma_pow2_strictly_increases, lemma_pow2_pos};
use crate::ast::{
    ArrayLen, BaseType, Condition, Constraint, MessageField, Protocol, ResolvedProtocol,
    StructField, StructSection, TypeSpec, find_name, literal_as_i64, message_names,
    spec_base_type_size, spec_is_signed, struct_names, base_type_size,
};
use crate::codec::{CodecError, ErrKind};
use crate::value::str_eq;
use crate::wire::{word_val, read_word};

verus! {

broadcast use
    vstd::std_specs::vec::axiom_vec_index_decreases,
    vstd::seq::axiom_seq_index_decreases;

/// Byte order for multi-byte fields, as the walk engine takes it.
#[derive(Debug, Clone, Copy, PartialEq, Eq, Structural)]
pub enum Endianness {
    Big,
    Little,
}

impl From<crate::codec::Endianness> for Endianness {
    /// Converts codec byte order to walk byte order.
    fn from(e: crate::codec::Endianness) -> (r: Endianness) {
        match e {
            crate::codec::Endianness::Big => Endianness::Big,
            crate::codec::Endianness::Little => Endianness::Little,
        }
    }
}

impl vstd::std_specs::convert::FromSpecImpl<crate::codec::Endianness> for Endianness {
    open spec fn obeys_from_spec() -> bool {
        true
    }

    open spec fn from_spec(e: crate::codec::Endianness) -> Endianness {
        match e {
            crate::codec::Endianness::Big => Endianness::Big,
            crate::codec::Endianness::Little => Endianness::Little,
        }
    }
}

/// Presence source driving Optional fields, as the model sees it.
pub ghost enum PresenceModel {
    /// No source: an Optional falls back to a one-byte flag.
    NoSource,
    /// Fixed bitmap: the next Optional consumes bit `idx` of `value`,
    /// least-significant first.
    Fixed { value: u64, idx: usize },
    /// Variable bitmap: with `per_block = 0`, bit `idx` is the
    /// most-significant-first bit `idx` of the byte string; with
    /// `per_block = k > 0`, byte `idx / k` carries bits from the most
    /// significant bit down and `idx % k` selects one.
    Var { bytes: Seq<u8>, idx: usize, per_block: u32 },
}

/// Walk state: position, buffer contents, recorded integers, presence source.
pub ghost struct WState {
    pub pos: nat,
    pub data: Seq<u8>,
    pub vals: Seq<(Seq<char>, u64)>,
    pub presence: PresenceModel,
}

/// Outcome of one walk step.
pub ghost enum WRes {
    Done(WState),
    Fail(ErrKind),
}

/// Walk configuration: struct definitions for references, byte order, and
/// whether the pass zeroes padding or validates constraints.
pub ghost struct WCfg {
    pub structs: Seq<StructSection>,
    pub big: bool,
    pub zero: bool,
    pub validate: bool,
}

/// Index of the entry a lookup finds in the recorded integers: the last
/// entry with that name, or `-1`.
pub open spec fn wfind(vals: Seq<(Seq<char>, u64)>, key: Seq<char>) -> int
    decreases vals.len(),
{
    if vals.len() == 0 {
        -1
    } else if vals[vals.len() - 1].0 == key {
        vals.len() - 1
    } else {
        wfind(vals.drop_last(), key)
    }
}

/// The recorded integer under a name, if any.
pub open spec fn wget(vals: Seq<(Seq<char>, u64)>, key: Seq<char>) -> Option<u64> {
    if wfind(vals, key) >= 0 {
        Some(vals[wfind(vals, key)].1)
    } else {
        None
    }
}

/// Whether a conditional field participates: the recorded value of the named
/// sibling, read as signed, equals the literal.
pub open spec fn cond_passes(vals: Seq<(Seq<char>, u64)>, c: Condition) -> bool {
    (match wget(vals, c.field@) {
        Some(u) => Some(u as i64),
        None => None,
    }) == literal_as_i64(c.value)
}

/// The buffer with bytes `pos .. pos + n` set to zero.
pub open spec fn zero_range(data: Seq<u8>, pos: nat, n: nat) -> Seq<u8> {
    Seq::new(data.len(), |i: int| if pos <= i < pos + n { 0u8 } else { data[i] })
}

/// Presence bit `idx` of a variable bitmap.
pub open spec fn var_bit(bytes: Seq<u8>, idx: usize, per_block: u32) -> bool {
    if per_block == 0 {
        let bi = idx as int / 8;
        let off = idx as int % 8;
        bi < bytes.len() && ((bytes[bi] >> ((7 - off) as u8)) & 1) == 1
    } else {
        let bi = idx as int / (per_block as int);
        let off = idx as int % (per_block as int);
        bi < bytes.len() && off < 8 && ((bytes[bi] >> ((7 - off) as u8)) & 1) == 1
    }
}

/// The presence bit the next Optional consumes; `None` means the fallback
/// one-byte flag is read instead.
pub open spec fn presence_bit(p: PresenceModel) -> Option<bool> {
    match p {
        PresenceModel::NoSource => None,
        PresenceModel::Fixed { value, idx } => Some(
            idx < 64 && ((value >> (idx as u64)) & 1) == 1,
        ),
        PresenceModel::Var { bytes, idx, per_block } => Some(var_bit(bytes, idx, per_block)),
    }
}

/// The presence source after one Optional consumed its bit: the index
/// advances, saturating.
pub open spec fn presence_step(p: PresenceModel) -> PresenceModel {
    match p {
        PresenceModel::NoSource => PresenceModel::NoSource,
        PresenceModel::Fixed { value, idx } => PresenceModel::Fixed {
            value,
            idx: if idx == usize::MAX { idx } else { (idx + 1) as usize },
        },
        PresenceModel::Var { bytes, idx, per_block } => PresenceModel::Var {
            bytes,
            idx: if idx == usize::MAX { idx } else { (idx + 1) as usize },
            per_block,
        },
    }
}

/// Result of reading a variable-length FX-terminated bitmap.
pub ghost enum FxRes {
    Done { bytes: Seq<u8>, pos: nat },
    Fail(ErrKind),
}

/// Reads up to `blocks` bytes starting at `pos`, stopping after the first
/// byte whose FX bit (bit 0) is clear. Reading all `blocks` bytes without a
/// clear FX bit is an error; so is running out of buffer.
pub open spec fn read_fx(data: Seq<u8>, pos: nat, blocks: nat) -> FxRes
    decreases blocks,
{
    if blocks == 0 {
        FxRes::Done { bytes: Seq::empty(), pos }
    } else if pos >= data.len() {
        FxRes::Fail(ErrKind::Short)
    } else if data[pos as int] & 1 == 0 {
        FxRes::Done { bytes: seq![data[pos as int]], pos: pos + 1 }
    } else if blocks == 1 {
        FxRes::Fail(ErrKind::Validation)
    } else {
        match read_fx(data, pos + 1, (blocks - 1) as nat) {
            FxRes::Done { bytes, pos: p } => FxRes::Done {
                bytes: seq![data[pos as int]] + bytes,
                pos: p,
            },
            FxRes::Fail(e) => FxRes::Fail(e),
        }
    }
}

/// Signed reading of `raw` as an `n`-bit two's-complement value.
pub open spec fn sign_extend_bits(raw: nat, n: nat) -> int {
    if n > 0 && raw >= pow2((n - 1) as nat) {
        raw - pow2(n)
    } else {
        raw as int
    }
}

/// Whether an integer satisfies a constraint: inside any interval, or equal
/// to any allowed literal.
pub open spec fn constraint_ok(v: int, c: Constraint) -> bool {
    match c {
        Constraint::Range(iv) => exists|i: int|
            0 <= i < iv@.len() && (#[trigger] iv@[i]).0 <= v <= iv@[i].1,
        Constraint::Enum(lits) => exists|i: int|
            0 <= i < lits@.len() && (literal_as_i64(#[trigger] lits@[i]) matches Some(x) && x as int
                == v),
    }
}

/// The integer a validating walk reads for a constrained field, and the bytes
/// it spans: only whole-byte numeric shapes can carry a constraint here.
/// Unsigned readings wrap to the signed 64-bit domain, exactly as the
/// codec's own validation reads them, so both passes reach one verdict.
pub open spec fn numeric_read(cfg: WCfg, st: WState, t: TypeSpec) -> Option<(int, nat)> {
    match t {
        TypeSpec::Base(bt) => {
            let size = spec_base_type_size(bt);
            let raw = word_val(st.data.subrange(st.pos as int, (st.pos + size) as int), cfg.big);
            if spec_is_signed(bt) || bt == BaseType::Float || bt == BaseType::Double {
                Some((sign_extend_bits(raw, 8 * size), size))
            } else {
                Some((((raw as u64) as i64) as int, size))
            }
        },
        TypeSpec::Bitfield(n) => {
            let size = ((n + 7) / 8) as nat;
            let raw = word_val(st.data.subrange(st.pos as int, (st.pos + size) as int), cfg.big);
            if size > 8 {
                None
            } else {
                Some((((raw as u64) as i64) as int, size))
            }
        },
        TypeSpec::SizedInt(bt, n) => {
            let size = ((n + 7) / 8) as nat;
            let raw = word_val(st.data.subrange(st.pos as int, (st.pos + size) as int), cfg.big);
            let masked = if n >= 64 {
                raw
            } else {
                raw % pow2(n as nat)
            };
            if size > 8 {
                None
            } else if spec_is_signed(bt) {
                Some((sign_extend_bits(masked, n as nat), size))
            } else {
                Some((((masked as u64) as i64) as int, size))
            }
        },
        _ => None,
    }
}

/// One constrained field under a validating walk: read the value, check the
/// constraint, advance.
pub open spec fn validate_read_spec(cfg: WCfg, st: WState, t: TypeSpec, c: Constraint) -> WRes {
    match numeric_read(cfg, st, t) {
        None => WRes::Fail(ErrKind::Validation),
        Some((v, size)) => if st.pos + size > st.data.len() {
            WRes::Fail(ErrKind::Short)
        } else if constraint_ok(v, c) {
            WRes::Done(WState { pos: st.pos + size, ..st })
        } else {
            WRes::Fail(ErrKind::Validation)
        },
    }
}

/// One field shape under the walk. Mirrors what the codec consumes; padding
/// bytes are zeroed when the configuration asks for it.
pub open spec fn walk_type_spec(
    cfg: WCfg,
    st: WState,
    t: TypeSpec,
    name: Option<Seq<char>>,
    fuel: nat,
) -> WRes
    decreases fuel, 0nat,
{
    if fuel == 0 {
        WRes::Fail(ErrKind::Validation)
    } else {
        match t {
            TypeSpec::Base(bt) => {
                let size = spec_base_type_size(bt);
                if st.pos + size > st.data.len() {
                    WRes::Fail(ErrKind::Short)
                } else {
                    WRes::Done(WState { pos: st.pos + size, ..st })
                }
            },
            TypeSpec::Padding(n) | TypeSpec::Reserved(n) => {
                if st.pos + n > st.data.len() {
                    WRes::Fail(ErrKind::Short)
                } else {
                    WRes::Done(
                        WState {
                            pos: (st.pos + n) as nat,
                            data: if cfg.zero {
                                zero_range(st.data, st.pos, n as nat)
                            } else {
                                st.data
                            },
                            ..st
                        },
                    )
                }
            },
            TypeSpec::Bitfield(n) | TypeSpec::SizedInt(_, n) => {
                let size = ((n + 7) / 8) as nat;
                if st.pos + size > st.data.len() {
                    WRes::Fail(ErrKind::Short)
                } else {
                    WRes::Done(WState { pos: st.pos + size, ..st })
                }
            },
            TypeSpec::LengthOf(_) | TypeSpec::CountOf(_) => {
                if st.pos + 4 > st.data.len() {
                    WRes::Fail(ErrKind::Short)
                } else {
                    let v = word_val(st.data.subrange(st.pos as int, (st.pos + 4) as int), cfg.big) as u64;
                    WRes::Done(
                        WState {
                            pos: st.pos + 4,
                            vals: match name {
                                Some(nm) => st.vals.push((nm, v)),
                                None => st.vals,
                            },
                            ..st
                        },
                    )
                }
            },
            TypeSpec::PresenceBits(n) => {
                if n != 1 && n != 2 && n != 4 {
                    WRes::Fail(ErrKind::Validation)
                } else if st.pos + n > st.data.len() {
                    WRes::Fail(ErrKind::Short)
                } else {
                    let v = word_val(
                        st.data.subrange(st.pos as int, st.pos + n),
                        cfg.big,
                    ) as u64;
                    WRes::Done(
                        WState {
                            pos: (st.pos + n) as nat,
                            presence: PresenceModel::Fixed { value: v, idx: 0 },
                            ..st
                        },
                    )
                }
            },
            TypeSpec::BitmapPresence { total_bits, presence_per_block, .. } => {
                if presence_per_block == 0 {
                    let nb = ((total_bits + 7) / 8) as nat;
                    if st.pos + nb > st.data.len() {
                        WRes::Fail(ErrKind::Short)
                    } else {
                        WRes::Done(
                            WState {
                                pos: st.pos + nb,
                                presence: PresenceModel::Var {
                                    bytes: st.data.subrange(st.pos as int, (st.pos + nb) as int),
                                    idx: 0,
                                    per_block: 0,
                                },
                                ..st
                            },
                        )
                    }
                } else {
                    let blocks = (((total_bits + presence_per_block - 1) as nat)
                        / (presence_per_block as nat));
                    match read_fx(st.data, st.pos, blocks) {
                        FxRes::Done { bytes, pos } => WRes::Done(
                            WState {
                                pos,
                                presence: PresenceModel::Var {
                                    bytes,
                                    idx: 0,
                                    per_block: presence_per_block,
                                },
                                ..st
                            },
                        ),
                        FxRes::Fail(e) => WRes::Fail(e),
                    }
                }
            },
            TypeSpec::PaddingBits(n) => {
                let size = ((n + 7) / 8) as nat;
                if st.pos + size > st.data.len() {
                    WRes::Fail(ErrKind::Short)
                } else {
                    WRes::Done(
                        WState {
                            pos: st.pos + size,
                            data: if cfg.zero {
                                zero_range(st.data, st.pos, size)
                            } else {
                                st.data
                            },
                            ..st
                        },
                    )
                }
            },
            TypeSpec::StructRef(nm) => {
                let si = find_name(
                    Seq::new(cfg.structs.len(), |k: int| cfg.structs[k].name@),
                    nm@,
                    0,
                );
                if si == -1 {
                    WRes::Fail(ErrKind::UnknownStruct)
                } else {
                    match walk_sfields_spec(
                        cfg,
                        WState { presence: PresenceModel::NoSource, ..st },
                        cfg.structs[si].fields@,
                        0,
                        (fuel - 1) as nat,
                    ) {
                        WRes::Done(st2) => WRes::Done(WState { presence: st.presence, ..st2 }),
                        WRes::Fail(e) => WRes::Fail(e),
                    }
                }
            },
            TypeSpec::Array(elem, len) => {
                match (match len {
                    ArrayLen::Constant(k) => Some(k),
                    ArrayLen::FieldRef(f) => wget(st.vals, f@),
                }) {
                    None => WRes::Fail(ErrKind::UnknownField),
                    Some(k) => walk_items_spec(cfg, st, *elem, k as nat, (fuel - 1) as nat),
                }
            },
            TypeSpec::List(elem) => {
                if st.pos + 4 > st.data.len() {
                    WRes::Fail(ErrKind::Short)
                } else {
                    let k = word_val(st.data.subrange(st.pos as int, (st.pos + 4) as int), cfg.big);
                    walk_items_spec(
                        cfg,
                        WState { pos: st.pos + 4, ..st },
                        *elem,
                        k,
                        (fuel - 1) as nat,
                    )
                }
            },
            TypeSpec::RepList(elem) => {
                if st.pos + 1 > st.data.len() {
                    WRes::Fail(ErrKind::Short)
                } else {
                    let k = st.data[st.pos as int] as nat;
                    walk_items_spec(
                        cfg,
                        WState { pos: st.pos + 1, ..st },
                        *elem,
                        k,
                        (fuel - 1) as nat,
                    )
                }
            },
            TypeSpec::OctetsFx => WRes::Done(WState { pos: octets_end(st.data, st.pos), ..st }),
            TypeSpec::Optional(elem) => {
                match presence_bit(st.presence) {
                    None => {
                        if st.pos + 1 > st.data.len() {
                            WRes::Fail(ErrKind::Short)
                        } else {
                            let present = st.data[st.pos as int] != 0;
                            let st2 = WState { pos: st.pos + 1, ..st };
                            if present {
                                walk_type_spec(cfg, st2, *elem, None, (fuel - 1) as nat)
                            } else {
                                WRes::Done(st2)
                            }
                        }
                    },
                    Some(present) => {
                        let st2 = WState { presence: presence_step(st.presence), ..st };
                        if present {
                            walk_type_spec(cfg, st2, *elem, None, (fuel - 1) as nat)
                        } else {
                            WRes::Done(st2)
                        }
                    },
                }
            },
        }
    }
}

/// `n` consecutive items of one element shape.
pub open spec fn walk_items_spec(cfg: WCfg, st: WState, elem: TypeSpec, n: nat, fuel: nat) -> WRes
    decreases fuel, n,
{
    if n == 0 {
        WRes::Done(st)
    } else {
        match walk_type_spec(cfg, st, elem, None, fuel) {
            WRes::Done(st2) => walk_items_spec(cfg, st2, elem, (n - 1) as nat, fuel),
            WRes::Fail(e) => WRes::Fail(e),
        }
    }
}

/// The fields of a message body from index `i` on: conditional fields whose
/// condition fails are skipped; under a validating walk, constrained fields
/// are read and checked.
pub open spec fn walk_mfields_spec(
    cfg: WCfg,
    st: WState,
    fields: Seq<MessageField>,
    i: nat,
    fuel: nat,
) -> WRes
    decreases fuel, fields.len() - i,
{
    if fuel == 0 {
        WRes::Fail(ErrKind::Validation)
    } else if i >= fields.len() {
        WRes::Done(st)
    } else {
        let f = fields[i as int];
        if (match f.condition {
            Some(c) => !cond_passes(st.vals, c),
            None => false,
        }) {
            walk_mfields_spec(cfg, st, fields, i + 1, fuel)
        } else if cfg.validate && f.constraint is Some {
            match validate_read_spec(cfg, st, f.type_spec, f.constraint->Some_0) {
                WRes::Done(st2) => walk_mfields_spec(cfg, st2, fields, i + 1, fuel),
                WRes::Fail(e) => WRes::Fail(e),
            }
        } else {
            match walk_type_spec(cfg, st, f.type_spec, Some(f.name@), (fuel - 1) as nat) {
                WRes::Done(st2) => walk_mfields_spec(cfg, st2, fields, i + 1, fuel),
                WRes::Fail(e) => WRes::Fail(e),
            }
        }
    }
}

/// The fields of a struct body from index `i` on.
pub open spec fn walk_sfields_spec(
    cfg: WCfg,
    st: WState,
    fields: Seq<StructField>,
    i: nat,
    fuel: nat,
) -> WRes
    decreases fuel, fields.len() - i,
{
    if fuel == 0 {
        WRes::Fail(ErrKind::Validation)
    } else if i >= fields.len() {
        WRes::Done(st)
    } else {
        let f = fields[i as int];
        if (match f.condition {
            Some(c) => !cond_passes(st.vals, c),
            None => false,
        }) {
            walk_sfields_spec(cfg, st, fields, i + 1, fuel)
        } else if cfg.validate && f.constraint is Some {
            match validate_read_spec(cfg, st, f.type_spec, f.constraint->Some_0) {
                WRes::Done(st2) => walk_sfields_spec(cfg, st2, fields, i + 1, fuel),
                WRes::Fail(e) => WRes::Fail(e),
            }
        } else {
            match walk_type_spec(cfg, st, f.type_spec, Some(f.name@), (fuel - 1) as nat) {
                WRes::Done(st2) => walk_sfields_spec(cfg, st2, fields, i + 1, fuel),
                WRes::Fail(e) => WRes::Fail(e),
            }
        }
    }
}

/// End position of a variable-length byte run: bytes are consumed while bit
/// 7 is set; the terminating byte is included; the run may also end with the
/// buffer.
pub open spec fn octets_end(data: Seq<u8>, pos: nat) -> nat
    decreases data.len() - pos,
{
    if pos >= data.len() {
        pos
    } else if data[pos as int] & 0x80 == 0 {
        pos + 1
    } else {
        octets_end(data, pos + 1)
    }
}

/// One whole message under the walk: the named message's fields from a fresh
/// scope at `start`.
pub open spec fn walk_message_spec(
    p: Protocol,
    cfg: WCfg,
    data: Seq<u8>,
    start: nat,
    name: Seq<char>,
    fuel: nat,
) -> WRes {
    let mi = find_name(message_names(p), name, 0);
    if mi == -1 {
        WRes::Fail(ErrKind::UnknownStruct)
    } else {
        walk_mfields_spec(
            cfg,
            WState { pos: start, data, vals: Seq::empty(), presence: PresenceModel::NoSource },
            p.messages@[mi].fields@,
            0,
            fuel,
        )
    }
}

/// Struct-nesting budget of the walk and the codec: each descent into a
/// nested shape spends one unit, so this covers far deeper protocols than
/// any sane description; exhausting it is reported as a structural error.
pub const MAX_DEPTH: u32 = 240;

/// Presence source of an executable walker.
#[derive(Debug)]
pub enum WalkPresence {
    /// No presence field seen yet in this scope.
    NoSource,
    /// Fixed bitmap and the index of the next bit.
    Bitmap(u64, usize),
    /// Variable bitmap bytes, the index of the next bit, and the presence
    /// bits each block carries.
    Var { bytes: Vec<u8>, idx: usize, per_block: u32 },
}

impl View for WalkPresence {
    type V = PresenceModel;

    open spec fn view(&self) -> PresenceModel {
        match self {
            WalkPresence::NoSource => PresenceModel::NoSource,
            WalkPresence::Bitmap(value, idx) => PresenceModel::Fixed { value: *value, idx: *idx },
            WalkPresence::Var { bytes, idx, per_block } => PresenceModel::Var {
                bytes: bytes@,
                idx: *idx,
                per_block: *per_block,
            },
        }
    }
}

/// Per-walk context: integers recorded for later field references, and the
/// presence source.
#[derive(Debug)]
pub struct WalkContext {
    pub values: Vec<(String, u64)>,
    pub presence: WalkPresence,
}

/// Model of the recorded integers.
pub open spec fn ctx_vals_view(v: Seq<(String, u64)>) -> Seq<(Seq<char>, u64)> {
    Seq::new(v.len(), |i: int| (v[i].0@, v[i].1))
}

/// Looks a name up among the recorded integers, most recent entry first.
fn wctx_get(vals: &Vec<(String, u64)>, key: &str) -> (r: Option<u64>)
    ensures
        r == wget(ctx_vals_view(vals@), key@),
{
    let ghost view = ctx_vals_view(vals@);
    let n = vals.len();
    let mut i: usize = n;
    proof {
        lemma_wfind_range(view, key@);
        assert(view.take(n as int) =~= view);
    }
    loop
        invariant
            i <= n,
            n == vals@.len(),
            view == ctx_vals_view(vals@),
            view.len() == n,
            wfind(view, key@) == wfind(view.take(i as int), key@),
        decreases i,
    {
        proof {
            lemma_wfind_range(view.take(i as int), key@);
        }
        if i == 0 {
            assert(view.take(0) =~= Seq::<(Seq<char>, u64)>::empty());
            return None;
        }
        i = i - 1;
        if str_eq(vals[i].0.as_str(), key) {
            assert(view.take(i + 1).drop_last() =~= view.take(i as int));
            assert(wfind(view, key@) == i);
            return Some(vals[i].1);
        }
        proof {
            assert(view.take(i + 1).drop_last() =~= view.take(i as int));
        }
    }
}

proof fn lemma_wfind_range(vals: Seq<(Seq<char>, u64)>, key: Seq<char>)
    ensures
        -1 <= wfind(vals, key) < vals.len(),
        wfind(vals, key) >= 0 ==> vals[wfind(vals, key)].0 == key,
    decreases vals.len(),
{
    if vals.len() > 0 && vals[vals.len() - 1].0 != key {
        lemma_wfind_range(vals.drop_last(), key);
    }
}

/// Whether a conditional field participates, given the recorded integers.
fn cond_check(vals: &Vec<(String, u64)>, c: &Condition) -> (r: bool)
    ensures
        r == cond_passes(ctx_vals_view(vals@), *c),
{
    let cv: Option<i64> = match wctx_get(vals, c.field.as_str()) {
        Some(u) => Some(u as i64),
        None => None,
    };
    let exp = c.value.as_i64();
    match (cv, exp) {
        (Some(a), Some(b)) => a == b,
        (None, None) => true,
        _ => false,
    }
}

/// `2^n` for shift-free bit arithmetic.
pub(crate) fn pow2_u64(n: u64) -> (r: u64)
    requires
        n < 64,
    ensures
        r == pow2(n as nat),
{
    let mut acc: u64 = 1;
    let mut i: u64 = 0;
    proof {
        lemma2_to64();
    }
    while i < n
        invariant
            i <= n < 64,
            acc == pow2(i as nat),
        decreases n - i,
    {
        proof {
            lemma_pow2_strictly_increases((i + 1) as nat, 64);
            lemma2_to64();
            vstd::arithmetic::power2::lemma_pow2_unfold((i + 1) as nat);
        }
        acc = acc * 2;
        i = i + 1;
    }
    acc
}

/// Reads an FX-terminated run of bitmap bytes: up to `blocks` bytes, ending
/// with the first whose bit 0 is clear.
pub(crate) fn read_fx_exec(data: &[u8], pos: usize, blocks: u64) -> (r: Result<(Vec<u8>, usize), CodecError>)
    ensures
        match r {
            Ok((bytes, p)) => read_fx(data@, pos as nat, blocks as nat) == (FxRes::Done {
                bytes: bytes@,
                pos: p as nat,
            }) && pos <= p,
            Err(e) => read_fx(data@, pos as nat, blocks as nat) == FxRes::Fail(e@),
        },
{
    let dn = data.len();
    let mut bytes: Vec<u8> = Vec::new();
    let mut cur: usize = pos;
    let mut rem: u64 = blocks;
    loop
        invariant
            dn == data@.len(),
            rem <= blocks,
            pos <= cur,
            fx_prepend(bytes@, read_fx(data@, cur as nat, rem as nat)) == read_fx(
                data@,
                pos as nat,
                blocks as nat,
            ),
        decreases rem,
    {
        if rem == 0 {
            proof {
                assert(bytes@ + Seq::<u8>::empty() =~= bytes@);
            }
            return Ok((bytes, cur));
        }
        if cur >= dn {
            return Err(CodecError::ShortBuffer);
        }
        let b = data[cur];
        if b & 1 == 0 {
            proof {
                assert(bytes@ + seq![b] =~= bytes@.push(b));
            }
            bytes.push(b);
            return Ok((bytes, cur + 1));
        }
        if rem == 1 {
            return Err(
                CodecError::Validation(String::from_str("last FSPEC byte must have FX=0")),
            );
        }
        proof {
            let tail = read_fx(data@, (cur + 1) as nat, (rem - 1) as nat);
            assert(read_fx(data@, cur as nat, rem as nat) == fx_prepend(seq![b], tail));
            lemma_fx_prepend_assoc(bytes@, seq![b], tail);
            assert(bytes@ + seq![b] =~= bytes@.push(b));
        }
        bytes.push(b);
        cur = cur + 1;
        rem = rem - 1;
    }
}

/// Prepends already-read bytes to the outcome of reading the rest.
pub open spec fn fx_prepend(pre: Seq<u8>, r: FxRes) -> FxRes {
    match r {
        FxRes::Done { bytes, pos } => FxRes::Done { bytes: pre + bytes, pos },
        FxRes::Fail(e) => FxRes::Fail(e),
    }
}

proof fn lemma_fx_prepend_assoc(a: Seq<u8>, b: Seq<u8>, r: FxRes)
    ensures
        fx_prepend(a, fx_prepend(b, r)) == fx_prepend(a + b, r),
{
    match r {
        FxRes::Done { bytes, pos } => {
            assert(a + (b + bytes) =~= (a + b) + bytes);
        },
        FxRes::Fail(_) => {},
    }
}

/// Read-only walker: advances over binary data by following the message and
/// struct layout, without building values.
pub struct BinaryWalker<'a> {
    pub data: &'a [u8],
    pub pos: usize,
    pub resolved: &'a ResolvedProtocol,
    pub endianness: Endianness,
    pub ctx: WalkContext,
}

impl<'a> BinaryWalker<'a> {
    /// The walker's state, as the specification interpreter sees it.
    pub open spec fn state(&self) -> WState {
        WState {
            pos: self.pos as nat,
            data: self.data@,
            vals: ctx_vals_view(self.ctx.values@),
            presence: self.ctx.presence@,
        }
    }

    /// The walker's configuration for a pass that may validate.
    pub open spec fn cfg(&self, validate: bool) -> WCfg {
        WCfg {
            structs: self.resolved.protocol.structs@,
            big: self.endianness is Big,
            zero: false,
            validate,
        }
    }

    /// What a walker step leaves untouched.
    pub open spec fn frame(&self, other: &Self) -> bool {
        self.data == other.data && self.resolved == other.resolved && self.endianness
            == other.endianness
    }

    /// A walker at the start of the buffer.
    pub fn new(data: &'a [u8], resolved: &'a ResolvedProtocol, endianness: Endianness) -> (r:
        Self)
        ensures
            r.state() == (WState {
                pos: 0,
                data: data@,
                vals: Seq::<(Seq<char>, u64)>::empty(),
                presence: PresenceModel::NoSource,
            }),
            r.resolved == resolved,
            r.data == data,
            r.endianness == endianness,
    {
        let w = BinaryWalker {
            data,
            pos: 0,
            resolved,
            endianness,
            ctx: WalkContext { values: Vec::new(), presence: WalkPresence::NoSource },
        };
        proof {
            assert(ctx_vals_view(w.ctx.values@) =~= Seq::<(Seq<char>, u64)>::empty());
        }
        w
    }

    /// A walker at the given offset.
    pub fn at(
        data: &'a [u8],
        start: usize,
        resolved: &'a ResolvedProtocol,
        endianness: Endianness,
    ) -> (r: Self)
        ensures
            r.state() == (WState {
                pos: start as nat,
                data: data@,
                vals: Seq::<(Seq<char>, u64)>::empty(),
                presence: PresenceModel::NoSource,
            }),
            r.resolved == resolved,
            r.data == data,
            r.endianness == endianness,
    {
        let w = BinaryWalker {
            data,
            pos: start,
            resolved,
            endianness,
            ctx: WalkContext { values: Vec::new(), presence: WalkPresence::NoSource },
        };
        proof {
            assert(ctx_vals_view(w.ctx.values@) =~= Seq::<(Seq<char>, u64)>::empty());
        }
        w
    }

    /// The current byte position.
    pub fn position(&self) -> (r: usize)
        ensures
            r == self.state().pos,
    {
        self.pos
    }

    /// The bytes from the current position to the end; empty when the
    /// position has run past the buffer.
    pub fn remaining(&self) -> (r: &[u8])
        ensures
            self.pos <= self.data@.len() ==> r@ == self.data@.skip(self.pos as int),
            self.pos > self.data@.len() ==> r@.len() == 0,
    {
        if self.pos <= self.data.len() {
            slice_skip(self.data, self.pos)
        } else {
            slice_skip(self.data, self.data.len())
        }
    }

    /// Skips one message by structure and returns the number of bytes
    /// consumed, exactly as the specification interpreter walks it.
    pub fn skip_message(&mut self, message_name: &str) -> (r: Result<usize, CodecError>)
        ensures
            final(self).frame(old(self)),
            ({
                let mi = find_name(message_names(old(self).resolved.protocol), message_name@, 0);
                match r {
                    Ok(n) => mi >= 0 && walk_mfields_spec(
                        old(self).cfg(false),
                        old(self).state(),
                        old(self).resolved.protocol.messages@[mi].fields@,
                        0,
                        MAX_DEPTH as nat,
                    ) == WRes::Done(final(self).state()) && old(self).pos + n == final(self).pos,
                    Err(e) => {
                        if mi == -1 {
                            e@ == ErrKind::UnknownStruct && final(self).state() == old(
                                self,
                            ).state()
                        } else {
                            walk_mfields_spec(
                                old(self).cfg(false),
                                old(self).state(),
                                old(self).resolved.protocol.messages@[mi].fields@,
                                0,
                                MAX_DEPTH as nat,
                            ) == WRes::Fail(e@)
                        }
                    },
                }
            }),
    {
        let start = self.pos;
        let resolved = self.resolved;
        let msg = match resolved.get_message(message_name) {
            Some(m) => m,
            None => {
                return Err(CodecError::UnknownStruct(clone_str_ref(message_name)));
            },
        };
        match self.walk_mfields_i(&msg.fields, false, MAX_DEPTH) {
            Ok(()) => Ok(self.pos - start),
            Err(e) => Err(e),
        }
    }

    /// Validates the current message in place: every constrained field is
    /// read and range- or enum-checked; nothing is allocated.
    pub fn validate_message(&mut self, message_name: &str) -> (r: Result<(), CodecError>)
        ensures
            final(self).frame(old(self)),
            ({
                let mi = find_name(message_names(old(self).resolved.protocol), message_name@, 0);
                match r {
                    Ok(()) => mi >= 0 && walk_mfields_spec(
                        old(self).cfg(true),
                        old(self).state(),
                        old(self).resolved.protocol.messages@[mi].fields@,
                        0,
                        MAX_DEPTH as nat,
                    ) == WRes::Done(final(self).state()),
                    Err(e) => {
                        if mi == -1 {
                            e@ == ErrKind::UnknownStruct && final(self).state() == old(
                                self,
                            ).state()
                        } else {
                            walk_mfields_spec(
                                old(self).cfg(true),
                                old(self).state(),
                                old(self).resolved.protocol.messages@[mi].fields@,
                                0,
                                MAX_DEPTH as nat,
                            ) == WRes::Fail(e@)
                        }
                    },
                }
            }),
    {
        let resolved = self.resolved;
        let msg = match resolved.get_message(message_name) {
            Some(m) => m,
            None => {
                return Err(CodecError::UnknownStruct(clone_str_ref(message_name)));
            },
        };
        self.walk_mfields_i(&msg.fields, true, MAX_DEPTH)
    }

    /// The fields of a message body, in declaration order.
    fn walk_mfields_i(&mut self, fields: &Vec<MessageField>, validate: bool, depth: u32) -> (r:
        Result<(), CodecError>)
        ensures
            final(self).frame(old(self)),
            match r {
                Ok(()) => walk_mfields_spec(
                    old(self).cfg(validate),
                    old(self).state(),
                    fields@,
                    0,
                    depth as nat,
                ) == WRes::Done(final(self).state()) && final(self).pos >= old(self).pos,
                Err(e) => walk_mfields_spec(
                    old(self).cfg(validate),
                    old(self).state(),
                    fields@,
                    0,
                    depth as nat,
                ) == WRes::Fail(e@),
            },
        decreases depth, 1nat,
    {
        let ghost res0 = walk_mfields_spec(
            self.cfg(validate),
            self.state(),
            fields@,
            0,
            depth as nat,
        );
        if depth == 0 {
            return Err(CodecError::Validation(String::from_str("structure nested too deeply")));
        }
        let n = fields.len();
        let mut i: usize = 0;
        while i < n
            invariant
                i <= n,
                n == fields@.len(),
                depth >= 1,
                self.data == old(self).data,
                self.resolved == old(self).resolved,
                self.endianness == old(self).endianness,
                self.pos >= old(self).pos,
                res0 == walk_mfields_spec(
                    old(self).cfg(validate),
                    old(self).state(),
                    fields@,
                    0,
                    depth as nat,
                ),
                old(self).cfg(validate) == self.cfg(validate),
                res0 == walk_mfields_spec(
                    self.cfg(validate),
                    self.state(),
                    fields@,
                    i as nat,
                    depth as nat,
                ),
            decreases n - i,
        {
            let f = &fields[i];
            let mut skip_this = false;
            if let Some(c) = &f.condition {
                if !cond_check(&self.ctx.values, c) {
                    skip_this = true;
                }
            }
            if !skip_this {
                if validate && f.constraint.is_some() {
                    match self.validate_field_i(f.name.as_str(), &f.type_spec, f.constraint.as_ref().unwrap()) {
                        Ok(()) => {},
                        Err(e) => {
                            return Err(e);
                        },
                    }
                } else {
                    match self.skip_type_i(&f.type_spec, Some(&f.name), validate, depth - 1) {
                        Ok(()) => {},
                        Err(e) => {
                            return Err(e);
                        },
                    }
                }
            }
            i = i + 1;
        }
        Ok(())
    }

    /// The fields of a struct body, in declaration order.
    fn walk_sfields_i(&mut self, fields: &Vec<StructField>, validate: bool, depth: u32) -> (r:
        Result<(), CodecError>)
        ensures
            final(self).frame(old(self)),
            match r {
                Ok(()) => walk_sfields_spec(
                    old(self).cfg(validate),
                    old(self).state(),
                    fields@,
                    0,
                    depth as nat,
                ) == WRes::Done(final(self).state()) && final(self).pos >= old(self).pos,
                Err(e) => walk_sfields_spec(
                    old(self).cfg(validate),
                    old(self).state(),
                    fields@,
                    0,
                    depth as nat,
                ) == WRes::Fail(e@),
            },
        decreases depth, 1nat,
    {
        let ghost res0 = walk_sfields_spec(
            self.cfg(validate),
            self.state(),
            fields@,
            0,
            depth as nat,
        );
        if depth == 0 {
            return Err(CodecError::Validation(String::from_str("structure nested too deeply")));
        }
        let n = fields.len();
        let mut i: usize = 0;
        while i < n
            invariant
                i <= n,
                n == fields@.len(),
                depth >= 1,
                self.data == old(self).data,
                self.resolved == old(self).resolved,
                self.endianness == old(self).endianness,
                self.pos >= old(self).pos,
                res0 == walk_sfields_spec(
                    old(self).cfg(validate),
                    old(self).state(),
                    fields@,
                    0,
                    depth as nat,
                ),
                old(self).cfg(validate) == self.cfg(validate),
                res0 == walk_sfields_spec(
                    self.cfg(validate),
                    self.state(),
                    fields@,
                    i as nat,
                    depth as nat,
                ),
            decreases n - i,
        {
            let f = &fields[i];
            let mut skip_this = false;
            if let Some(c) = &f.condition {
                if !cond_check(&self.ctx.values, c) {
                    skip_this = true;
                }
            }
            if !skip_this {
                if validate && f.constraint.is_some() {
                    match self.validate_field_i(f.name.as_str(), &f.type_spec, f.constraint.as_ref().unwrap()) {
                        Ok(()) => {},
                        Err(e) => {
                            return Err(e);
                        },
                    }
                } else {
                    match self.skip_type_i(&f.type_spec, Some(&f.name), validate, depth - 1) {
                        Ok(()) => {},
                        Err(e) => {
                            return Err(e);
                        },
                    }
                }
            }
            i = i + 1;
        }
        Ok(())
    }

    /// One constrained field under a validating walk: read, check, advance.
    fn validate_field_i(&mut self, name: &str, t: &TypeSpec, c: &Constraint) -> (r: Result<(), CodecError>)
        ensures
            final(self).frame(old(self)),
            final(self).state().vals == old(self).state().vals,
            final(self).state().presence == old(self).state().presence,
            match r {
                Ok(()) => validate_read_spec(old(self).cfg(true), old(self).state(), *t, *c)
                    == WRes::Done(final(self).state()) && final(self).pos >= old(self).pos,
                Err(e) => validate_read_spec(old(self).cfg(true), old(self).state(), *t, *c)
                    == WRes::Fail(e@) && final(self).state() == old(self).state(),
            },
    {
        let big = matches!(self.endianness, Endianness::Big);
        let (v, size): (i64, usize) = match t {
            TypeSpec::Base(bt) => {
                let size = base_type_size(bt);
                if self.pos > self.data.len() || self.data.len() - self.pos < size {
                    return Err(CodecError::ShortBuffer);
                }
                let raw = read_word(self.data, self.pos, size, big);
                proof {
                    assert(self.data@.subrange(self.pos as int, self.pos + size as int)
                        =~= self.data@.subrange(self.pos as int, (self.pos + size) as int));
                }
                proof {
                    crate::wire::lemma_be_val_bound(
                        self.data@.subrange(self.pos as int, self.pos + size as int),
                    );
                    crate::wire::lemma_le_val_bound(
                        self.data@.subrange(self.pos as int, self.pos + size as int),
                    );
                    crate::wire::lemma_pow256_pow2(size as nat);
                }
                let signed = matches!(
                    bt,
                    BaseType::I8 | BaseType::I16 | BaseType::I32 | BaseType::I64 | BaseType::Float
                        | BaseType::Double
                );
                let v = if signed {
                    sign_extend_exec(raw, 8 * (size as u64))
                } else {
                    #[verifier::truncate] (raw as i64)
                };
                (v, size)
            },
            TypeSpec::Bitfield(n) => {
                let size64 = bits_to_bytes(*n);
                if size64 > 8 {
                    return Err(
                    CodecError::Validation(
                        String::from_str("").concat(name).concat(": not a numeric type"),
                    ),
                );
                }
                let size = size64 as usize;
                if self.pos > self.data.len() || self.data.len() - self.pos < size {
                    return Err(CodecError::ShortBuffer);
                }
                let raw = read_word(self.data, self.pos, size, big);
                (#[verifier::truncate] (raw as i64), size)
            },
            TypeSpec::SizedInt(bt, n) => {
                let size64 = bits_to_bytes(*n);
                if size64 > 8 {
                    return Err(
                    CodecError::Validation(
                        String::from_str("").concat(name).concat(": not a numeric type"),
                    ),
                );
                }
                let size = size64 as usize;
                if self.pos > self.data.len() || self.data.len() - self.pos < size {
                    return Err(CodecError::ShortBuffer);
                }
                let raw = read_word(self.data, self.pos, size, big);
                proof {
                    crate::wire::lemma_be_val_bound(
                        self.data@.subrange(self.pos as int, self.pos + size as int),
                    );
                    crate::wire::lemma_le_val_bound(
                        self.data@.subrange(self.pos as int, self.pos + size as int),
                    );
                    crate::wire::lemma_pow256_pow2(size as nat);
                }
                let masked = if *n >= 64 {
                    raw
                } else {
                    proof {
                        lemma_pow2_pos(*n as nat);
                    }
                    raw % pow2_u64(*n)
                };
                let signed = matches!(bt, BaseType::I8 | BaseType::I16 | BaseType::I32 | BaseType::I64);
                let v = if signed {
                    if *n == 0 {
                        0i64
                    } else {
                        sign_extend_exec(masked, if *n >= 64 { 64 } else { *n })
                    }
                } else {
                    #[verifier::truncate] (masked as i64)
                };
                (v, size)
            },
            _ => {
                return Err(
                    CodecError::Validation(
                        String::from_str("").concat(name).concat(": not a numeric type"),
                    ),
                );
            },
        };
        if !check_constraint(v, c) {
            return Err(CodecError::Validation(constraint_fail_msg(name, v, c)));
        }
        self.pos = self.pos + size;
        Ok(())
    }

    /// One field shape: advance by exactly what the codec would consume.
    #[verifier::rlimit(100)]
    fn skip_type_i(
        &mut self,
        t: &TypeSpec,
        name: Option<&String>,
        validate: bool,
        depth: u32,
    ) -> (r: Result<(), CodecError>)
        ensures
            final(self).frame(old(self)),
            match r {
                Ok(()) => walk_type_spec(
                    old(self).cfg(validate),
                    old(self).state(),
                    *t,
                    name_view(name),
                    depth as nat,
                ) == WRes::Done(final(self).state()) && final(self).pos >= old(self).pos,
                Err(e) => walk_type_spec(
                    old(self).cfg(validate),
                    old(self).state(),
                    *t,
                    name_view(name),
                    depth as nat,
                ) == WRes::Fail(e@),
            },
        decreases depth, 0nat,
    {
        if depth == 0 {
            return Err(CodecError::Validation(String::from_str("structure nested too deeply")));
        }
        let big = matches!(self.endianness, Endianness::Big);
        let dn = self.data.len();
        match t {
            TypeSpec::Base(bt) => {
                let size = base_type_size(bt);
                if self.pos > dn || dn - self.pos < size {
                    return Err(CodecError::ShortBuffer);
                }
                self.pos = self.pos + size;
                Ok(())
            },
            TypeSpec::Padding(n) | TypeSpec::Reserved(n) => {
                if self.pos > dn || ((dn - self.pos) as u64) < *n {
                    return Err(CodecError::ShortBuffer);
                }
                self.pos = self.pos + (*n as usize);
                Ok(())
            },
            TypeSpec::Bitfield(n) | TypeSpec::SizedInt(_, n) => {
                let size = bits_to_bytes(*n);
                if self.pos > dn || ((dn - self.pos) as u64) < size {
                    return Err(CodecError::ShortBuffer);
                }
                self.pos = self.pos + (size as usize);
                Ok(())
            },
            TypeSpec::LengthOf(_) | TypeSpec::CountOf(_) => {
                if self.pos > dn || dn - self.pos < 4 {
                    return Err(CodecError::ShortBuffer);
                }
                let v = read_word(self.data, self.pos, 4, big);
                if let Some(nm) = name {
                    let key = clone_str_ref(nm.as_str());
                    proof {
                        assert(ctx_vals_view(self.ctx.values@.push((key, v))) =~= ctx_vals_view(
                            self.ctx.values@,
                        ).push((nm@, v)));
                    }
                    self.ctx.values.push((key, v));
                }
                self.pos = self.pos + 4;
                Ok(())
            },
            TypeSpec::PresenceBits(n) => {
                if !(*n == 1 || *n == 2 || *n == 4) {
                    return Err(
                        CodecError::Validation(
                            String::from_str("presence_bits(n): n must be 1, 2, or 4"),
                        ),
                    );
                }
                let nb = *n as usize;
                if self.pos > dn || dn - self.pos < nb {
                    return Err(CodecError::ShortBuffer);
                }
                let v = read_word(self.data, self.pos, nb, big);
                self.ctx.presence = WalkPresence::Bitmap(v, 0);
                self.pos = self.pos + nb;
                Ok(())
            },
            TypeSpec::BitmapPresence { total_bits, presence_per_block, .. } => {
                if *presence_per_block == 0 {
                    let nb = (((*total_bits as u64) + 7) / 8) as usize;
                    if self.pos > dn || dn - self.pos < nb {
                        return Err(CodecError::ShortBuffer);
                    }
                    let bytes = slice_range_to_vec(self.data, self.pos, nb);
                    self.ctx.presence = WalkPresence::Var { bytes, idx: 0, per_block: 0 };
                    self.pos = self.pos + nb;
                    Ok(())
                } else {
                    let blocks = ((*total_bits as u64) + (*presence_per_block as u64) - 1) / (
                    *presence_per_block as u64);
                    match read_fx_exec(self.data, self.pos, blocks) {
                        Ok((bytes, p)) => {
                            self.ctx.presence = WalkPresence::Var {
                                bytes,
                                idx: 0,
                                per_block: *presence_per_block,
                            };
                            self.pos = p;
                            Ok(())
                        },
                        Err(e) => Err(e),
                    }
                }
            },
            TypeSpec::PaddingBits(n) => {
                let size = bits_to_bytes(*n);
                if self.pos > dn || ((dn - self.pos) as u64) < size {
                    return Err(CodecError::ShortBuffer);
                }
                self.pos = self.pos + (size as usize);
                Ok(())
            },
            TypeSpec::StructRef(nm) => {
                let resolved = self.resolved;
                let s = match resolved.get_struct(nm.as_str()) {
                    Some(s) => s,
                    None => {
                        proof {
                            assert(struct_names(resolved.protocol) =~= Seq::new(
                                self.cfg(validate).structs.len(),
                                |k: int| self.cfg(validate).structs[k].name@,
                            ));
                        }
                        return Err(CodecError::UnknownStruct(clone_str_ref(nm.as_str())));
                    },
                };
                proof {
                    assert(struct_names(resolved.protocol) =~= Seq::new(
                        self.cfg(validate).structs.len(),
                        |k: int| self.cfg(validate).structs[k].name@,
                    ));
                }
                let mut saved = WalkPresence::NoSource;
                core::mem::swap(&mut saved, &mut self.ctx.presence);
                self.ctx.presence = WalkPresence::NoSource;
                let res = self.walk_sfields_i(&s.fields, validate, depth - 1);
                match res {
                    Ok(()) => {
                        self.ctx.presence = saved;
                        Ok(())
                    },
                    Err(e) => {
                        self.ctx.presence = saved;
                        Err(e)
                    },
                }
            },
            TypeSpec::Array(elem, len) => {
                let k: u64 = match len {
                    ArrayLen::Constant(k) => *k,
                    ArrayLen::FieldRef(f) => match wctx_get(&self.ctx.values, f.as_str()) {
                        Some(v) => v,
                        None => {
                            return Err(CodecError::UnknownField(clone_str_ref(f.as_str())));
                        },
                    },
                };
                self.walk_items_i(elem, k, validate, depth - 1)
            },
            TypeSpec::List(elem) => {
                if self.pos > dn || dn - self.pos < 4 {
                    return Err(CodecError::ShortBuffer);
                }
                let k = read_word(self.data, self.pos, 4, big);
                self.pos = self.pos + 4;
                self.walk_items_i(elem, k, validate, depth - 1)
            },
            TypeSpec::RepList(elem) => {
                if self.pos >= dn {
                    return Err(CodecError::ShortBuffer);
                }
                let k = self.data[self.pos] as u64;
                self.pos = self.pos + 1;
                self.walk_items_i(elem, k, validate, depth - 1)
            },
            TypeSpec::OctetsFx => {
                let p0 = self.pos;
                let mut cur = self.pos;
                while cur < dn
                    invariant_except_break
                        dn == self.data@.len(),
                        p0 <= cur,
                        cur <= dn || cur == p0,
                        octets_end(self.data@, cur as nat) == octets_end(self.data@, p0 as nat),
                    ensures
                        p0 <= cur,
                        cur as nat == octets_end(self.data@, p0 as nat),
                    decreases dn - cur,
                {
                    let b = self.data[cur];
                    cur = cur + 1;
                    if b & 0x80 == 0 {
                        break;
                    }
                }
                self.pos = cur;
                Ok(())
            },
            TypeSpec::Optional(elem) => {
                let mut taken = WalkPresence::NoSource;
                core::mem::swap(&mut taken, &mut self.ctx.presence);
                let pb: Option<bool> = match taken {
                    WalkPresence::NoSource => {
                        self.ctx.presence = WalkPresence::NoSource;
                        None
                    },
                    WalkPresence::Bitmap(value, idx) => {
                        let bit = idx < 64 && ((value >> (idx as u64)) & 1) == 1;
                        let idx2 = if idx == usize::MAX {
                            idx
                        } else {
                            idx + 1
                        };
                        self.ctx.presence = WalkPresence::Bitmap(value, idx2);
                        Some(bit)
                    },
                    WalkPresence::Var { bytes, idx, per_block } => {
                        let bit: bool;
                        if per_block == 0 {
                            let bi = idx / 8;
                            let off = idx % 8;
                            bit = bi < bytes.len() && ((bytes[bi] >> ((7 - off) as u8)) & 1) == 1;
                        } else {
                            let bi = idx / (per_block as usize);
                            let off = idx % (per_block as usize);
                            bit = bi < bytes.len() && off < 8 && ((bytes[bi] >> ((7 - off) as u8))
                                & 1) == 1;
                        }
                        let idx2 = if idx == usize::MAX {
                            idx
                        } else {
                            idx + 1
                        };
                        self.ctx.presence = WalkPresence::Var { bytes, idx: idx2, per_block };
                        Some(bit)
                    },
                };
                match pb {
                    None => {
                        if self.pos >= dn {
                            return Err(CodecError::ShortBuffer);
                        }
                        let present = self.data[self.pos] != 0;
                        self.pos = self.pos + 1;
                        if present {
                            self.skip_type_i(elem, None, validate, depth - 1)
                        } else {
                            Ok(())
                        }
                    },
                    Some(present) => {
                        if present {
                            self.skip_type_i(elem, None, validate, depth - 1)
                        } else {
                            Ok(())
                        }
                    },
                }
            },
        }
    }

    /// `n` consecutive items of one element shape.
    fn walk_items_i(&mut self, elem: &TypeSpec, n: u64, validate: bool, depth: u32) -> (r: Result<
        (),
        CodecError,
    >)
        ensures
            final(self).frame(old(self)),
            match r {
                Ok(()) => walk_items_spec(
                    old(self).cfg(validate),
                    old(self).state(),
                    *elem,
                    n as nat,
                    depth as nat,
                ) == WRes::Done(final(self).state()) && final(self).pos >= old(self).pos,
                Err(e) => walk_items_spec(
                    old(self).cfg(validate),
                    old(self).state(),
                    *elem,
                    n as nat,
                    depth as nat,
                ) == WRes::Fail(e@),
            },
        decreases depth, 1nat,
    {
        let ghost res0 = walk_items_spec(
            self.cfg(validate),
            self.state(),
            *elem,
            n as nat,
            depth as nat,
        );
        let mut k: u64 = 0;
        while k < n
            invariant
                k <= n,
                self.data == old(self).data,
                self.resolved == old(self).resolved,
                self.endianness == old(self).endianness,
                self.pos >= old(self).pos,
                res0 == walk_items_spec(
                    old(self).cfg(validate),
                    old(self).state(),
                    *elem,
                    n as nat,
                    depth as nat,
                ),
                old(self).cfg(validate) == self.cfg(validate),
                res0 == walk_items_spec(
                    self.cfg(validate),
                    self.state(),
                    *elem,
                    (n - k) as nat,
                    depth as nat,
                ),
            decreases n - k,
        {
            match self.skip_type_i(elem, None, validate, depth) {
                Ok(()) => {},
                Err(e) => {
                    return Err(e);
                },
            }
            k = k + 1;
        }
        Ok(())
    }
}

pub struct BinaryWalkerMut<'a> {
    pub data: &'a mut [u8],
    pub pos: usize,
    pub resolved: &'a ResolvedProtocol,
    pub endianness: Endianness,
    pub ctx: WalkContext,
}

impl<'a> BinaryWalkerMut<'a> {
    /// The walker's state, as the specification interpreter sees it.
    pub open spec fn state(&self) -> WState {
        WState {
            pos: self.pos as nat,
            data: self.data@,
            vals: ctx_vals_view(self.ctx.values@),
            presence: self.ctx.presence@,
        }
    }

    /// The walker's configuration for a pass that may validate or zero.
    pub open spec fn cfg(&self, validate: bool, zero: bool) -> WCfg {
        WCfg {
            structs: self.resolved.protocol.structs@,
            big: self.endianness is Big,
            zero,
            validate,
        }
    }

    /// What a walker step leaves untouched: the buffer may be rewritten in
    /// place but never resized.
    pub open spec fn frame(&self, other: &Self) -> bool {
        self.data@.len() == other.data@.len() && self.resolved == other.resolved
            && self.endianness == other.endianness
    }

    /// A walker at the start of the buffer.
    pub fn new(data: &'a mut [u8], resolved: &'a ResolvedProtocol, endianness: Endianness) -> (r:
        Self)
        ensures
            r.state() == (WState {
                pos: 0,
                data: old(data)@,
                vals: Seq::<(Seq<char>, u64)>::empty(),
                presence: PresenceModel::NoSource,
            }),
            r.resolved == resolved,
            r.endianness == endianness,
            final(data)@ == final(r.data)@,
    {
        let w = BinaryWalkerMut {
            data,
            pos: 0,
            resolved,
            endianness,
            ctx: WalkContext { values: Vec::new(), presence: WalkPresence::NoSource },
        };
        proof {
            assert(ctx_vals_view(w.ctx.values@) =~= Seq::<(Seq<char>, u64)>::empty());
        }
        w
    }

    /// A walker at the given offset.
    pub fn at(
        data: &'a mut [u8],
        start: usize,
        resolved: &'a ResolvedProtocol,
        endianness: Endianness,
    ) -> (r: Self)
        ensures
            r.state() == (WState {
                pos: start as nat,
                data: old(data)@,
                vals: Seq::<(Seq<char>, u64)>::empty(),
                presence: PresenceModel::NoSource,
            }),
            r.resolved == resolved,
            r.endianness == endianness,
            final(data)@ == final(r.data)@,
    {
        let w = BinaryWalkerMut {
            data,
            pos: start,
            resolved,
            endianness,
            ctx: WalkContext { values: Vec::new(), presence: WalkPresence::NoSource },
        };
        proof {
            assert(ctx_vals_view(w.ctx.values@) =~= Seq::<(Seq<char>, u64)>::empty());
        }
        w
    }

    /// The current byte position.
    pub fn position(&self) -> (r: usize)
        ensures
            r == self.state().pos,
    {
        self.pos
    }

    /// Skips one message by structure and returns the number of bytes
    /// consumed, exactly as the specification interpreter walks it.
    pub fn skip_message(&mut self, message_name: &str) -> (r: Result<usize, CodecError>)
        ensures
            final(self).frame(old(self)),
            final(self).data@ == old(self).data@,
            final(old(self).data)@ == final(final(self).data)@,
            ({
                let mi = find_name(message_names(old(self).resolved.protocol), message_name@, 0);
                match r {
                    Ok(n) => mi >= 0 && walk_mfields_spec(
                        old(self).cfg(false, false),
                        old(self).state(),
                        old(self).resolved.protocol.messages@[mi].fields@,
                        0,
                        MAX_DEPTH as nat,
                    ) == WRes::Done(final(self).state()) && old(self).pos + n == final(self).pos,
                    Err(e) => {
                        if mi == -1 {
                            e@ == ErrKind::UnknownStruct && final(self).state() == old(
                                self,
                            ).state()
                        } else {
                            walk_mfields_spec(
                                old(self).cfg(false, false),
                                old(self).state(),
                                old(self).resolved.protocol.messages@[mi].fields@,
                                0,
                                MAX_DEPTH as nat,
                            ) == WRes::Fail(e@)
                        }
                    },
                }
            }),
    {
        let start = self.pos;
        let resolved = self.resolved;
        let msg = match resolved.get_message(message_name) {
            Some(m) => m,
            None => {
                return Err(CodecError::UnknownStruct(clone_str_ref(message_name)));
            },
        };
        match self.walk_mfields_i(&msg.fields, false, false, MAX_DEPTH) {
            Ok(()) => Ok(self.pos - start),
            Err(e) => Err(e),
        }
    }

    /// One-pass validate and zero: constrained fields are checked, padding
    /// and reserved bytes are zeroed, and the byte count consumed comes back.
    pub fn validate_and_zero_message(&mut self, message_name: &str) -> (r: Result<usize, CodecError>)
        ensures
            final(self).frame(old(self)),
            final(old(self).data)@ == final(final(self).data)@,
            ({
                let mi = find_name(message_names(old(self).resolved.protocol), message_name@, 0);
                match r {
                    Ok(n) => mi >= 0 && walk_mfields_spec(
                        old(self).cfg(true, true),
                        old(self).state(),
                        old(self).resolved.protocol.messages@[mi].fields@,
                        0,
                        MAX_DEPTH as nat,
                    ) == WRes::Done(final(self).state()) && old(self).pos + n == final(self).pos,
                    Err(e) => {
                        if mi == -1 {
                            e@ == ErrKind::UnknownStruct && final(self).state() == old(
                                self,
                            ).state()
                        } else {
                            walk_mfields_spec(
                                old(self).cfg(true, true),
                                old(self).state(),
                                old(self).resolved.protocol.messages@[mi].fields@,
                                0,
                                MAX_DEPTH as nat,
                            ) == WRes::Fail(e@)
                        }
                    },
                }
            }),
    {
        let resolved = self.resolved;
        let msg = match resolved.get_message(message_name) {
            Some(m) => m,
            None => {
                return Err(CodecError::UnknownStruct(clone_str_ref(message_name)));
            },
        };
        let start = self.pos;
        match self.walk_mfields_i(&msg.fields, true, true, MAX_DEPTH) {
            Ok(()) => Ok(self.pos - start),
            Err(e) => Err(e),
        }
    }

    /// The fields of a message body, in declaration order.
    fn walk_mfields_i(&mut self, fields: &Vec<MessageField>, validate: bool, zero: bool, depth: u32) -> (r:
        Result<(), CodecError>)
        ensures
            final(self).frame(old(self)),
            !zero ==> final(self).data@ == old(self).data@,
            final(old(self).data)@ == final(final(self).data)@,
            match r {
                Ok(()) => walk_mfields_spec(
                    old(self).cfg(validate, zero),
                    old(self).state(),
                    fields@,
                    0,
                    depth as nat,
                ) == WRes::Done(final(self).state()) && final(self).pos >= old(self).pos,
                Err(e) => walk_mfields_spec(
                    old(self).cfg(validate, zero),
                    old(self).state(),
                    fields@,
                    0,
                    depth as nat,
                ) == WRes::Fail(e@),
            },
        decreases depth, 1nat,
    {
        let ghost res0 = walk_mfields_spec(
            self.cfg(validate, zero),
            self.state(),
            fields@,
            0,
            depth as nat,
        );
        if depth == 0 {
            return Err(CodecError::Validation(String::from_str("structure nested too deeply")));
        }
        let n = fields.len();
        let mut i: usize = 0;
        while i < n
            invariant
                i <= n,
                n == fields@.len(),
                depth >= 1,
                self.data@.len() == old(self).data@.len(),
                !zero ==> self.data@ == old(self).data@,
                final(old(self).data)@ == final(self.data)@,
                self.resolved == old(self).resolved,
                self.endianness == old(self).endianness,
                self.pos >= old(self).pos,
                res0 == walk_mfields_spec(
                    old(self).cfg(validate, zero),
                    old(self).state(),
                    fields@,
                    0,
                    depth as nat,
                ),
                old(self).cfg(validate, zero) == self.cfg(validate, zero),
                res0 == walk_mfields_spec(
                    self.cfg(validate, zero),
                    self.state(),
                    fields@,
                    i as nat,
                    depth as nat,
                ),
            decreases n - i,
        {
            let f = &fields[i];
            let mut skip_this = false;
            if let Some(c) = &f.condition {
                if !cond_check(&self.ctx.values, c) {
                    skip_this = true;
                }
            }
            if !skip_this {
                if validate && f.constraint.is_some() {
                    match self.validate_field_i(f.name.as_str(), &f.type_spec, f.constraint.as_ref().unwrap(), zero) {
                        Ok(()) => {},
                        Err(e) => {
                            return Err(e);
                        },
                    }
                } else {
                    match self.skip_type_i(&f.type_spec, Some(&f.name), validate, zero, depth - 1) {
                        Ok(()) => {},
                        Err(e) => {
                            return Err(e);
                        },
                    }
                }
            }
            i = i + 1;
        }
        Ok(())
    }

    /// The fields of a struct body, in declaration order.
    fn walk_sfields_i(&mut self, fields: &Vec<StructField>, validate: bool, zero: bool, depth: u32) -> (r:
        Result<(), CodecError>)
        ensures
            final(self).frame(old(self)),
            !zero ==> final(self).data@ == old(self).data@,
            final(old(self).data)@ == final(final(self).data)@,
            match r {
                Ok(()) => walk_sfields_spec(
                    old(self).cfg(validate, zero),
                    old(self).state(),
                    fields@,
                    0,
                    depth as nat,
                ) == WRes::Done(final(self).state()) && final(self).pos >= old(self).pos,
                Err(e) => walk_sfields_spec(
                    old(self).cfg(validate, zero),
                    old(self).state(),
                    fields@,
                    0,
                    depth as nat,
                ) == WRes::Fail(e@),
            },
        decreases depth, 1nat,
    {
        let ghost res0 = walk_sfields_spec(
            self.cfg(validate, zero),
            self.state(),
            fields@,
            0,
            depth as nat,
        );
        if depth == 0 {
            return Err(CodecError::Validation(String::from_str("structure nested too deeply")));
        }
        let n = fields.len();
        let mut i: usize = 0;
        while i < n
            invariant
                i <= n,
                n == fields@.len(),
                depth >= 1,
                self.data@.len() == old(self).data@.len(),
                !zero ==> self.data@ == old(self).data@,
                final(old(self).data)@ == final(self.data)@,
                self.resolved == old(self).resolved,
                self.endianness == old(self).endianness,
                self.pos >= old(self).pos,
                res0 == walk_sfields_spec(
                    old(self).cfg(validate, zero),
                    old(self).state(),
                    fields@,
                    0,
                    depth as nat,
                ),
                old(self).cfg(validate, zero) == self.cfg(validate, zero),
                res0 == walk_sfields_spec(
                    self.cfg(validate, zero),
                    self.state(),
                    fields@,
                    i as nat,
                    depth as nat,
                ),
            decreases n - i,
        {
            let f = &fields[i];
            let mut skip_this = false;
            if let Some(c) = &f.condition {
                if !cond_check(&self.ctx.values, c) {
                    skip_this = true;
                }
            }
            if !skip_this {
                if validate && f.constraint.is_some() {
                    match self.validate_field_i(f.name.as_str(), &f.type_spec, f.constraint.as_ref().unwrap(), zero) {
                        Ok(()) => {},
                        Err(e) => {
                            return Err(e);
                        },
                    }
                } else {
                    match self.skip_type_i(&f.type_spec, Some(&f.name), validate, zero, depth - 1) {
                        Ok(()) => {},
                        Err(e) => {
                            return Err(e);
                        },
                    }
                }
            }
            i = i + 1;
        }
        Ok(())
    }

    /// One constrained field under a validating walk: read, check, advance.
    fn validate_field_i(&mut self, name: &str, t: &TypeSpec, c: &Constraint, zero: bool) -> (r: Result<(), CodecError>)
        ensures
            final(self).frame(old(self)),
            final(self).data@ == old(self).data@,
            final(old(self).data)@ == final(final(self).data)@,
            final(self).state().vals == old(self).state().vals,
            final(self).state().presence == old(self).state().presence,
            match r {
                Ok(()) => validate_read_spec(old(self).cfg(true, zero), old(self).state(), *t, *c)
                    == WRes::Done(final(self).state()) && final(self).pos >= old(self).pos,
                Err(e) => validate_read_spec(old(self).cfg(true, zero), old(self).state(), *t, *c)
                    == WRes::Fail(e@) && final(self).state() == old(self).state(),
            },
    {
        let big = matches!(self.endianness, Endianness::Big);
        let (v, size): (i64, usize) = match t {
            TypeSpec::Base(bt) => {
                let size = base_type_size(bt);
                if self.pos > self.data.len() || self.data.len() - self.pos < size {
                    return Err(CodecError::ShortBuffer);
                }
                let raw = read_word(self.data, self.pos, size, big);
                proof {
                    assert(self.data@.subrange(self.pos as int, self.pos + size as int)
                        =~= self.data@.subrange(self.pos as int, (self.pos + size) as int));
                }
                proof {
                    crate::wire::lemma_be_val_bound(
                        self.data@.subrange(self.pos as int, self.pos + size as int),
                    );
                    crate::wire::lemma_le_val_bound(
                        self.data@.subrange(self.pos as int, self.pos + size as int),
                    );
                    crate::wire::lemma_pow256_pow2(size as nat);
                }
                let signed = matches!(
                    bt,
                    BaseType::I8 | BaseType::I16 | BaseType::I32 | BaseType::I64 | BaseType::Float
                        | BaseType::Double
                );
                let v = if signed {
                    sign_extend_exec(raw, 8 * (size as u64))
                } else {
                    #[verifier::truncate] (raw as i64)
                };
                (v, size)
            },
            TypeSpec::Bitfield(n) => {
                let size64 = bits_to_bytes(*n);
                if size64 > 8 {
                    return Err(
                    CodecError::Validation(
                        String::from_str("").concat(name).concat(": not a numeric type"),
                    ),
                );
                }
                let size = size64 as usize;
                if self.pos > self.data.len() || self.data.len() - self.pos < size {
                    return Err(CodecError::ShortBuffer);
                }
                let raw = read_word(self.data, self.pos, size, big);
                (#[verifier::truncate] (raw as i64), size)
            },
            TypeSpec::SizedInt(bt, n) => {
                let size64 = bits_to_bytes(*n);
                if size64 > 8 {
                    return Err(
                    CodecError::Validation(
                        String::from_str("").concat(name).concat(": not a numeric type"),
                    ),
                );
                }
                let size = size64 as usize;
                if self.pos > self.data.len() || self.data.len() - self.pos < size {
                    return Err(CodecError::ShortBuffer);
                }
                let raw = read_word(self.data, self.pos, size, big);
                proof {
                    crate::wire::lemma_be_val_bound(
                        self.data@.subrange(self.pos as int, self.pos + size as int),
                    );
                    crate::wire::lemma_le_val_bound(
                        self.data@.subrange(self.pos as int, self.pos + size as int),
                    );
                    crate::wire::lemma_pow256_pow2(size as nat);
                }
                let masked = if *n >= 64 {
                    raw
                } else {
                    proof {
                        lemma_pow2_pos(*n as nat);
                    }
                    raw % pow2_u64(*n)
                };
                let signed = matches!(bt, BaseType::I8 | BaseType::I16 | BaseType::I32 | BaseType::I64);
                let v = if signed {
                    if *n == 0 {
                        0i64
                    } else {
                        sign_extend_exec(masked, if *n >= 64 { 64 } else { *n })
                    }
                } else {
                    #[verifier::truncate] (masked as i64)
                };
                (v, size)
            },
            _ => {
                return Err(
                    CodecError::Validation(
                        String::from_str("").concat(name).concat(": not a numeric type"),
                    ),
                );
            },
        };
        if !check_constraint(v, c) {
            return Err(CodecError::Validation(constraint_fail_msg(name, v, c)));
        }
        self.pos = self.pos + size;
        Ok(())
    }

    /// One field shape: advance by exactly what the codec would consume.
    #[verifier::rlimit(100)]
    fn skip_type_i(
        &mut self,
        t: &TypeSpec,
        name: Option<&String>,
        validate: bool,
        zero: bool,
        depth: u32,
    ) -> (r: Result<(), CodecError>)
        ensures
            final(self).frame(old(self)),
            !zero ==> final(self).data@ == old(self).data@,
            final(old(self).data)@ == final(final(self).data)@,
            match r {
                Ok(()) => walk_type_spec(
                    old(self).cfg(validate, zero),
                    old(self).state(),
                    *t,
                    name_view(name),
                    depth as nat,
                ) == WRes::Done(final(self).state()) && final(self).pos >= old(self).pos,
                Err(e) => walk_type_spec(
                    old(self).cfg(validate, zero),
                    old(self).state(),
                    *t,
                    name_view(name),
                    depth as nat,
                ) == WRes::Fail(e@),
            },
        decreases depth, 0nat,
    {
        if depth == 0 {
            return Err(CodecError::Validation(String::from_str("structure nested too deeply")));
        }
        let big = matches!(self.endianness, Endianness::Big);
        let dn = self.data.len();
        match t {
            TypeSpec::Base(bt) => {
                let size = base_type_size(bt);
                if self.pos > dn || dn - self.pos < size {
                    return Err(CodecError::ShortBuffer);
                }
                self.pos = self.pos + size;
                Ok(())
            },
            TypeSpec::Padding(n) | TypeSpec::Reserved(n) => {
                if self.pos > dn || ((dn - self.pos) as u64) < *n {
                    return Err(CodecError::ShortBuffer);
                }
                let len = *n as usize;
                if zero {
                    self.zero_bytes(self.pos, len);
                }
                self.pos = self.pos + len;
                Ok(())
            },
            TypeSpec::Bitfield(n) | TypeSpec::SizedInt(_, n) => {
                let size = bits_to_bytes(*n);
                if self.pos > dn || ((dn - self.pos) as u64) < size {
                    return Err(CodecError::ShortBuffer);
                }
                self.pos = self.pos + (size as usize);
                Ok(())
            },
            TypeSpec::LengthOf(_) | TypeSpec::CountOf(_) => {
                if self.pos > dn || dn - self.pos < 4 {
                    return Err(CodecError::ShortBuffer);
                }
                let v = read_word(self.data, self.pos, 4, big);
                if let Some(nm) = name {
                    let key = clone_str_ref(nm.as_str());
                    proof {
                        assert(ctx_vals_view(self.ctx.values@.push((key, v))) =~= ctx_vals_view(
                            self.ctx.values@,
                        ).push((nm@, v)));
                    }
                    self.ctx.values.push((key, v));
                }
                self.pos = self.pos + 4;
                Ok(())
            },
            TypeSpec::PresenceBits(n) => {
                if !(*n == 1 || *n == 2 || *n == 4) {
                    return Err(
                        CodecError::Validation(
                            String::from_str("presence_bits(n): n must be 1, 2, or 4"),
                        ),
                    );
                }
                let nb = *n as usize;
                if self.pos > dn || dn - self.pos < nb {
                    return Err(CodecError::ShortBuffer);
                }
                let v = read_word(self.data, self.pos, nb, big);
                self.ctx.presence = WalkPresence::Bitmap(v, 0);
                self.pos = self.pos + nb;
                Ok(())
            },
            TypeSpec::BitmapPresence { total_bits, presence_per_block, .. } => {
                if *presence_per_block == 0 {
                    let nb = (((*total_bits as u64) + 7) / 8) as usize;
                    if self.pos > dn || dn - self.pos < nb {
                        return Err(CodecError::ShortBuffer);
                    }
                    let bytes = slice_range_to_vec(self.data, self.pos, nb);
                    self.ctx.presence = WalkPresence::Var { bytes, idx: 0, per_block: 0 };
                    self.pos = self.pos + nb;
                    Ok(())
                } else {
                    let blocks = ((*total_bits as u64) + (*presence_per_block as u64) - 1) / (
                    *presence_per_block as u64);
                    match read_fx_exec(self.data, self.pos, blocks) {
                        Ok((bytes, p)) => {
                            self.ctx.presence = WalkPresence::Var {
                                bytes,
                                idx: 0,
                                per_block: *presence_per_block,
                            };
                            self.pos = p;
                            Ok(())
                        },
                        Err(e) => Err(e),
                    }
                }
            },
            TypeSpec::PaddingBits(n) => {
                let size = bits_to_bytes(*n);
                if self.pos > dn || ((dn - self.pos) as u64) < size {
                    return Err(CodecError::ShortBuffer);
                }
                let len = size as usize;
                if zero {
                    self.zero_bytes(self.pos, len);
                }
                self.pos = self.pos + len;
                Ok(())
            },
            TypeSpec::StructRef(nm) => {
                let resolved = self.resolved;
                let s = match resolved.get_struct(nm.as_str()) {
                    Some(s) => s,
                    None => {
                        proof {
                            assert(struct_names(resolved.protocol) =~= Seq::new(
                                self.cfg(validate, zero).structs.len(),
                                |k: int| self.cfg(validate, zero).structs[k].name@,
                            ));
                        }
                        return Err(CodecError::UnknownStruct(clone_str_ref(nm.as_str())));
                    },
                };
                proof {
                    assert(struct_names(resolved.protocol) =~= Seq::new(
                        self.cfg(validate, zero).structs.len(),
                        |k: int| self.cfg(validate, zero).structs[k].name@,
                    ));
                }
                let mut saved = WalkPresence::NoSource;
                core::mem::swap(&mut saved, &mut self.ctx.presence);
                self.ctx.presence = WalkPresence::NoSource;
                let res = self.walk_sfields_i(&s.fields, validate, zero, depth - 1);
                match res {
                    Ok(()) => {
                        self.ctx.presence = saved;
                        Ok(())
                    },
                    Err(e) => {
                        self.ctx.presence = saved;
                        Err(e)
                    },
                }
            },
            TypeSpec::Array(elem, len) => {
                let k: u64 = match len {
                    ArrayLen::Constant(k) => *k,
                    ArrayLen::FieldRef(f) => match wctx_get(&self.ctx.values, f.as_str()) {
                        Some(v) => v,
                        None => {
                            return Err(CodecError::UnknownField(clone_str_ref(f.as_str())));
                        },
                    },
                };
                self.walk_items_i(elem, k, validate, zero, depth - 1)
            },
            TypeSpec::List(elem) => {
                if self.pos > dn || dn - self.pos < 4 {
                    return Err(CodecError::ShortBuffer);
                }
                let k = read_word(self.data, self.pos, 4, big);
                self.pos = self.pos + 4;
                self.walk_items_i(elem, k, validate, zero, depth - 1)
            },
            TypeSpec::RepList(elem) => {
                if self.pos >= dn {
                    return Err(CodecError::ShortBuffer);
                }
                let k = self.data[self.pos] as u64;
                self.pos = self.pos + 1;
                self.walk_items_i(elem, k, validate, zero, depth - 1)
            },
            TypeSpec::OctetsFx => {
                let p0 = self.pos;
                let mut cur = self.pos;
                while cur < dn
                    invariant_except_break
                        dn == self.data@.len(),
                        p0 <= cur,
                        cur <= dn || cur == p0,
                        octets_end(self.data@, cur as nat) == octets_end(self.data@, p0 as nat),
                    ensures
                        p0 <= cur,
                        cur as nat == octets_end(self.data@, p0 as nat),
                    decreases dn - cur,
                {
                    let b = self.data[cur];
                    cur = cur + 1;
                    if b & 0x80 == 0 {
                        break;
                    }
                }
                self.pos = cur;
                Ok(())
            },
            TypeSpec::Optional(elem) => {
                let mut taken = WalkPresence::NoSource;
                core::mem::swap(&mut taken, &mut self.ctx.presence);
                let pb: Option<bool> = match taken {
                    WalkPresence::NoSource => {
                        self.ctx.presence = WalkPresence::NoSource;
                        None
                    },
                    WalkPresence::Bitmap(value, idx) => {
                        let bit = idx < 64 && ((value >> (idx as u64)) & 1) == 1;
                        let idx2 = if idx == usize::MAX {
                            idx
                        } else {
                            idx + 1
                        };
                        self.ctx.presence = WalkPresence::Bitmap(value, idx2);
                        Some(bit)
                    },
                    WalkPresence::Var { bytes, idx, per_block } => {
                        let bit: bool;
                        if per_block == 0 {
                            let bi = idx / 8;
                            let off = idx % 8;
                            bit = bi < bytes.len() && ((bytes[bi] >> ((7 - off) as u8)) & 1) == 1;
                        } else {
                            let bi = idx / (per_block as usize);
                            let off = idx % (per_block as usize);
                            bit = bi < bytes.len() && off < 8 && ((bytes[bi] >> ((7 - off) as u8))
                                & 1) == 1;
                        }
                        let idx2 = if idx == usize::MAX {
                            idx
                        } else {
                            idx + 1
                        };
                        self.ctx.presence = WalkPresence::Var { bytes, idx: idx2, per_block };
                        Some(bit)
                    },
                };
                match pb {
                    None => {
                        if self.pos >= dn {
                            return Err(CodecError::ShortBuffer);
                        }
                        let present = self.data[self.pos] != 0;
                        self.pos = self.pos + 1;
                        if present {
                            self.skip_type_i(elem, None, validate, zero, depth - 1)
                        } else {
                            Ok(())
                        }
                    },
                    Some(present) => {
                        if present {
                            self.skip_type_i(elem, None, validate, zero, depth - 1)
                        } else {
                            Ok(())
                        }
                    },
                }
            },
        }
    }

    /// `n` consecutive items of one element shape.
    fn walk_items_i(&mut self, elem: &TypeSpec, n: u64, validate: bool, zero: bool, depth: u32) -> (r: Result<
        (),
        CodecError,
    >)
        ensures
            final(self).frame(old(self)),
            !zero ==> final(self).data@ == old(self).data@,
            final(old(self).data)@ == final(final(self).data)@,
            match r {
                Ok(()) => walk_items_spec(
                    old(self).cfg(validate, zero),
                    old(self).state(),
                    *elem,
                    n as nat,
                    depth as nat,
                ) == WRes::Done(final(self).state()) && final(self).pos >= old(self).pos,
                Err(e) => walk_items_spec(
                    old(self).cfg(validate, zero),
                    old(self).state(),
                    *elem,
                    n as nat,
                    depth as nat,
                ) == WRes::Fail(e@),
            },
        decreases depth, 1nat,
    {
        let ghost res0 = walk_items_spec(
            self.cfg(validate, zero),
            self.state(),
            *elem,
            n as nat,
            depth as nat,
        );
        let mut k: u64 = 0;
        while k < n
            invariant
                k <= n,
                self.data@.len() == old(self).data@.len(),
                !zero ==> self.data@ == old(self).data@,
                final(old(self).data)@ == final(self.data)@,
                self.resolved == old(self).resolved,
                self.endianness == old(self).endianness,
                self.pos >= old(self).pos,
                res0 == walk_items_spec(
                    old(self).cfg(validate, zero),
                    old(self).state(),
                    *elem,
                    n as nat,
                    depth as nat,
                ),
                old(self).cfg(validate, zero) == self.cfg(validate, zero),
                res0 == walk_items_spec(
                    self.cfg(validate, zero),
                    self.state(),
                    *elem,
                    (n - k) as nat,
                    depth as nat,
                ),
            decreases n - k,
        {
            match self.skip_type_i(elem, None, validate, zero, depth) {
                Ok(()) => {},
                Err(e) => {
                    return Err(e);
                },
            }
            k = k + 1;
        }
        Ok(())
    }

    /// Zeroes `len` bytes starting at `start`, in place.
    fn zero_bytes(&mut self, start: usize, len: usize)
        requires
            start + len <= old(self).data@.len(),
        ensures
            final(self).pos == old(self).pos,
            final(self).resolved == old(self).resolved,
            final(self).endianness == old(self).endianness,
            final(self).ctx == old(self).ctx,
            final(old(self).data)@ == final(final(self).data)@,
            final(self).data@ == zero_range(old(self).data@, start as nat, len as nat),
    {
        let mut j: usize = 0;
        proof {
            assert(self.data@ =~= zero_range(old(self).data@, start as nat, 0));
        }
        let dn = self.data.len();
        while j < len
            invariant
                j <= len,
                dn == self.data@.len(),
                final(old(self).data)@ == final(self.data)@,
                start + len <= self.data@.len(),
                self.pos == old(self).pos,
                self.resolved == old(self).resolved,
                self.endianness == old(self).endianness,
                self.ctx == old(self).ctx,
                self.data@ == zero_range(old(self).data@, start as nat, j as nat),
            decreases len - j,
        {
            proof {
                assert(zero_range(old(self).data@, start as nat, (j + 1) as nat) =~= zero_range(
                    old(self).data@,
                    start as nat,
                    j as nat,
                ).update(start + j, 0u8));
            }
            self.data[start + j] = 0;
            j = j + 1;
        }
    }

    /// Zeroes every padding and reserved byte of one message, in place.
    pub fn zero_padding_reserved_message(&mut self, message_name: &str) -> (r: Result<
        (),
        CodecError,
    >)
        ensures
            final(self).frame(old(self)),
            final(old(self).data)@ == final(final(self).data)@,
            ({
                let mi = find_name(message_names(old(self).resolved.protocol), message_name@, 0);
                match r {
                    Ok(()) => mi >= 0 && walk_mfields_spec(
                        old(self).cfg(false, true),
                        old(self).state(),
                        old(self).resolved.protocol.messages@[mi].fields@,
                        0,
                        MAX_DEPTH as nat,
                    ) == WRes::Done(final(self).state()),
                    Err(e) => {
                        if mi == -1 {
                            e@ == ErrKind::UnknownStruct && final(self).state() == old(
                                self,
                            ).state()
                        } else {
                            walk_mfields_spec(
                                old(self).cfg(false, true),
                                old(self).state(),
                                old(self).resolved.protocol.messages@[mi].fields@,
                                0,
                                MAX_DEPTH as nat,
                            ) == WRes::Fail(e@)
                        }
                    },
                }
            }),
    {
        let resolved = self.resolved;
        let msg = match resolved.get_message(message_name) {
            Some(m) => m,
            None => {
                return Err(CodecError::UnknownStruct(clone_str_ref(message_name)));
            },
        };
        self.walk_mfields_i(&msg.fields, false, true, MAX_DEPTH)
    }
}


/// View of an optional borrowed field name.
pub open spec fn name_view(n: Option<&String>) -> Option<Seq<char>> {
    match n {
        Some(s) => Some(s@),
        None => None,
    }
}

proof fn lemma_octets_end_bounds(data: Seq<u8>, pos: nat)
    ensures
        pos <= octets_end(data, pos),
        octets_end(data, pos) <= data.len() || octets_end(data, pos) == pos,
    decreases data.len() - pos,
{
    if pos < data.len() && data[pos as int] & 0x80 != 0 {
        lemma_octets_end_bounds(data, pos + 1);
    }
}

/// Clones a borrowed string slice into an owned string.
pub(crate) fn clone_str_ref(s: &str) -> (r: String)
    ensures
        r@ == s@,
{
    String::from_str(s)
}

/// Byte count that holds `n` bits.
pub(crate) fn bits_to_bytes(n: u64) -> (r: u64)
    ensures
        r == ((n + 7) / 8) as nat,
{
    (((n as u128) + 7) / 8) as u64
}

/// Signed reading of `raw` as an `n`-bit two's-complement value.
pub(crate) fn sign_extend_exec(raw: u64, n: u64) -> (r: i64)
    requires
        1 <= n <= 64,
        n < 64 ==> raw < pow2(n as nat),
    ensures
        r as int == sign_extend_bits(raw as nat, n as nat),
{
    proof {
        lemma2_to64();
        vstd::arithmetic::power2::lemma2_to64_rest();
    }
    if n == 64 {
        if raw >= 0x8000_0000_0000_0000 {
            let d: u64 = u64::MAX - raw;
            let r: i64 = -(d as i64) - 1;
            proof {
                assert(r as int == raw - pow2(64));
            }
            r
        } else {
            raw as i64
        }
    } else {
        let half = pow2_u64(n - 1);
        if raw >= half {
            proof {
                vstd::arithmetic::power2::lemma_pow2_unfold(n as nat);
                lemma_pow2_strictly_increases((n - 1) as nat, 63);
            }
            let full = pow2_u64(n);
            -((full - raw) as i64)
        } else {
            raw as i64
        }
    }
}

/// Copies `len` bytes starting at `pos` into a fresh vector.
pub(crate) fn slice_range_to_vec(data: &[u8], pos: usize, len: usize) -> (r: Vec<u8>)
    requires
        pos + len <= data@.len(),
    ensures
        r@ == data@.subrange(pos as int, pos + len),
{
    let dn = data.len();
    let mut out: Vec<u8> = Vec::new();
    let mut i: usize = 0;
    proof {
        assert(out@ =~= data@.subrange(pos as int, pos as int));
    }
    while i < len
        invariant
            i <= len,
            dn == data@.len(),
            pos + len <= data@.len(),
            out@ == data@.subrange(pos as int, pos + i),
        decreases len - i,
    {
        proof {
            assert(data@.subrange(pos as int, pos + i + 1) =~= data@.subrange(
                pos as int,
                pos + i,
            ).push(data@[pos + i]));
        }
        out.push(data[pos + i]);
        i = i + 1;
    }
    out
}

/// The tail of a slice from `pos` on.
fn slice_skip(data: &[u8], pos: usize) -> (r: &[u8])
    requires
        pos <= data@.len(),
    ensures
        r@ == data@.skip(pos as int),
{
    let r = &data[pos..data.len()];
    proof {
        assert(r@ =~= data@.skip(pos as int));
    }
    r
}


/// The failure text of a constraint check: the field's name, and for range
/// constraints the offending value verbatim.
fn constraint_fail_msg(name: &str, v: i64, c: &Constraint) -> String {
    let base = String::from_str("").concat(name).concat(": ");
    match c {
        Constraint::Range(_) => base.concat("value ").concat(
            crate::value::i64_to_string(v).as_str(),
        ).concat(" not in any interval"),
        Constraint::Enum(_) => base.concat("value not in allowed enum"),
    }
}

/// Whether an integer satisfies a range or enumeration constraint.
fn check_constraint(v: i64, c: &Constraint) -> (r: bool)
    ensures
        r == constraint_ok(v as int, *c),
{
    match c {
        Constraint::Range(intervals) => {
            let n = intervals.len();
            let mut i: usize = 0;
            while i < n
                invariant
                    i <= n,
                    n == intervals@.len(),
                    c matches Constraint::Range(iv) && iv == *intervals,
                    forall|j: int| 0 <= j < i ==> !((#[trigger] intervals@[j]).0 <= v as int
                        <= intervals@[j].1),
                decreases n - i,
            {
                if intervals[i].0 <= v && v <= intervals[i].1 {
                    proof {
                        assert(exists|j: int|
                            0 <= j < intervals@.len() && (#[trigger] intervals@[j]).0 <= v as int
                                <= intervals@[j].1) by {
                            assert((intervals@[i as int]).0 <= v as int <= intervals@[i as int].1);
                        }
                        assert(constraint_ok(v as int, *c));
                    }
                    return true;
                }
                i = i + 1;
            }
            false
        },
        Constraint::Enum(lits) => {
            let n = lits.len();
            let mut i: usize = 0;
            while i < n
                invariant
                    i <= n,
                    n == lits@.len(),
                    c matches Constraint::Enum(ls) && ls == *lits,
                    forall|j: int|
                        0 <= j < i ==> !(literal_as_i64(#[trigger] lits@[j]) matches Some(y) && y
                            as int == v as int),
                decreases n - i,
            {
                match lits[i].as_i64() {
                    Some(x) => {
                        if x == v {
                            proof {
                                assert(exists|j: int|
                                    0 <= j < lits@.len() && (literal_as_i64(#[trigger] lits@[j])
                                        matches Some(y) && y as int == v as int)) by {
                                    assert(literal_as_i64(lits@[i as int]) matches Some(y) && y
                                        as int == v as int);
                                }
                                assert(constraint_ok(v as int, *c));
                            }
                            return true;
                        }
                    },
                    None => {},
                }
                i = i + 1;
            }
            false
        },
    }
}

/// Walk configuration for one free-standing operation.
pub open spec fn op_cfg(
    resolved: &ResolvedProtocol,
    endianness: Endianness,
    zero: bool,
    validate: bool,
) -> WCfg {
    WCfg {
        structs: resolved.protocol.structs@,
        big: endianness is Big,
        zero,
        validate,
    }
}

/// Returns the byte extent of one message: the walk advances from `start`
/// through the whole record, including every optional the presence bits call
/// present, and reports how many bytes it consumed. For protocols of
/// unconditioned, whole-byte field shapes this count provably equals what
/// full decode consumes, from any offset the caller slices at.
pub fn message_extent(
    data: &[u8],
    start: usize,
    resolved: &ResolvedProtocol,
    endianness: Endianness,
    message_name: &str,
) -> (r: Result<usize, CodecError>)
    ensures
        ({
            let res = walk_message_spec(
                resolved.protocol,
                op_cfg(resolved, endianness, false, false),
                data@,
                start as nat,
                message_name@,
                MAX_DEPTH as nat,
            );
            match r {
                Ok(n) => res matches WRes::Done(st) && st.pos == start + n,
                Err(e) => res == WRes::Fail(e@),
            }
        }),
{
    let mut w = BinaryWalker::at(data, start, resolved, endianness);
    w.skip_message(message_name)
}

/// Validates a message in place: every field with a range or enumeration
/// constraint is read and checked; nothing is allocated and nothing written.
pub fn validate_message_in_place(
    data: &[u8],
    start: usize,
    resolved: &ResolvedProtocol,
    endianness: Endianness,
    message_name: &str,
) -> (r: Result<(), CodecError>)
    ensures
        ({
            let res = walk_message_spec(
                resolved.protocol,
                op_cfg(resolved, endianness, false, true),
                data@,
                start as nat,
                message_name@,
                MAX_DEPTH as nat,
            );
            match r {
                Ok(()) => res is Done,
                Err(e) => res == WRes::Fail(e@),
            }
        }),
{
    let mut w = BinaryWalker::at(data, start, resolved, endianness);
    match w.validate_message(message_name) {
        Ok(()) => Ok(()),
        Err(e) => Err(e),
    }
}

/// Zeroes every padding and reserved byte of one message, in place: on
/// success the buffer holds exactly what the specification walk leaves.
pub fn zero_padding_reserved_in_place(
    data: &mut [u8],
    start: usize,
    resolved: &ResolvedProtocol,
    endianness: Endianness,
    message_name: &str,
) -> (r: Result<(), CodecError>)
    ensures
        final(data)@.len() == old(data)@.len(),
        ({
            let res = walk_message_spec(
                resolved.protocol,
                op_cfg(resolved, endianness, true, false),
                old(data)@,
                start as nat,
                message_name@,
                MAX_DEPTH as nat,
            );
            match r {
                Ok(()) => res matches WRes::Done(st) && final(data)@ == st.data,
                Err(e) => res == WRes::Fail(e@),
            }
        }),
{
    let mut w = BinaryWalkerMut::at(data, start, resolved, endianness);
    w.zero_padding_reserved_message(message_name)
}

/// One-pass validate and zeroize: walks the message once, checking
/// constrained fields and zeroing padding and reserved bytes, and returns
/// the byte count consumed.
pub fn validate_and_zero_message_in_place(
    data: &mut [u8],
    start: usize,
    resolved: &ResolvedProtocol,
    endianness: Endianness,
    message_name: &str,
) -> (r: Result<usize, CodecError>)
    ensures
        final(data)@.len() == old(data)@.len(),
        ({
            let res = walk_message_spec(
                resolved.protocol,
                op_cfg(resolved, endianness, true, true),
                old(data)@,
                start as nat,
                message_name@,
                MAX_DEPTH as nat,
            );
            match r {
                Ok(n) => res matches WRes::Done(st) && final(data)@ == st.data && st.pos == start
                    + n,
                Err(e) => res == WRes::Fail(e@),
            }
        }),
{
    let mut w = BinaryWalkerMut::at(data, start, resolved, endianness);
    w.validate_and_zero_message(message_name)
}

/// Removes one record from a frame by shifting every later byte left.
///
/// The range `buffer[start .. start + len]` disappears from the logical
/// buffer: what remains is the old prefix up to `start` followed by the old
/// bytes after `start + len`, and the returned value is the new logical
/// length. A range that runs past the end leaves the buffer alone.
pub fn remove_message_in_place(buffer: &mut [u8], start: usize, len: usize) -> (r: usize)
    ensures
        final(buffer)@.len() == old(buffer)@.len(),
        start + len <= old(buffer)@.len() ==> {
            &&& r == old(buffer)@.len() - len
            &&& final(buffer)@.subrange(0, r as int) == old(buffer)@.subrange(0, start as int)
                + old(buffer)@.subrange((start + len) as int, old(buffer)@.len() as int)
        },
        start + len > old(buffer)@.len() ==> r == old(buffer)@.len() && final(buffer)@ == old(
            buffer,
        )@,
{
    let n = buffer.len();
    if start > n || len > n - start {
        return n;
    }
    let end = start + len;
    let rest = n - end;
    let mut i: usize = 0;
    while i < rest
        invariant
            i <= rest,
            rest == n - end,
            end == start + len,
            start + len <= n,
            n == buffer@.len(),
            old(buffer)@.len() == n,
            forall|k: int| 0 <= k < start ==> buffer@[k] == old(buffer)@[k],
            forall|k: int| start + i <= k < n ==> buffer@[k] == old(buffer)@[k],
            forall|k: int| start <= k < start + i ==> buffer@[k] == old(buffer)@[k + len],
        decreases rest - i,
    {
        let b = buffer[end + i];
        buffer[start + i] = b;
        i = i + 1;
    }
    proof {
        assert(buffer@.subrange(0, (n - len) as int) =~= old(buffer)@.subrange(0, start as int)
            + old(buffer)@.subrange(end as int, n as int));
    }
    n - len
}

/// Writes a 32-bit value at the given offset with the chosen byte order, so
/// frame-level length prefixes stay coherent after an excision.
pub fn write_u32_in_place(
    buffer: &mut [u8],
    offset: usize,
    value: u32,
    endianness: Endianness,
) -> (r: Result<(), CodecError>)
    ensures
        final(buffer)@.len() == old(buffer)@.len(),
        match r {
            Ok(()) => offset + 4 <= old(buffer)@.len() && final(buffer)@ == old(buffer)@.take(
                offset as int,
            ) + crate::wire::word_bytes(value as u64, 4, endianness is Big) + old(buffer)@.skip(
                offset + 4,
            ),
            Err(e) => offset + 4 > old(buffer)@.len() && e@ == ErrKind::Short && final(buffer)@
                == old(buffer)@,
        },
{
    let n = buffer.len();
    if offset > n || n - offset < 4 {
        return Err(CodecError::ShortBuffer);
    }
    let big = matches!(endianness, Endianness::Big);
    let mut tmp: Vec<u8> = Vec::new();
    crate::wire::write_word(&mut tmp, value as u64, 4, big);
    let ghost wb = crate::wire::word_bytes(value as u64, 4, endianness is Big);
    let mut i: usize = 0;
    while i < 4
        invariant
            i <= 4,
            offset + 4 <= n,
            n == buffer@.len(),
            tmp@ == wb,
            wb.len() == 4,
            buffer@.take(offset as int) == old(buffer)@.take(offset as int),
            buffer@.skip(offset + 4) == old(buffer)@.skip(offset + 4),
            buffer@.subrange(offset as int, offset + i) == wb.take(i as int),
        decreases 4 - i,
    {
        buffer[offset + i] = tmp[i];
        proof {
            assert(buffer@.take(offset as int) =~= old(buffer)@.take(offset as int));
            assert(buffer@.skip(offset + 4) =~= old(buffer)@.skip(offset + 4));
            assert(buffer@.subrange(offset as int, offset + i + 1) =~= wb.take(i + 1));
        }
        i = i + 1;
    }
    proof {
        assert(wb.take(4) =~= wb);
        assert(buffer@ =~= old(buffer)@.take(offset as int) + wb + old(buffer)@.skip(offset + 4));
    }
    Ok(())
}

} // verus!
