//! Library-wide laws, stated once and proved against the codec's and the
//! walk engine's own specifications.

use vstd::prelude::*;
use crate::ast::{ArrayLen, MessageField, Protocol, StructField, StructSection, TypeSpec, find_name, message_names};
use crate::codec::{
    bitmap_of, block_bits, dec_items, dec_mfields, dec_message, dec_sfields, dec_type, enc_type,
    fresh_bits, fspec_bytes_of, octets_take, opt_present, optional_elem, run_flags_m,
    run_indices_m, write_bits_spec, BitWrite, DCfg, DFieldsRes, DItemsRes, DMsgRes, DRes, DState,
    ERes, EState, ErrKind, OctRes,
};
use crate::walk::PresenceModel;
use crate::value::ValModel;
use crate::walk::{
    octets_end, presence_bit, presence_step, read_fx, walk_items_spec, walk_message_spec,
    walk_mfields_spec, walk_sfields_spec, walk_type_spec, FxRes, WCfg, WRes, WState,
};

verus! {

/// Padding zeroization: encoding a `Padding` or `Reserved` field from a
/// byte-aligned state appends exactly its declared width of zero bytes, no
/// matter what value was supplied for it.
pub proof fn lemma_padding_encodes_zero(cfg: DCfg, st: EState, n: u64, v: ValModel, fuel: nat)
    requires
        st.bw.next == 0,
        n <= usize::MAX as u64,
        fuel >= 1,
    ensures
        ({
            let rp = enc_type(cfg, st, TypeSpec::Padding(n), v, fuel);
            let rr = enc_type(cfg, st, TypeSpec::Reserved(n), v, fuel);
            &&& rp matches ERes::Done(st2) && st2.out.len() == st.out.len() + n && (forall|i: int|
                st.out.len() <= i < st2.out.len() ==> st2.out[i] == 0)
            &&& rp == rr
        }),
{
    let rp = enc_type(cfg, st, TypeSpec::Padding(n), v, fuel);
    assert(rp matches ERes::Done(st2) && st2.out == st.out + Seq::new(n as nat, |i: int| 0u8));
}

/// Padding zeroization for spare bits: writing `n` zero bits from a clean,
/// byte-aligned cursor appends only zero bytes and leaves the cursor clean.
pub proof fn lemma_padding_bits_zero(st: EState, n: nat)
    requires
        st.bw.next == 0,
        st.bw.cur == 0,
    ensures
        ({
            let st2 = write_bits_spec(st, n, 0);
            &&& st2.out.len() >= st.out.len()
            &&& st2.out.take(st.out.len() as int) == st.out
            &&& forall|i: int| st.out.len() <= i < st2.out.len() ==> st2.out[i] == 0
            &&& st2.bw.cur == 0
        }),
    decreases n,
{
    lemma_zero_bits_step(st, n);
}

proof fn lemma_zero_bits_step(st: EState, n: nat)
    requires
        st.bw.cur == 0,
        st.bw.next <= 7,
    ensures
        ({
            let st2 = write_bits_spec(st, n, 0);
            &&& st2.out.len() >= st.out.len()
            &&& st2.out.take(st.out.len() as int) == st.out
            &&& forall|i: int| st.out.len() <= i < st2.out.len() ==> st2.out[i] == 0
            &&& st2.bw.cur == 0
        }),
    decreases n,
{
    if n == 0 {
        assert(write_bits_spec(st, n, 0).out.take(st.out.len() as int) =~= st.out);
    } else {
        assert(0u64 & 1 == 0) by (bit_vector);
        assert(0u64 >> 1u64 == 0u64) by (bit_vector);
        let next2 = (st.bw.next + 1) as u8;
        if next2 == 8 {
            let mid = EState { out: st.out.push(0u8), bw: BitWrite { cur: 0, next: 0 } };
            lemma_zero_bits_step(mid, (n - 1) as nat);
            let st2 = write_bits_spec(st, n, 0);
            assert(st2 == write_bits_spec(mid, (n - 1) as nat, 0));
            assert(st2.out.take(mid.out.len() as int) == mid.out);
            assert(st2.out.take(st.out.len() as int) =~= st.out);
            assert(st2.out[st.out.len() as int] == mid.out[st.out.len() as int]);
            assert(mid.out[st.out.len() as int] == 0);
        } else {
            let mid = EState { out: st.out, bw: BitWrite { cur: 0, next: next2 } };
            lemma_zero_bits_step(mid, (n - 1) as nat);
        }
    }
}

/// Presence exclusivity: when a presence source is installed, an Optional
/// field consumes exactly the source's current bit, and the only change to
/// the source is that its index advances by one; no other bit takes part.
/// A clear bit yields the absent marker without touching the buffer; a set
/// bit decodes the inner shape under the advanced source.
pub proof fn lemma_presence_exclusive(
    cfg: DCfg,
    data: Seq<u8>,
    st: DState,
    elem: TypeSpec,
    fuel: nat,
)
    requires
        st.bits.next == 8,
        fuel >= 1,
        !(st.presence is NoSource),
    ensures
        ({
            let r = dec_type(cfg, data, st, TypeSpec::Optional(Box::new(elem)), fuel);
            let stepped = DState { presence: presence_step(st.presence), ..st };
            &&& presence_bit(st.presence) matches Some(b) && {
                if b {
                    r == dec_type(cfg, data, stepped, elem, (fuel - 1) as nat)
                } else {
                    r == (DRes::Done { st: stepped, v: ValModel::List(Seq::empty()) })
                }
            }
        }),
{
}

/// Bit alignment: a message body only decodes successfully when its bit
/// cursor is byte-aligned at the end of the scope.
pub proof fn lemma_message_scope_alignment(
    cfg: DCfg,
    data: Seq<u8>,
    st: DState,
    fields: Seq<MessageField>,
    i: nat,
    out: Seq<(Seq<char>, ValModel)>,
    fuel: nat,
)
    ensures
        dec_mfields(cfg, data, st, fields, i, out, fuel) matches DFieldsRes::Done { st: st2, .. }
            ==> st2.bits.next == 8,
    decreases fuel, fields.len() - i,
{
    if fuel == 0 || i >= fields.len() {
    } else {
        let f = fields[i as int];
        if (match f.condition {
            Some(c) => !crate::codec::dcond_passes(st.vals, c),
            None => false,
        }) {
            lemma_message_scope_alignment(cfg, data, st, fields, i + 1, out, fuel);
        } else {
            match dec_type(cfg, data, st, f.type_spec, (fuel - 1) as nat) {
                DRes::Done { st: st2, v } => {
                    lemma_message_scope_alignment(
                        cfg,
                        data,
                        DState { vals: st2.vals.push(crate::codec::recorded(f.name@, v)), ..st2 },
                        fields,
                        i + 1,
                        out.push((f.name@, v)),
                        fuel,
                    );
                },
                DRes::Fail { .. } => {},
            }
        }
    }
}

/// Bit alignment for struct bodies: the same holds of every struct scope.
pub proof fn lemma_struct_scope_alignment(
    cfg: DCfg,
    data: Seq<u8>,
    st: DState,
    fields: Seq<StructField>,
    i: nat,
    out: Seq<(Seq<char>, ValModel)>,
    fuel: nat,
)
    ensures
        dec_sfields(cfg, data, st, fields, i, out, fuel) matches DFieldsRes::Done { st: st2, .. }
            ==> st2.bits.next == 8,
    decreases fuel, fields.len() - i,
{
    if fuel == 0 || i >= fields.len() {
    } else {
        let f = fields[i as int];
        if (match f.condition {
            Some(c) => !crate::codec::dcond_passes(st.vals, c),
            None => false,
        }) {
            lemma_struct_scope_alignment(cfg, data, st, fields, i + 1, out, fuel);
        } else {
            match dec_type(cfg, data, st, f.type_spec, (fuel - 1) as nat) {
                DRes::Done { st: st2, v } => {
                    if (match f.constraint {
                        Some(c) => !crate::codec::vconstraint_ok(v, c),
                        None => false,
                    }) {
                    } else {
                        lemma_struct_scope_alignment(
                            cfg,
                            data,
                            DState {
                                vals: st2.vals.push(crate::codec::recorded(f.name@, v)),
                                ..st2
                            },
                            fields,
                            i + 1,
                            out.push((f.name@, v)),
                            fuel,
                        );
                    }
                },
                DRes::Fail { .. } => {},
            }
        }
    }
}

/// FX termination: whenever a variable-length presence bitmap reads
/// successfully, the last byte read has its FX bit clear.
pub proof fn lemma_fx_termination(data: Seq<u8>, pos: nat, blocks: nat)
    ensures
        read_fx(data, pos, blocks) matches FxRes::Done { bytes, .. } ==> (bytes.len() == 0
            || bytes.last() & 1 == 0),
    decreases blocks,
{
    if blocks > 1 && pos < data.len() && data[pos as int] & 1 != 0 {
        lemma_fx_termination(data, pos + 1, (blocks - 1) as nat);
        match read_fx(data, pos + 1, (blocks - 1) as nat) {
            FxRes::Done { bytes, pos: p } => {
                if bytes.len() > 0 {
                    assert((seq![data[pos as int]] + bytes).last() == bytes.last());
                }
            },
            FxRes::Fail(_) => {},
        }
    }
}

/// FX termination, the refusing side: a bitmap whose maximum number of
/// blocks is available but whose every byte keeps FX set is a structural
/// error, never a successful read.
pub proof fn lemma_fx_unterminated(data: Seq<u8>, pos: nat, blocks: nat)
    requires
        blocks >= 1,
        pos + blocks <= data.len(),
        forall|j: int| pos <= j < pos + blocks ==> data[j] & 1 == 1,
    ensures
        read_fx(data, pos, blocks) == FxRes::Fail(ErrKind::Validation),
    decreases blocks,
{
    assert(data[pos as int] & 1 == 1);
    if blocks > 1 {
        lemma_fx_unterminated(data, pos + 1, (blocks - 1) as nat);
    }
}

/// A field shape on which the structure-only walk and the full decode move
/// the cursor identically: everything but the bit-packed shapes, which the
/// walk skips byte-rounded per field while decode shares a bit cursor, and
/// field-referenced array lengths, which decode records for every field but
/// the walk records only for length and count prefixes.
pub open spec fn plain_shape(t: TypeSpec) -> bool
    decreases t,
{
    match t {
        TypeSpec::Base(_) => true,
        TypeSpec::Padding(_) => true,
        TypeSpec::Reserved(_) => true,
        TypeSpec::LengthOf(_) => true,
        TypeSpec::CountOf(_) => true,
        TypeSpec::PresenceBits(_) => true,
        TypeSpec::BitmapPresence { .. } => true,
        TypeSpec::StructRef(_) => true,
        TypeSpec::Array(e, len) => (len is Constant) && plain_shape(*e),
        TypeSpec::List(e) => plain_shape(*e),
        TypeSpec::RepList(e) => plain_shape(*e),
        TypeSpec::OctetsFx => true,
        TypeSpec::Optional(e) => plain_shape(*e),
        _ => false,
    }
}

/// A message field the two passes treat identically: unconditioned, of a
/// plain shape.
pub open spec fn plain_mfield(f: MessageField) -> bool {
    f.condition is None && plain_shape(f.type_spec)
}

/// A struct field the two passes treat identically.
pub open spec fn plain_sfield(f: StructField) -> bool {
    f.condition is None && plain_shape(f.type_spec)
}

/// Every field of the sequence is plain.
pub open spec fn plain_mfields(fields: Seq<MessageField>) -> bool {
    forall|i: int| 0 <= i < fields.len() ==> plain_mfield(#[trigger] fields[i])
}

/// Every field of the sequence is plain.
pub open spec fn plain_sfields(fields: Seq<StructField>) -> bool {
    forall|i: int| 0 <= i < fields.len() ==> plain_sfield(#[trigger] fields[i])
}

/// Every struct of the protocol has only plain fields.
pub open spec fn plain_structs(structs: Seq<StructSection>) -> bool {
    forall|i: int| 0 <= i < structs.len() ==> plain_sfields((#[trigger] structs[i]).fields@)
}

/// The walk configuration the extent pass uses.
pub open spec fn extent_cfg(structs: Seq<StructSection>, big: bool) -> WCfg {
    WCfg { structs, big, zero: false, validate: false }
}

/// The states of the two passes in step: same position over the same bytes,
/// same presence source, and a byte-aligned, untouched bit cursor.
pub open spec fn in_step(data: Seq<u8>, wst: WState, dst: DState) -> bool {
    &&& wst.data == data
    &&& wst.pos == dst.pos
    &&& wst.presence == dst.presence
    &&& dst.bits == fresh_bits()
}

proof fn lemma_octets_agree(data: Seq<u8>, pos: nat)
    ensures
        octets_take(data, pos) matches OctRes::Done { bytes: _, pos: p } ==> octets_end(data, pos)
            == p,
    decreases data.len() - pos,
{
    if pos < data.len() && data[pos as int] & 0x80 != 0 {
        lemma_octets_agree(data, pos + 1);
    }
}

/// Extent agreement for one field shape: wherever decode succeeds on a plain
/// shape, the structure-only walk succeeds too, lands on the same position
/// with the same presence source, and leaves the bit cursor untouched.
proof fn lemma_extent_type(
    structs: Seq<StructSection>,
    big: bool,
    data: Seq<u8>,
    wst: WState,
    dst: DState,
    t: TypeSpec,
    name: Option<Seq<char>>,
    fuel: nat,
)
    requires
        plain_structs(structs),
        plain_shape(t),
        in_step(data, wst, dst),
    ensures
        ({
            let dr = dec_type(DCfg { structs, big }, data, dst, t, fuel);
            let wr = walk_type_spec(extent_cfg(structs, big), wst, t, name, fuel);
            dr matches DRes::Done { st: dst2, .. } ==> wr matches WRes::Done(wst2) && in_step(
                data,
                wst2,
                dst2,
            )
        }),
    decreases fuel, 0nat,
{
    if fuel == 0 {
        return;
    }
    let dcfg = DCfg { structs, big };
    let wcfg = extent_cfg(structs, big);
    match t {
        TypeSpec::StructRef(nm) => {
            let si = find_name(Seq::new(structs.len(), |k: int| structs[k].name@), nm@, 0);
            if si != -1 {
                lemma_find_name_in_range(
                    Seq::new(structs.len(), |k: int| structs[k].name@),
                    nm@,
                    0,
                );
                lemma_extent_sfields(
                    structs,
                    big,
                    data,
                    WState { presence: crate::walk::PresenceModel::NoSource, ..wst },
                    DState {
                        presence: crate::walk::PresenceModel::NoSource,
                        bits: fresh_bits(),
                        ..dst
                    },
                    structs[si].fields@,
                    0,
                    Seq::empty(),
                    (fuel - 1) as nat,
                );
            }
        },
        TypeSpec::Array(e, len) => {
            match len {
                ArrayLen::Constant(k) => {
                    lemma_extent_items(structs, big, data, wst, dst, *e, k as nat, (fuel - 1) as nat);
                },
                ArrayLen::FieldRef(_) => {},
            }
        },
        TypeSpec::List(e) => {
            if dst.pos + 4 <= data.len() {
                let k = crate::wire::word_val(
                    data.subrange(dst.pos as int, (dst.pos + 4) as int),
                    big,
                );
                lemma_extent_items(
                    structs,
                    big,
                    data,
                    WState { pos: dst.pos + 4, ..wst },
                    DState { pos: dst.pos + 4, ..dst },
                    *e,
                    k,
                    (fuel - 1) as nat,
                );
            }
        },
        TypeSpec::RepList(e) => {
            if dst.pos + 1 <= data.len() {
                let k = data[dst.pos as int] as nat;
                lemma_extent_items(
                    structs,
                    big,
                    data,
                    WState { pos: dst.pos + 1, ..wst },
                    DState { pos: dst.pos + 1, ..dst },
                    *e,
                    k,
                    (fuel - 1) as nat,
                );
            }
        },
        TypeSpec::OctetsFx => {
            lemma_octets_agree(data, dst.pos);
        },
        TypeSpec::Optional(e) => {
            match presence_bit(dst.presence) {
                None => {
                    if dst.pos + 1 <= data.len() {
                        if data[dst.pos as int] != 0 {
                            lemma_extent_type(
                                structs,
                                big,
                                data,
                                WState { pos: dst.pos + 1, ..wst },
                                DState { pos: dst.pos + 1, ..dst },
                                *e,
                                None,
                                (fuel - 1) as nat,
                            );
                        }
                    }
                },
                Some(b) => {
                    if b {
                        lemma_extent_type(
                            structs,
                            big,
                            data,
                            WState { presence: presence_step(wst.presence), ..wst },
                            DState { presence: presence_step(dst.presence), ..dst },
                            *e,
                            None,
                            (fuel - 1) as nat,
                        );
                    }
                },
            }
        },
        _ => {},
    }
}

proof fn lemma_find_name_in_range(names: Seq<Seq<char>>, key: Seq<char>, i: int)
    ensures
        find_name(names, key, i) != -1 ==> i <= find_name(names, key, i) < names.len(),
    decreases names.len() - i,
{
    if 0 <= i < names.len() && names[i] != key {
        lemma_find_name_in_range(names, key, i + 1);
    }
}

/// Extent agreement for a run of items.
proof fn lemma_extent_items(
    structs: Seq<StructSection>,
    big: bool,
    data: Seq<u8>,
    wst: WState,
    dst: DState,
    elem: TypeSpec,
    n: nat,
    fuel: nat,
)
    requires
        plain_structs(structs),
        plain_shape(elem),
        in_step(data, wst, dst),
    ensures
        ({
            let dr = dec_items(DCfg { structs, big }, data, dst, elem, n, fuel);
            let wr = walk_items_spec(extent_cfg(structs, big), wst, elem, n, fuel);
            dr matches DItemsRes::Done { st: dst2, .. } ==> wr matches WRes::Done(wst2) && in_step(
                data,
                wst2,
                dst2,
            )
        }),
    decreases fuel, n,
{
    if n > 0 {
        lemma_extent_type(structs, big, data, wst, dst, elem, None, fuel);
        match dec_type(DCfg { structs, big }, data, dst, elem, fuel) {
            DRes::Done { st: dst2, v: _ } => {
                match walk_type_spec(extent_cfg(structs, big), wst, elem, None, fuel) {
                    WRes::Done(wst2) => {
                        lemma_extent_items(
                            structs,
                            big,
                            data,
                            wst2,
                            dst2,
                            elem,
                            (n - 1) as nat,
                            fuel,
                        );
                    },
                    WRes::Fail(_) => {},
                }
            },
            DRes::Fail { .. } => {},
        }
    }
}

/// Extent agreement for a message body.
proof fn lemma_extent_mfields(
    structs: Seq<StructSection>,
    big: bool,
    data: Seq<u8>,
    wst: WState,
    dst: DState,
    fields: Seq<MessageField>,
    i: nat,
    out: Seq<(Seq<char>, ValModel)>,
    fuel: nat,
)
    requires
        plain_structs(structs),
        plain_mfields(fields),
        in_step(data, wst, dst),
    ensures
        ({
            let dr = dec_mfields(DCfg { structs, big }, data, dst, fields, i, out, fuel);
            let wr = walk_mfields_spec(extent_cfg(structs, big), wst, fields, i, fuel);
            dr matches DFieldsRes::Done { st: dst2, .. } ==> wr matches WRes::Done(wst2)
                && in_step(data, wst2, dst2)
        }),
    decreases fuel, fields.len() - i,
{
    if fuel == 0 || i >= fields.len() {
        return;
    }
    let f = fields[i as int];
    lemma_extent_type(structs, big, data, wst, dst, f.type_spec, Some(f.name@), (fuel - 1) as nat);
    match dec_type(DCfg { structs, big }, data, dst, f.type_spec, (fuel - 1) as nat) {
        DRes::Done { st: dst2, v } => {
            match walk_type_spec(
                extent_cfg(structs, big),
                wst,
                f.type_spec,
                Some(f.name@),
                (fuel - 1) as nat,
            ) {
                WRes::Done(wst2) => {
                    lemma_extent_mfields(
                        structs,
                        big,
                        data,
                        wst2,
                        DState { vals: dst2.vals.push(crate::codec::recorded(f.name@, v)), ..dst2 },
                        fields,
                        i + 1,
                        out.push((f.name@, v)),
                        fuel,
                    );
                },
                WRes::Fail(_) => {},
            }
        },
        DRes::Fail { .. } => {},
    }
}

/// Extent agreement for a struct body.
proof fn lemma_extent_sfields(
    structs: Seq<StructSection>,
    big: bool,
    data: Seq<u8>,
    wst: WState,
    dst: DState,
    fields: Seq<StructField>,
    i: nat,
    out: Seq<(Seq<char>, ValModel)>,
    fuel: nat,
)
    requires
        plain_structs(structs),
        plain_sfields(fields),
        in_step(data, wst, dst),
    ensures
        ({
            let dr = dec_sfields(DCfg { structs, big }, data, dst, fields, i, out, fuel);
            let wr = walk_sfields_spec(extent_cfg(structs, big), wst, fields, i, fuel);
            dr matches DFieldsRes::Done { st: dst2, .. } ==> wr matches WRes::Done(wst2)
                && in_step(data, wst2, dst2)
        }),
    decreases fuel, fields.len() - i,
{
    if fuel == 0 || i >= fields.len() {
        return;
    }
    let f = fields[i as int];
    lemma_extent_type(structs, big, data, wst, dst, f.type_spec, Some(f.name@), (fuel - 1) as nat);
    match dec_type(DCfg { structs, big }, data, dst, f.type_spec, (fuel - 1) as nat) {
        DRes::Done { st: dst2, v } => {
            match walk_type_spec(
                extent_cfg(structs, big),
                wst,
                f.type_spec,
                Some(f.name@),
                (fuel - 1) as nat,
            ) {
                WRes::Done(wst2) => {
                    lemma_extent_sfields(
                        structs,
                        big,
                        data,
                        wst2,
                        DState { vals: dst2.vals.push(crate::codec::recorded(f.name@, v)), ..dst2 },
                        fields,
                        i + 1,
                        out.push((f.name@, v)),
                        fuel,
                    );
                },
                WRes::Fail(_) => {},
            }
        },
        DRes::Fail { .. } => {},
    }
}

/// Extent agreement: for every record the codec decodes successfully, the
/// structure-only walk from offset zero consumes exactly the byte count the
/// decode reports. Stated for protocols whose fields are unconditioned plain
/// shapes; sub-byte bit-packed fields break it outright (the walk rounds
/// each such field to whole bytes while decode shares one bit cursor), and
/// conditions or field-referenced array lengths can read recordings the walk
/// does not keep.
pub proof fn lemma_extent_agreement(
    p: Protocol,
    big: bool,
    data: Seq<u8>,
    name: Seq<char>,
    fuel: nat,
)
    requires
        plain_structs(p.structs@),
        forall|i: int| 0 <= i < p.messages@.len() ==> plain_mfields(#[trigger] p.messages@[i].fields@),
    ensures
        ({
            let d = dec_message(p, big, data, name, fuel);
            let w = walk_message_spec(p, extent_cfg(p.structs@, big), data, 0, name, fuel);
            d matches DMsgRes::Done { consumed, .. } ==> w matches WRes::Done(st) && st.pos
                == consumed
        }),
{
    let mi = find_name(message_names(p), name, 0);
    if mi != -1 {
        lemma_find_name_in_range(message_names(p), name, 0);
        let dst = DState {
            pos: 0,
            vals: Seq::empty(),
            presence: crate::walk::PresenceModel::NoSource,
            bits: fresh_bits(),
        };
        let wst = WState {
            pos: 0,
            data,
            vals: Seq::empty(),
            presence: crate::walk::PresenceModel::NoSource,
        };
        lemma_extent_mfields(
            p.structs@,
            big,
            data,
            wst,
            dst,
            p.messages@[mi].fields@,
            0,
            Seq::empty(),
            fuel,
        );
    }
}

proof fn lemma_bitmap_high_clear(flags: Seq<bool>, j: u64)
    requires
        flags.len() <= j < 64,
    ensures
        (bitmap_of(flags) >> j) & 1 == 0,
    decreases flags.len(),
{
    if flags.len() == 0 {
        assert((0u64 >> j) & 1 == 0) by (bit_vector)
            requires
                j < 64,
        ;
    } else {
        lemma_bitmap_high_clear(flags.drop_last(), j);
        let b = bitmap_of(flags.drop_last());
        if flags.last() && flags.len() - 1 < 64 {
            let m = (flags.len() - 1) as u64;
            assert(bitmap_of(flags) == b | (1u64 << m));
            assert(((b | (1u64 << m)) >> j) & 1 == 0) by (bit_vector)
                requires
                    (b >> j) & 1 == 0,
                    m < j < 64,
            ;
        } else {
            assert(bitmap_of(flags) == b);
        }
    }
}

/// Each bit of the derived fixed presence bitmap is exactly its flag:
/// bit `i`, least-significant first, is set iff flag `i` holds.
pub proof fn lemma_bitmap_of_bits(flags: Seq<bool>, i: u64)
    requires
        i < flags.len(),
        i < 64,
    ensures
        (((bitmap_of(flags) >> i) & 1) == 1) == flags[i as int],
    decreases flags.len(),
{
    let b = bitmap_of(flags.drop_last());
    if i == flags.len() - 1 {
        if flags.last() {
            let m = (flags.len() - 1) as u64;
            assert(bitmap_of(flags) == b | (1u64 << m));
            assert(((b | (1u64 << m)) >> m) & 1 == 1) by (bit_vector)
                requires
                    m < 64,
            ;
        } else {
            assert(bitmap_of(flags) == b);
            lemma_bitmap_high_clear(flags.drop_last(), i);
        }
    } else {
        lemma_bitmap_of_bits(flags.drop_last(), i);
        if flags.last() && flags.len() - 1 < 64 {
            let m = (flags.len() - 1) as u64;
            assert(bitmap_of(flags) == b | (1u64 << m));
            assert(((b | (1u64 << m)) >> i) & 1 == (b >> i) & 1) by (bit_vector)
                requires
                    i < m < 64,
            ;
        } else {
            assert(bitmap_of(flags) == b);
        }
    }
}

/// Presence exclusivity, encode side, for a whole container: the fixed
/// presence bitmap a `PresenceBits` field writes sets bit `j` exactly when
/// the `j`-th Optional of its governed run counts as present in the value
/// map; the presence field's own entry never takes part, and no other bit
/// of the map influences the outcome.
pub proof fn lemma_encode_presence_derived(
    m: Seq<(Seq<char>, ValModel)>,
    fields: Seq<MessageField>,
    i: int,
    j: u64,
)
    requires
        0 <= i < fields.len(),
        j < run_indices_m(m, fields, i + 1).len(),
        j < 64,
    ensures
        ({
            let indices = run_indices_m(m, fields, i + 1);
            let flags = run_flags_m(m, fields, indices);
            (((bitmap_of(flags) >> j) & 1) == 1) == (0 <= indices[j as int] < fields.len()
                && opt_present(m, fields[indices[j as int]].name@))
        }),
{
    let indices = run_indices_m(m, fields, i + 1);
    let flags = run_flags_m(m, fields, indices);
    lemma_bitmap_of_bits(flags, j);
}

proof fn lemma_block_bits_low_clear(flags: Seq<bool>, start: int, upto: nat, t: nat)
    requires
        upto <= t < 8,
    ensures
        (block_bits(flags, start, upto) >> ((7 - t) as u8)) & 1 == 0,
    decreases upto,
{
    if upto == 0 {
        let sh = (7 - t) as u8;
        assert((0u8 >> sh) & 1 == 0) by (bit_vector)
            requires
                sh < 8,
        ;
    } else {
        lemma_block_bits_low_clear(flags, start, (upto - 1) as nat, t);
        let u = (upto - 1) as nat;
        let x = block_bits(flags, start, u);
        let sh = (7 - t) as u8;
        let shu = (7 - u) as u8;
        if start + u < flags.len() && 0 <= start + u && u < 8 && flags[start + u] {
            assert(block_bits(flags, start, upto) == x | (1u8 << shu));
            assert(((x | (1u8 << shu)) >> sh) & 1 == 0) by (bit_vector)
                requires
                    (x >> sh) & 1 == 0,
                    sh < shu < 8,
            ;
        } else {
            assert(block_bits(flags, start, upto) == x);
        }
    }
}

proof fn lemma_block_bits_bit(flags: Seq<bool>, start: int, upto: nat, t: nat)
    requires
        t < upto <= 8,
    ensures
        ((block_bits(flags, start, upto) >> ((7 - t) as u8)) & 1 == 1) == (start + t
            < flags.len() && 0 <= start + t && flags[start + t]),
    decreases upto,
{
    let u = (upto - 1) as nat;
    let x = block_bits(flags, start, u);
    let sh = (7 - t) as u8;
    let shu = (7 - u) as u8;
    if t == u {
        if start + u < flags.len() && 0 <= start + u && u < 8 && flags[start + u] {
            assert(block_bits(flags, start, upto) == x | (1u8 << shu));
            assert(((x | (1u8 << shu)) >> shu) & 1 == 1) by (bit_vector)
                requires
                    shu < 8,
            ;
        } else {
            assert(block_bits(flags, start, upto) == x);
            lemma_block_bits_low_clear(flags, start, u, t);
        }
    } else {
        lemma_block_bits_bit(flags, start, u, t);
        if start + u < flags.len() && 0 <= start + u && u < 8 && flags[start + u] {
            assert(block_bits(flags, start, upto) == x | (1u8 << shu));
            assert(((x | (1u8 << shu)) >> sh) & 1 == (x >> sh) & 1) by (bit_vector)
                requires
                    shu < sh < 8,
            ;
        } else {
            assert(block_bits(flags, start, upto) == x);
        }
    }
}

/// Presence exclusivity, encode side, for the variable bitmap: in the FX
/// blocks a `BitmapPresence` field writes, presence bit `i` — the bit
/// `i % k` from the most significant end of block `i / k` — is set iff flag
/// `i` holds, for every block the encoder emits.
pub proof fn lemma_fspec_bytes_bits(flags: Seq<bool>, k: nat, i: nat)
    requires
        1 <= k,
        i < flags.len(),
        i % k < (if k < 7 {
            k
        } else {
            7
        }),
        i / k < fspec_bytes_of(flags, k).len(),
    ensures
        ({
            let bytes = fspec_bytes_of(flags, k);
            let b = i / k;
            let t = i % k;
            (((bytes[b as int] >> ((7 - t) as u8)) & 1) == 1) == flags[i as int]
        }),
{
    let bytes = fspec_bytes_of(flags, k);
    let b = i / k;
    let t = i % k;
    let upto: nat = if k < 7 {
        k
    } else {
        7
    };
    let base = block_bits(flags, b as int * k as int, upto);
    assert(b as int * k as int + t == i) by (nonlinear_arith)
        requires
            k >= 1,
            b == i / k,
            t == i % k,
    ;
    lemma_block_bits_bit(flags, b as int * k as int, upto, t);
    if b < bytes.len() - 1 {
        assert(bytes[b as int] == base | 1u8);
        let sh = (7 - t) as u8;
        assert(((base | 1u8) >> sh) & 1 == (base >> sh) & 1) by (bit_vector)
            requires
                1 <= sh < 8,
        ;
    } else {
        assert(bytes[b as int] == base);
    }
}

/// A field shape whose decoding leaves the scope's presence source alone:
/// everything except a presence field, which installs a new source, and an
/// Optional, which consumes a bit. A struct reference qualifies because its
/// body runs in a fresh frame and the outer source is restored.
pub open spec fn keeps_presence(t: TypeSpec) -> bool
    decreases t,
{
    match t {
        TypeSpec::PresenceBits(_) => false,
        TypeSpec::BitmapPresence { .. } => false,
        TypeSpec::Optional(_) => false,
        TypeSpec::Array(e, _) => keeps_presence(*e),
        TypeSpec::List(e) => keeps_presence(*e),
        TypeSpec::RepList(e) => keeps_presence(*e),
        _ => true,
    }
}

proof fn lemma_keep_type(cfg: DCfg, data: Seq<u8>, st: DState, t: TypeSpec, fuel: nat)
    requires
        keeps_presence(t),
    ensures
        dec_type(cfg, data, st, t, fuel) matches DRes::Done { st: st2, .. } ==> st2.presence
            == st.presence,
    decreases fuel, 0nat,
{
    if fuel == 0 {
        return;
    }
    match t {
        TypeSpec::Array(e, len) => {
            match (match len {
                crate::ast::ArrayLen::Constant(k) => Some(k),
                crate::ast::ArrayLen::FieldRef(f) => crate::codec::dget_u64(st.vals, f@),
            }) {
                Some(k) => {
                    lemma_keep_items(cfg, data, st, *e, k as nat, (fuel - 1) as nat);
                },
                None => {},
            }
        },
        TypeSpec::List(e) => {
            if st.bits.next == 8 && st.pos + 4 <= data.len() {
                let k = crate::wire::word_val(
                    data.subrange(st.pos as int, (st.pos + 4) as int),
                    cfg.big,
                );
                lemma_keep_items(
                    cfg,
                    data,
                    DState { pos: st.pos + 4, ..st },
                    *e,
                    k,
                    (fuel - 1) as nat,
                );
            }
        },
        TypeSpec::RepList(e) => {
            if st.bits.next == 8 && st.pos + 1 <= data.len() {
                let k = data[st.pos as int] as nat;
                lemma_keep_items(
                    cfg,
                    data,
                    DState { pos: st.pos + 1, ..st },
                    *e,
                    k,
                    (fuel - 1) as nat,
                );
            }
        },
        _ => {},
    }
}

proof fn lemma_keep_items(
    cfg: DCfg,
    data: Seq<u8>,
    st: DState,
    elem: TypeSpec,
    n: nat,
    fuel: nat,
)
    requires
        keeps_presence(elem),
    ensures
        dec_items(cfg, data, st, elem, n, fuel) matches DItemsRes::Done { st: st2, .. }
            ==> st2.presence == st.presence,
    decreases fuel, n,
{
    if n > 0 {
        lemma_keep_type(cfg, data, st, elem, fuel);
        match dec_type(cfg, data, st, elem, fuel) {
            DRes::Done { st: st2, .. } => {
                lemma_keep_items(cfg, data, st2, elem, (n - 1) as nat, fuel);
            },
            DRes::Fail { .. } => {},
        }
    }
}

/// A successful field pass only ever appends to the accumulated output, so
/// entries keep their positions.
proof fn lemma_mfields_extends(
    cfg: DCfg,
    data: Seq<u8>,
    st: DState,
    fields: Seq<MessageField>,
    i: nat,
    out: Seq<(Seq<char>, ValModel)>,
    fuel: nat,
)
    ensures
        dec_mfields(cfg, data, st, fields, i, out, fuel) matches DFieldsRes::Done {
            out: out_all,
            ..
        } ==> out_all.len() >= out.len() && out_all.take(out.len() as int) == out,
    decreases fuel, fields.len() - i,
{
    if fuel == 0 || i >= fields.len() {
        match dec_mfields(cfg, data, st, fields, i, out, fuel) {
            DFieldsRes::Done { out: out_all, .. } => {
                assert(out_all.take(out.len() as int) =~= out);
            },
            DFieldsRes::Fail { .. } => {},
        }
        return;
    }
    let f = fields[i as int];
    if (match f.condition {
        Some(c) => !crate::codec::dcond_passes(st.vals, c),
        None => false,
    }) {
        lemma_mfields_extends(cfg, data, st, fields, i + 1, out, fuel);
    } else {
        match dec_type(cfg, data, st, f.type_spec, (fuel - 1) as nat) {
            DRes::Done { st: st2, v } => {
                let out2 = out.push((f.name@, v));
                lemma_mfields_extends(
                    cfg,
                    data,
                    DState { vals: st2.vals.push(crate::codec::recorded(f.name@, v)), ..st2 },
                    fields,
                    i + 1,
                    out2,
                    fuel,
                );
                match dec_mfields(cfg, data, st, fields, i, out, fuel) {
                    DFieldsRes::Done { out: out_all, .. } => {
                        assert(out_all.take(out2.len() as int) == out2);
                        assert(out_all.take(out.len() as int) =~= out);
                    },
                    DFieldsRes::Fail { .. } => {},
                }
            },
            DRes::Fail { .. } => {},
        }
    }
}

proof fn lemma_run_inner(
    cfg: DCfg,
    data: Seq<u8>,
    st: DState,
    fields: Seq<MessageField>,
    idx: nat,
    out: Seq<(Seq<char>, ValModel)>,
    fuel: nat,
    bm: u64,
    p: usize,
    m: nat,
)
    requires
        st.presence == (PresenceModel::Fixed { value: bm, idx: p }),
        idx + m < fields.len(),
        forall|k: int|
            idx <= k <= idx + m ==> (#[trigger] fields[k]).condition is None && fields[k].type_spec
                is Optional && keeps_presence(optional_elem(fields[k].type_spec)),
        p + m < 64,
    ensures
        dec_mfields(cfg, data, st, fields, idx, out, fuel) matches DFieldsRes::Done {
            out: out_all,
            ..
        } ==> {
            &&& out_all.len() > out.len() + m
            &&& out_all[(out.len() + m) as int].0 == fields[(idx + m) as int].name@
            &&& (((bm >> ((p + m) as u64)) & 1) == 0 ==> out_all[(out.len() + m) as int].1
                == ValModel::List(Seq::empty()))
        },
    decreases m,
{
    if fuel == 0 {
        return;
    }
    let f = fields[idx as int];
    assert(f.condition is None && f.type_spec is Optional);
    let inner = optional_elem(f.type_spec);
    match dec_type(cfg, data, st, f.type_spec, (fuel - 1) as nat) {
        DRes::Done { st: st2, v } => {
            let stepped = PresenceModel::Fixed { value: bm, idx: (p + 1) as usize };
            let b = p < 64 && ((bm >> (p as u64)) & 1) == 1;
            if b {
                lemma_keep_type(
                    cfg,
                    data,
                    DState { presence: stepped, ..st },
                    inner,
                    (fuel - 1 - 1) as nat,
                );
            }
            assert(st2.presence == stepped);
            assert(!b ==> v == ValModel::List(Seq::empty()));
            let out2 = out.push((f.name@, v));
            let stv = DState { vals: st2.vals.push(crate::codec::recorded(f.name@, v)), ..st2 };
            if m == 0 {
                lemma_mfields_extends(cfg, data, stv, fields, idx + 1, out2, fuel);
                match dec_mfields(cfg, data, st, fields, idx, out, fuel) {
                    DFieldsRes::Done { out: out_all, .. } => {
                        assert(out_all.take(out2.len() as int) == out2);
                        assert(out_all[out.len() as int] == out2[out.len() as int]);
                    },
                    DFieldsRes::Fail { .. } => {},
                }
            } else {
                lemma_run_inner(
                    cfg,
                    data,
                    stv,
                    fields,
                    idx + 1,
                    out2,
                    fuel,
                    bm,
                    (p + 1) as usize,
                    (m - 1) as nat,
                );
            }
        },
        DRes::Fail { .. } => {},
    }
}

/// Presence exclusivity, decode side, for a whole container: after a fixed
/// presence bitmap, the `j`-th Optional of an unbroken run decodes from
/// exactly presence bit `j` of the bitmap that the presence field itself
/// decoded to — in particular, a clear bit `j` forces the absent marker for
/// that field and no other bit can change this.
pub proof fn lemma_decode_presence_run(
    cfg: DCfg,
    data: Seq<u8>,
    st: DState,
    fields: Seq<MessageField>,
    i: nat,
    out: Seq<(Seq<char>, ValModel)>,
    fuel: nat,
    j: nat,
)
    requires
        i < fields.len(),
        fields[i as int].condition is None,
        fields[i as int].type_spec is PresenceBits,
        i + 1 + j < fields.len(),
        forall|k: int|
            i + 1 <= k <= i + 1 + j ==> (#[trigger] fields[k]).condition is None
                && fields[k].type_spec is Optional && keeps_presence(
                optional_elem(fields[k].type_spec),
            ),
        j < 64,
    ensures
        dec_mfields(cfg, data, st, fields, i, out, fuel) matches DFieldsRes::Done {
            out: out_all,
            ..
        } ==> {
            &&& out_all.len() > out.len() + 1 + j
            &&& out_all[out.len() as int].0 == fields[i as int].name@
            &&& out_all[(out.len() + 1 + j) as int].0 == fields[(i + 1 + j) as int].name@
            &&& (out_all[out.len() as int].1 matches ValModel::U64(bm) && ((bm >> (j as u64)) & 1)
                == 0 ==> out_all[(out.len() + 1 + j) as int].1 == ValModel::List(Seq::empty()))
        },
{
    if fuel == 0 {
        return;
    }
    let f = fields[i as int];
    match dec_type(cfg, data, st, f.type_spec, (fuel - 1) as nat) {
        DRes::Done { st: st2, v } => {
            let out2 = out.push((f.name@, v));
            let stv = DState { vals: st2.vals.push(crate::codec::recorded(f.name@, v)), ..st2 };
            assert(v matches ValModel::U64(bm) && st2.presence == (PresenceModel::Fixed {
                value: bm,
                idx: 0,
            }));
            match v {
                ValModel::U64(bm) => {
                    lemma_run_inner(cfg, data, stv, fields, i + 1, out2, fuel, bm, 0, j);
                    lemma_mfields_extends(cfg, data, stv, fields, i + 1, out2, fuel);
                    match dec_mfields(cfg, data, st, fields, i, out, fuel) {
                        DFieldsRes::Done { out: out_all, .. } => {
                            assert(out_all.take(out2.len() as int) == out2);
                            assert(out_all[out.len() as int] == out2[out.len() as int]);
                        },
                        DFieldsRes::Fail { .. } => {},
                    }
                },
                _ => {},
            }
        },
        DRes::Fail { .. } => {},
    }
}

proof fn lemma_sfields_extends(
    cfg: DCfg,
    data: Seq<u8>,
    st: DState,
    fields: Seq<StructField>,
    i: nat,
    out: Seq<(Seq<char>, ValModel)>,
    fuel: nat,
)
    ensures
        dec_sfields(cfg, data, st, fields, i, out, fuel) matches DFieldsRes::Done {
            out: out_all,
            ..
        } ==> out_all.len() >= out.len() && out_all.take(out.len() as int) == out,
    decreases fuel, fields.len() - i,
{
    if fuel == 0 || i >= fields.len() {
        match dec_sfields(cfg, data, st, fields, i, out, fuel) {
            DFieldsRes::Done { out: out_all, .. } => {
                assert(out_all.take(out.len() as int) =~= out);
            },
            DFieldsRes::Fail { .. } => {},
        }
        return;
    }
    let f = fields[i as int];
    if (match f.condition {
        Some(c) => !crate::codec::dcond_passes(st.vals, c),
        None => false,
    }) {
        lemma_sfields_extends(cfg, data, st, fields, i + 1, out, fuel);
    } else {
        match dec_type(cfg, data, st, f.type_spec, (fuel - 1) as nat) {
            DRes::Done { st: st2, v } => {
                if (match f.constraint {
                    Some(c) => !crate::codec::vconstraint_ok(v, c),
                    None => false,
                }) {
                } else {
                    let out2 = out.push((f.name@, v));
                    lemma_sfields_extends(
                        cfg,
                        data,
                        DState { vals: st2.vals.push(crate::codec::recorded(f.name@, v)), ..st2 },
                        fields,
                        i + 1,
                        out2,
                        fuel,
                    );
                    match dec_sfields(cfg, data, st, fields, i, out, fuel) {
                        DFieldsRes::Done { out: out_all, .. } => {
                            assert(out_all.take(out2.len() as int) == out2);
                            assert(out_all.take(out.len() as int) =~= out);
                        },
                        DFieldsRes::Fail { .. } => {},
                    }
                }
            },
            DRes::Fail { .. } => {},
        }
    }
}

proof fn lemma_run_inner_s(
    cfg: DCfg,
    data: Seq<u8>,
    st: DState,
    fields: Seq<StructField>,
    idx: nat,
    out: Seq<(Seq<char>, ValModel)>,
    fuel: nat,
    bm: u64,
    p: usize,
    m: nat,
)
    requires
        st.presence == (PresenceModel::Fixed { value: bm, idx: p }),
        idx + m < fields.len(),
        forall|k: int|
            idx <= k <= idx + m ==> (#[trigger] fields[k]).condition is None && fields[k].type_spec
                is Optional && keeps_presence(optional_elem(fields[k].type_spec)),
        p + m < 64,
    ensures
        dec_sfields(cfg, data, st, fields, idx, out, fuel) matches DFieldsRes::Done {
            out: out_all,
            ..
        } ==> {
            &&& out_all.len() > out.len() + m
            &&& out_all[(out.len() + m) as int].0 == fields[(idx + m) as int].name@
            &&& (((bm >> ((p + m) as u64)) & 1) == 0 ==> out_all[(out.len() + m) as int].1
                == ValModel::List(Seq::empty()))
        },
    decreases m,
{
    if fuel == 0 {
        return;
    }
    let f = fields[idx as int];
    assert(f.condition is None && f.type_spec is Optional);
    let inner = optional_elem(f.type_spec);
    match dec_type(cfg, data, st, f.type_spec, (fuel - 1) as nat) {
        DRes::Done { st: st2, v } => {
            let stepped = PresenceModel::Fixed { value: bm, idx: (p + 1) as usize };
            let b = p < 64 && ((bm >> (p as u64)) & 1) == 1;
            if b {
                lemma_keep_type(
                    cfg,
                    data,
                    DState { presence: stepped, ..st },
                    inner,
                    (fuel - 1 - 1) as nat,
                );
            }
            assert(st2.presence == stepped);
            assert(!b ==> v == ValModel::List(Seq::empty()));
            if (match f.constraint {
                Some(c) => !crate::codec::vconstraint_ok(v, c),
                None => false,
            }) {
                return;
            }
            let out2 = out.push((f.name@, v));
            let stv = DState { vals: st2.vals.push(crate::codec::recorded(f.name@, v)), ..st2 };
            if m == 0 {
                lemma_sfields_extends(cfg, data, stv, fields, idx + 1, out2, fuel);
                match dec_sfields(cfg, data, st, fields, idx, out, fuel) {
                    DFieldsRes::Done { out: out_all, .. } => {
                        assert(out_all.take(out2.len() as int) == out2);
                        assert(out_all[out.len() as int] == out2[out.len() as int]);
                    },
                    DFieldsRes::Fail { .. } => {},
                }
            } else {
                lemma_run_inner_s(
                    cfg,
                    data,
                    stv,
                    fields,
                    idx + 1,
                    out2,
                    fuel,
                    bm,
                    (p + 1) as usize,
                    (m - 1) as nat,
                );
            }
        },
        DRes::Fail { .. } => {},
    }
}

/// Presence exclusivity, decode side, for struct scopes: the same law as
/// [`lemma_decode_presence_run`], over a struct body's fields.
pub proof fn lemma_decode_presence_run_s(
    cfg: DCfg,
    data: Seq<u8>,
    st: DState,
    fields: Seq<StructField>,
    i: nat,
    out: Seq<(Seq<char>, ValModel)>,
    fuel: nat,
    j: nat,
)
    requires
        i < fields.len(),
        fields[i as int].condition is None,
        fields[i as int].type_spec is PresenceBits,
        i + 1 + j < fields.len(),
        forall|k: int|
            i + 1 <= k <= i + 1 + j ==> (#[trigger] fields[k]).condition is None
                && fields[k].type_spec is Optional && keeps_presence(
                optional_elem(fields[k].type_spec),
            ),
        j < 64,
    ensures
        dec_sfields(cfg, data, st, fields, i, out, fuel) matches DFieldsRes::Done {
            out: out_all,
            ..
        } ==> {
            &&& out_all.len() > out.len() + 1 + j
            &&& out_all[out.len() as int].0 == fields[i as int].name@
            &&& out_all[(out.len() + 1 + j) as int].0 == fields[(i + 1 + j) as int].name@
            &&& (out_all[out.len() as int].1 matches ValModel::U64(bm) && ((bm >> (j as u64)) & 1)
                == 0 ==> out_all[(out.len() + 1 + j) as int].1 == ValModel::List(Seq::empty()))
        },
{
    if fuel == 0 {
        return;
    }
    let f = fields[i as int];
    match dec_type(cfg, data, st, f.type_spec, (fuel - 1) as nat) {
        DRes::Done { st: st2, v } => {
            let out2 = out.push((f.name@, v));
            let stv = DState { vals: st2.vals.push(crate::codec::recorded(f.name@, v)), ..st2 };
            assert(v matches ValModel::U64(bm) && st2.presence == (PresenceModel::Fixed {
                value: bm,
                idx: 0,
            }));
            match v {
                ValModel::U64(bm) => {
                    lemma_run_inner_s(cfg, data, stv, fields, i + 1, out2, fuel, bm, 0, j);
                    lemma_sfields_extends(cfg, data, stv, fields, i + 1, out2, fuel);
                    match dec_sfields(cfg, data, st, fields, i, out, fuel) {
                        DFieldsRes::Done { out: out_all, .. } => {
                            assert(out_all.take(out2.len() as int) == out2);
                            assert(out_all[out.len() as int] == out2[out.len() as int]);
                        },
                        DFieldsRes::Fail { .. } => {},
                    }
                },
                _ => {},
            }
        },
        DRes::Fail { .. } => {},
    }
}

} // verus!
