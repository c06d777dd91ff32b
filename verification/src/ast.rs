//! The resolved protocol description: sections, field shapes, constraints,
//! and the name-resolution pass that the codec and the walk engine share.

use vstd::prelude::*;
use vstd::string::StringExecFns;
use crate::value::{str_eq, ValueMap, ValModel, map_get, spec_as_i64};

verus! {

/// Root protocol definition: transport, payload, abstract type definitions,
/// enumerations, messages and structs.
#[derive(Debug)]
pub struct Protocol {
    pub transport: Option<TransportSection>,
    /// Which messages can follow the transport and how the message type is
    /// selected from a transport field.
    pub payload: Option<PayloadSection>,
    /// Abstract data-model definitions: what the data is.
    pub type_defs: Vec<TypeDefSection>,
    /// Enumerated types: named constants.
    pub enum_defs: Vec<EnumSection>,
    /// Message-level wire format: how the data is serialized.
    pub messages: Vec<MessageSection>,
    /// Struct-level wire format, referenced from messages by name.
    pub structs: Vec<StructSection>,
}

/// Abstract type definition, independent of encoding.
#[derive(Debug)]
pub struct TypeDefSection {
    pub name: String,
    pub fields: Vec<TypeDefField>,
}

/// A field of an abstract type definition.
#[derive(Debug)]
pub struct TypeDefField {
    pub name: String,
    pub abstract_type: AbstractType,
    /// True when the field is optional.
    pub optional: bool,
    /// Value constraint, when any.
    pub constraint: Option<Constraint>,
    /// Resolution/unit for display.
    pub quantum: Option<String>,
}

/// Abstract type: the logical shape, not the wire encoding.
#[derive(Debug)]
pub enum AbstractType {
    /// Integer of any size or sign.
    Integer,
    /// Boolean value.
    Boolean,
    /// Raw byte sequence.
    Octets,
    /// Floating-point value.
    Real,
    /// Reference to another defined type.
    TypeRef(String),
    /// Ordered sequence of values of one type.
    SequenceOf(Box<AbstractType>),
}

/// Enumeration section: named constants.
#[derive(Debug)]
pub struct EnumSection {
    pub name: String,
    pub variants: Vec<(String, Literal)>,
}

/// Which message types can appear after the transport header.
#[derive(Debug)]
pub struct PayloadSection {
    /// Message type names that can follow the transport.
    pub messages: Vec<String>,
    /// Which transport field selects the message type, when any.
    pub selector: Option<PayloadSelector>,
    /// True when each data block carries a list of records.
    pub repeated: bool,
}

/// Value-to-message selection from a transport field.
#[derive(Debug)]
pub struct PayloadSelector {
    /// Transport field whose value selects the message type.
    pub transport_field: String,
    /// `(value, message_name, is_list)` triples.
    pub value_to_message: Vec<(Literal, String, bool)>,
}

/// Transport header section.
#[derive(Debug)]
pub struct TransportSection {
    pub fields: Vec<TransportField>,
}

/// A field of the transport header.
#[derive(Debug)]
pub struct TransportField {
    pub name: String,
    pub type_spec: TransportTypeSpec,
    pub default: Option<Literal>,
    pub constraint: Option<Constraint>,
    pub quantum: Option<String>,
}

/// Field shapes allowed in the transport header.
#[derive(Debug)]
pub enum TransportTypeSpec {
    Base(BaseType),
    SizedInt(BaseType, u64),
    Padding(u64),
    Reserved(u64),
    Bitfield(u64),
    Magic(Vec<u8>),
}

/// A message definition.
#[derive(Debug)]
pub struct MessageSection {
    pub name: String,
    pub fields: Vec<MessageField>,
}

/// A field of a message.
#[derive(Debug)]
pub struct MessageField {
    pub name: String,
    pub type_spec: TypeSpec,
    pub default: Option<Literal>,
    pub constraint: Option<Constraint>,
    pub condition: Option<Condition>,
    pub quantum: Option<String>,
}

/// A struct definition, referenced from messages or other structs.
#[derive(Debug)]
pub struct StructSection {
    pub name: String,
    pub fields: Vec<StructField>,
}

/// A field of a struct.
#[derive(Debug)]
pub struct StructField {
    pub name: String,
    pub type_spec: TypeSpec,
    pub default: Option<Literal>,
    pub constraint: Option<Constraint>,
    pub condition: Option<Condition>,
    pub quantum: Option<String>,
}

/// Conditional presence: the owning field exists only when the named sibling
/// field equals the literal.
#[derive(Debug)]
pub struct Condition {
    pub field: String,
    pub value: Literal,
}

/// Field type specification.
#[derive(Debug)]
pub enum TypeSpec {
    /// Natural-size integer, boolean or float.
    Base(BaseType),
    /// Integer stored in `n` bits, sign-extended when the base type is signed.
    SizedInt(BaseType, u64),
    /// `n` bytes skipped on decode, zeroed on encode.
    Padding(u64),
    /// `n` bytes skipped on decode, zeroed on encode.
    Reserved(u64),
    /// `n` bits read as an unsigned value, no sign extension.
    Bitfield(u64),
    /// 32-bit length prefix referring to another field by name.
    LengthOf(String),
    /// 32-bit count prefix referring to another field by name.
    CountOf(String),
    /// Fixed-size presence bitmap of 1, 2 or 4 bytes; its bits drive the
    /// Optional fields that follow.
    PresenceBits(u64),
    /// Variable-length presence bitmap with FX termination. With
    /// `presence_per_block = k > 0`, each byte carries `k` presence bits from
    /// the most significant bit down and an FX bit in the least significant
    /// bit; with `k = 0` the bitmap is `ceil(total_bits/8)` bytes of
    /// consecutive presence bits. The mapping lists `(logical_bit, name)`
    /// pairs; empty means bit `i` governs the `i`-th following Optional.
    BitmapPresence { total_bits: u32, presence_per_block: u32, mapping: Vec<(u32, String)> },
    /// Spare bits inside the bit cursor, zeroed on encode.
    PaddingBits(u64),
    /// Nominal reference to a struct of the protocol.
    StructRef(String),
    /// Fixed- or field-referenced-length sequence; the count is not on the wire.
    Array(Box<TypeSpec>, ArrayLen),
    /// 32-bit length-prefixed sequence.
    List(Box<TypeSpec>),
    /// Sequence preceded by a one-byte repetition factor.
    RepList(Box<TypeSpec>),
    /// Variable-length byte run: bytes are read while bit 7 is set, and the
    /// terminating byte is included.
    OctetsFx,
    /// Presence-governed field: present exactly when the current presence
    /// source's next bit is 1.
    Optional(Box<TypeSpec>),
}

/// Length of an [`TypeSpec::Array`]: a constant or a reference to an integer
/// field decoded earlier in the same scope.
#[derive(Debug)]
pub enum ArrayLen {
    Constant(u64),
    FieldRef(String),
}

/// Base scalar types with fixed byte sizes.
#[derive(Debug, Clone, Copy, PartialEq, Eq, Structural)]
pub enum BaseType {
    U8,
    U16,
    U32,
    U64,
    I8,
    I16,
    I32,
    I64,
    Bool,
    Float,
    Double,
}

/// Value constraint: intervals or an enumerated set.
#[derive(Debug)]
pub enum Constraint {
    /// Inclusive intervals; a value is valid when it falls in any of them.
    Range(Vec<(i64, i64)>),
    /// Allowed literal values.
    Enum(Vec<Literal>),
}

/// Literal values appearing in defaults, conditions and constraints.
#[derive(Debug, Clone, PartialEq)]
pub enum Literal {
    Int(i64),
    Bool(bool),
    Hex(u64),
    String(String),
}

/// Unsigned reading of a literal, as [`Literal::as_u64`] returns it.
pub open spec fn literal_as_u64(l: Literal) -> Option<u64> {
    match l {
        Literal::Int(i) => if i >= 0 { Some(i as u64) } else { None },
        Literal::Hex(h) => Some(h),
        _ => None,
    }
}

/// Signed reading of a literal, as [`Literal::as_i64`] returns it.
pub open spec fn literal_as_i64(l: Literal) -> Option<i64> {
    match l {
        Literal::Int(i) => Some(i),
        Literal::Hex(h) => Some(h as i64),
        _ => None,
    }
}

impl Literal {
    /// The literal as an unsigned integer, when it is a non-negative `Int` or
    /// a `Hex`.
    pub fn as_u64(&self) -> (r: Option<u64>)
        ensures
            r == literal_as_u64(*self),
    {
        match self {
            Literal::Int(i) => if *i >= 0 { Some(*i as u64) } else { None },
            Literal::Hex(h) => Some(*h),
            _ => None,
        }
    }

    /// The literal as a signed integer, when it is an `Int` or a `Hex`.
    pub fn as_i64(&self) -> (r: Option<i64>)
        ensures
            r == literal_as_i64(*self),
    {
        match self {
            Literal::Int(i) => Some(*i),
            Literal::Hex(h) => Some(*h as i64),
            _ => None,
        }
    }
}

/// Byte size of each base type on the wire.
pub open spec fn spec_base_type_size(bt: BaseType) -> nat {
    match bt {
        BaseType::U8 | BaseType::I8 | BaseType::Bool => 1,
        BaseType::U16 | BaseType::I16 => 2,
        BaseType::U32 | BaseType::I32 | BaseType::Float => 4,
        BaseType::U64 | BaseType::I64 | BaseType::Double => 8,
    }
}

/// Byte size of a base type on the wire.
pub fn base_type_size(bt: &BaseType) -> (r: usize)
    ensures
        r == spec_base_type_size(*bt),
{
    match bt {
        BaseType::U8 | BaseType::I8 | BaseType::Bool => 1,
        BaseType::U16 | BaseType::I16 => 2,
        BaseType::U32 | BaseType::I32 | BaseType::Float => 4,
        BaseType::U64 | BaseType::I64 | BaseType::Double => 8,
    }
}

/// True for signed base types, which sign-extend when sized.
pub open spec fn spec_is_signed(bt: BaseType) -> bool {
    bt == BaseType::I8 || bt == BaseType::I16 || bt == BaseType::I32 || bt == BaseType::I64
}

/// Mapping from a presence field to the optional fields its bits govern.
#[derive(Debug)]
pub struct FspecMapping {
    /// Name of the presence field.
    pub fspec_field: String,
    /// Names of the optional fields that follow, in bit order.
    pub optional_fields: Vec<String>,
    /// Logical bit position to field name, in bit order.
    pub bit_to_field: Vec<(u32, String)>,
}

/// First index in `pairs` whose bit equals `bit`, or `-1`.
pub open spec fn find_bit(pairs: Seq<(u32, String)>, bit: u32, i: int) -> int
    decreases pairs.len() - i,
{
    if i < 0 || i >= pairs.len() {
        -1
    } else if pairs[i].0 == bit {
        i
    } else {
        find_bit(pairs, bit, i + 1)
    }
}

/// First index in `pairs` whose name equals `name`, or `-1`.
pub open spec fn find_bit_name(pairs: Seq<(u32, String)>, name: Seq<char>, i: int) -> int
    decreases pairs.len() - i,
{
    if i < 0 || i >= pairs.len() {
        -1
    } else if pairs[i].1@ == name {
        i
    } else {
        find_bit_name(pairs, name, i + 1)
    }
}

impl FspecMapping {
    /// Field name for a presence bit position, or `None` when the bit is out
    /// of range of the mapping.
    pub fn field_for_bit(&self, bit: u32) -> (r: Option<&str>)
        ensures
            match r {
                Some(name) => {
                    let i = find_bit(self.bit_to_field@, bit, 0);
                    i >= 0 && name@ == self.bit_to_field@[i].1@
                },
                None => find_bit(self.bit_to_field@, bit, 0) == -1,
            },
    {
        let n = self.bit_to_field.len();
        let mut i: usize = 0;
        while i < n
            invariant
                i <= n,
                n == self.bit_to_field@.len(),
                find_bit(self.bit_to_field@, bit, 0) == find_bit(self.bit_to_field@, bit, i as int),
            decreases n - i,
        {
            if self.bit_to_field[i].0 == bit {
                return Some(self.bit_to_field[i].1.as_str());
            }
            i = i + 1;
        }
        None
    }

    /// Presence bit position for a field name, or `None` when the field is
    /// not governed by this mapping.
    pub fn bit_for_field(&self, field_name: &str) -> (r: Option<u32>)
        ensures
            match r {
                Some(bit) => {
                    let i = find_bit_name(self.bit_to_field@, field_name@, 0);
                    i >= 0 && bit == self.bit_to_field@[i].0
                },
                None => find_bit_name(self.bit_to_field@, field_name@, 0) == -1,
            },
    {
        let n = self.bit_to_field.len();
        let mut i: usize = 0;
        while i < n
            invariant
                i <= n,
                n == self.bit_to_field@.len(),
                find_bit_name(self.bit_to_field@, field_name@, 0) == find_bit_name(
                    self.bit_to_field@,
                    field_name@,
                    i as int,
                ),
            decreases n - i,
        {
            if str_eq(self.bit_to_field[i].1.as_str(), field_name) {
                return Some(self.bit_to_field[i].0);
            }
            i = i + 1;
        }
        None
    }
}

/// Model of an [`FspecMapping`]: the same data over character sequences.
pub ghost struct MappingModel {
    pub fspec_field: Seq<char>,
    pub optional_fields: Seq<Seq<char>>,
    pub bit_to_field: Seq<(u32, Seq<char>)>,
}

impl View for FspecMapping {
    type V = MappingModel;

    open spec fn view(&self) -> MappingModel {
        MappingModel {
            fspec_field: self.fspec_field@,
            optional_fields: Seq::new(
                self.optional_fields@.len(),
                |i: int| self.optional_fields@[i]@,
            ),
            bit_to_field: Seq::new(
                self.bit_to_field@.len(),
                |i: int| (self.bit_to_field@[i].0, self.bit_to_field@[i].1@),
            ),
        }
    }
}

/// Names of all messages, in declaration order.
pub open spec fn message_names(p: Protocol) -> Seq<Seq<char>> {
    Seq::new(p.messages@.len(), |i: int| p.messages@[i].name@)
}

/// Names of all structs, in declaration order.
pub open spec fn struct_names(p: Protocol) -> Seq<Seq<char>> {
    Seq::new(p.structs@.len(), |i: int| p.structs@[i].name@)
}

/// Names of all abstract type definitions, in declaration order.
pub open spec fn type_def_names(p: Protocol) -> Seq<Seq<char>> {
    Seq::new(p.type_defs@.len(), |i: int| p.type_defs@[i].name@)
}

/// First index at or after `i` whose name equals `key`, or `-1`.
pub open spec fn find_name(names: Seq<Seq<char>>, key: Seq<char>, i: int) -> int
    decreases names.len() - i,
{
    if i < 0 || i >= names.len() {
        -1
    } else if names[i] == key {
        i
    } else {
        find_name(names, key, i + 1)
    }
}

/// No two names are equal.
pub open spec fn names_unique(names: Seq<Seq<char>>) -> bool {
    forall|i: int, j: int| 0 <= i < j < names.len() ==> names[i] != names[j]
}

/// True for the field shapes that install a presence source.
pub open spec fn is_presence_spec(t: TypeSpec) -> bool {
    t is PresenceBits || t is BitmapPresence
}

/// The explicit bit-to-name pairs of a presence field, empty when implicit.
pub open spec fn explicit_pairs(t: TypeSpec) -> Seq<(u32, String)> {
    match t {
        TypeSpec::BitmapPresence { mapping, .. } => mapping@,
        _ => Seq::empty(),
    }
}

/// First index at or after `i` that is a presence field, or `-1`.
pub open spec fn mf_first_presence(fields: Seq<MessageField>, i: int) -> int
    decreases fields.len() - i,
{
    if i < 0 || i >= fields.len() {
        -1
    } else if is_presence_spec(fields[i].type_spec) {
        i
    } else {
        mf_first_presence(fields, i + 1)
    }
}

/// First index at or after `i` that is not an Optional field.
pub open spec fn mf_run_end(fields: Seq<MessageField>, i: int) -> int
    decreases fields.len() - i,
{
    if i < 0 || i >= fields.len() {
        i
    } else if fields[i].type_spec is Optional {
        mf_run_end(fields, i + 1)
    } else {
        i
    }
}

/// Same as [`mf_first_presence`], over struct fields.
pub open spec fn sf_first_presence(fields: Seq<StructField>, i: int) -> int
    decreases fields.len() - i,
{
    if i < 0 || i >= fields.len() {
        -1
    } else if is_presence_spec(fields[i].type_spec) {
        i
    } else {
        sf_first_presence(fields, i + 1)
    }
}

/// Same as [`mf_run_end`], over struct fields.
pub open spec fn sf_run_end(fields: Seq<StructField>, i: int) -> int
    decreases fields.len() - i,
{
    if i < 0 || i >= fields.len() {
        i
    } else if fields[i].type_spec is Optional {
        sf_run_end(fields, i + 1)
    } else {
        i
    }
}

/// The presence mapping a container's fields give rise to: the presence
/// field's name, the contiguous run of Optional names after it, and the
/// bit table (the explicit one when supplied, else bit `i` to the `i`-th
/// optional). Meaningful only when [`mf_first_presence`] finds a field and
/// the explicit table matches the run.
pub open spec fn mf_mapping_model(fields: Seq<MessageField>) -> MappingModel {
    let i = mf_first_presence(fields, 0);
    let end = mf_run_end(fields, i + 1);
    let run = Seq::new((end - (i + 1)) as nat, |k: int| fields[i + 1 + k].name@);
    let ex = explicit_pairs(fields[i].type_spec);
    MappingModel {
        fspec_field: fields[i].name@,
        optional_fields: run,
        bit_to_field: if ex.len() > 0 {
            Seq::new(ex.len(), |k: int| (ex[k].0, ex[k].1@))
        } else {
            Seq::new(run.len(), |k: int| (k as u32, run[k]))
        },
    }
}

/// The explicit bit table, when supplied, must name the collected optional
/// run, in order.
pub open spec fn mf_mapping_ok(fields: Seq<MessageField>) -> bool {
    let i = mf_first_presence(fields, 0);
    i == -1 || {
        let end = mf_run_end(fields, i + 1);
        let run = Seq::new((end - (i + 1)) as nat, |k: int| fields[i + 1 + k].name@);
        let ex = explicit_pairs(fields[i].type_spec);
        ex.len() == 0 || Seq::new(ex.len(), |k: int| ex[k].1@) == run
    }
}

/// Same as [`mf_mapping_model`], over struct fields.
pub open spec fn sf_mapping_model(fields: Seq<StructField>) -> MappingModel {
    let i = sf_first_presence(fields, 0);
    let end = sf_run_end(fields, i + 1);
    let run = Seq::new((end - (i + 1)) as nat, |k: int| fields[i + 1 + k].name@);
    let ex = explicit_pairs(fields[i].type_spec);
    MappingModel {
        fspec_field: fields[i].name@,
        optional_fields: run,
        bit_to_field: if ex.len() > 0 {
            Seq::new(ex.len(), |k: int| (ex[k].0, ex[k].1@))
        } else {
            Seq::new(run.len(), |k: int| (k as u32, run[k]))
        },
    }
}

/// Same as [`mf_mapping_ok`], over struct fields.
pub open spec fn sf_mapping_ok(fields: Seq<StructField>) -> bool {
    let i = sf_first_presence(fields, 0);
    i == -1 || {
        let end = sf_run_end(fields, i + 1);
        let run = Seq::new((end - (i + 1)) as nat, |k: int| fields[i + 1 + k].name@);
        let ex = explicit_pairs(fields[i].type_spec);
        ex.len() == 0 || Seq::new(ex.len(), |k: int| ex[k].1@) == run
    }
}

/// The presence mappings of the first `n` messages, keyed by message name.
pub open spec fn msg_mappings(p: Protocol, n: int) -> Seq<(Seq<char>, MappingModel)>
    decreases n,
{
    if n <= 0 {
        Seq::empty()
    } else {
        let prev = msg_mappings(p, n - 1);
        if mf_first_presence(p.messages@[n - 1].fields@, 0) >= 0 {
            prev.push((p.messages@[n - 1].name@, mf_mapping_model(p.messages@[n - 1].fields@)))
        } else {
            prev
        }
    }
}

/// The presence mappings of the first `n` structs, keyed by struct name.
pub open spec fn struct_mappings(p: Protocol, n: int) -> Seq<(Seq<char>, MappingModel)>
    decreases n,
{
    if n <= 0 {
        Seq::empty()
    } else {
        let prev = struct_mappings(p, n - 1);
        if sf_first_presence(p.structs@[n - 1].fields@, 0) >= 0 {
            prev.push((p.structs@[n - 1].name@, sf_mapping_model(p.structs@[n - 1].fields@)))
        } else {
            prev
        }
    }
}

/// Every payload message and every selector target is a defined message.
pub open spec fn payload_refs_ok(p: Protocol) -> bool {
    match p.payload {
        None => true,
        Some(pl) => {
            &&& forall|i: int|
                0 <= i < pl.messages@.len() ==> find_name(message_names(p), pl.messages@[i]@, 0)
                    >= 0
            &&& match pl.selector {
                None => true,
                Some(sel) => forall|i: int|
                    0 <= i < sel.value_to_message@.len() ==> find_name(
                        message_names(p),
                        sel.value_to_message@[i].1@,
                        0,
                    ) >= 0,
            }
        },
    }
}

/// Everything resolution checks: unique names in each namespace, payload
/// references that exist, and explicit presence tables that match their
/// optional runs.
pub open spec fn resolve_ok(p: Protocol) -> bool {
    &&& names_unique(type_def_names(p))
    &&& names_unique(struct_names(p))
    &&& names_unique(message_names(p))
    &&& payload_refs_ok(p)
    &&& forall|i: int| 0 <= i < p.messages@.len() ==> mf_mapping_ok(#[trigger] p.messages@[i].fields@)
    &&& forall|i: int| 0 <= i < p.structs@.len() ==> sf_mapping_ok(#[trigger] p.structs@[i].fields@)
}

/// Model of an association list from name to mapping.
pub open spec fn assoc_model(v: Seq<(String, FspecMapping)>) -> Seq<(Seq<char>, MappingModel)> {
    Seq::new(v.len(), |i: int| (v[i].0@, v[i].1@))
}

/// First index at or after `i` in the association list whose key equals
/// `key`, or `-1`.
pub open spec fn assoc_find(v: Seq<(Seq<char>, MappingModel)>, key: Seq<char>, i: int) -> int
    decreases v.len() - i,
{
    if i < 0 || i >= v.len() {
        -1
    } else if v[i].0 == key {
        i
    } else {
        assoc_find(v, key, i + 1)
    }
}

/// Resolved protocol: the protocol itself plus the presence mappings derived
/// for every message and struct that contains a presence field.
#[derive(Debug)]
pub struct ResolvedProtocol {
    pub protocol: Protocol,
    /// Message name to presence mapping, in declaration order.
    pub message_fspec: Vec<(String, FspecMapping)>,
    /// Struct name to presence mapping, in declaration order.
    pub struct_fspec: Vec<(String, FspecMapping)>,
}

/// Finds a message by name; `Some(i)` is the first declaration with that name.
pub(crate) fn msg_find(msgs: &Vec<MessageSection>, name: &str) -> (r: Option<usize>)
    ensures
        match r {
            Some(i) => i < msgs@.len() && find_name(
                Seq::new(msgs@.len(), |k: int| msgs@[k].name@),
                name@,
                0,
            ) == i,
            None => find_name(Seq::new(msgs@.len(), |k: int| msgs@[k].name@), name@, 0) == -1,
        },
{
    let ghost names = Seq::new(msgs@.len(), |k: int| msgs@[k].name@);
    let n = msgs.len();
    let mut i: usize = 0;
    while i < n
        invariant
            i <= n,
            n == msgs@.len(),
            names == Seq::new(msgs@.len(), |k: int| msgs@[k].name@),
            find_name(names, name@, 0) == find_name(names, name@, i as int),
        decreases n - i,
    {
        if str_eq(msgs[i].name.as_str(), name) {
            return Some(i);
        }
        i = i + 1;
    }
    None
}

/// Finds a struct by name; `Some(i)` is the first declaration with that name.
pub(crate) fn struct_find(structs: &Vec<StructSection>, name: &str) -> (r: Option<usize>)
    ensures
        match r {
            Some(i) => i < structs@.len() && find_name(
                Seq::new(structs@.len(), |k: int| structs@[k].name@),
                name@,
                0,
            ) == i,
            None => find_name(Seq::new(structs@.len(), |k: int| structs@[k].name@), name@, 0)
                == -1,
        },
{
    let ghost names = Seq::new(structs@.len(), |k: int| structs@[k].name@);
    let n = structs.len();
    let mut i: usize = 0;
    while i < n
        invariant
            i <= n,
            n == structs@.len(),
            names == Seq::new(structs@.len(), |k: int| structs@[k].name@),
            find_name(names, name@, 0) == find_name(names, name@, i as int),
        decreases n - i,
    {
        if str_eq(structs[i].name.as_str(), name) {
            return Some(i);
        }
        i = i + 1;
    }
    None
}

/// Finds an abstract type definition by name.
fn type_def_find(defs: &Vec<TypeDefSection>, name: &str) -> (r: Option<usize>)
    ensures
        match r {
            Some(i) => i < defs@.len() && find_name(
                Seq::new(defs@.len(), |k: int| defs@[k].name@),
                name@,
                0,
            ) == i,
            None => find_name(Seq::new(defs@.len(), |k: int| defs@[k].name@), name@, 0) == -1,
        },
{
    let ghost names = Seq::new(defs@.len(), |k: int| defs@[k].name@);
    let n = defs.len();
    let mut i: usize = 0;
    while i < n
        invariant
            i <= n,
            n == defs@.len(),
            names == Seq::new(defs@.len(), |k: int| defs@[k].name@),
            find_name(names, name@, 0) == find_name(names, name@, i as int),
        decreases n - i,
    {
        if str_eq(defs[i].name.as_str(), name) {
            return Some(i);
        }
        i = i + 1;
    }
    None
}

/// First index at or after `i` in the selector triples whose literal reads as
/// `n`, giving the message name, or `None`.
pub open spec fn sel_lookup(triples: Seq<(Literal, String, bool)>, n: i64, i: int) -> Option<
    Seq<char>,
>
    decreases triples.len() - i,
{
    if i < 0 || i >= triples.len() {
        None
    } else if literal_as_i64(triples[i].0) == Some(n) {
        Some(triples[i].1@)
    } else {
        sel_lookup(triples, n, i + 1)
    }
}

/// Like [`sel_lookup`], but giving the `is_list` flag of the first match.
pub open spec fn sel_lookup_list(triples: Seq<(Literal, String, bool)>, n: i64, i: int) -> Option<
    bool,
>
    decreases triples.len() - i,
{
    if i < 0 || i >= triples.len() {
        None
    } else if literal_as_i64(triples[i].0) == Some(n) {
        Some(triples[i].2)
    } else {
        sel_lookup_list(triples, n, i + 1)
    }
}

/// The message the payload selector picks for the given transport values.
pub open spec fn selected_message(p: Protocol, tv: Seq<(Seq<char>, ValModel)>) -> Option<
    Seq<char>,
> {
    match p.payload {
        None => None,
        Some(pl) => match pl.selector {
            None => None,
            Some(sel) => match map_get(tv, sel.transport_field@) {
                None => None,
                Some(v) => match spec_as_i64(v) {
                    None => None,
                    Some(n) => sel_lookup(sel.value_to_message@, n, 0),
                },
            },
        },
    }
}

/// Whether the payload is a list of records: the `repeated` directive, or any
/// selector entry marked as a list.
pub open spec fn spec_payload_repeated(p: Protocol) -> bool {
    match p.payload {
        None => false,
        Some(pl) => pl.repeated || match pl.selector {
            None => false,
            Some(sel) => exists|i: int|
                0 <= i < sel.value_to_message@.len() && (#[trigger] sel.value_to_message@[i]).2,
        },
    }
}

impl ResolvedProtocol {
    /// Checks the protocol and derives its presence mappings.
    ///
    /// Succeeds exactly when names are unique in each namespace, every
    /// payload reference names a defined message, and every explicit
    /// presence table matches the optional run it governs.
    pub fn resolve(protocol: Protocol) -> (r: Result<Self, String>)
        ensures
            match r {
                Ok(res) => {
                    &&& resolve_ok(protocol)
                    &&& res.protocol == protocol
                    &&& assoc_model(res.message_fspec@) == msg_mappings(
                        protocol,
                        protocol.messages@.len() as int,
                    )
                    &&& assoc_model(res.struct_fspec@) == struct_mappings(
                        protocol,
                        protocol.structs@.len() as int,
                    )
                },
                Err(_) => !resolve_ok(protocol),
            },
    {
        if !names_unique_type_defs(&protocol.type_defs) {
            return Err(String::from_str("Duplicate type name"));
        }
        if !names_unique_structs(&protocol.structs) {
            return Err(String::from_str("Duplicate struct name"));
        }
        if !names_unique_messages(&protocol.messages) {
            return Err(String::from_str("Duplicate message name"));
        }
        if let Some(pl) = &protocol.payload {
            let n = pl.messages.len();
            let mut i: usize = 0;
            while i < n
                invariant
                    i <= n,
                    n == pl.messages@.len(),
                    protocol.payload matches Some(q) && q == *pl,
                    forall|k: int|
                        0 <= k < i ==> find_name(message_names(protocol), pl.messages@[k]@, 0)
                            >= 0,
                decreases n - i,
            {
                if msg_find(&protocol.messages, pl.messages[i].as_str()).is_none() {
                    assert(find_name(message_names(protocol), pl.messages@[i as int]@, 0) == -1);
                    return Err(String::from_str("payload message is not a defined message"));
                }
                i = i + 1;
            }
            if let Some(sel) = &pl.selector {
                let m = sel.value_to_message.len();
                let mut j: usize = 0;
                while j < m
                    invariant
                        j <= m,
                        m == sel.value_to_message@.len(),
                        protocol.payload matches Some(q) && q == *pl,
                        pl.selector matches Some(s) && s == *sel,
                        forall|k: int|
                            0 <= k < j ==> find_name(
                                message_names(protocol),
                                sel.value_to_message@[k].1@,
                                0,
                            ) >= 0,
                    decreases m - j,
                {
                    if msg_find(&protocol.messages, sel.value_to_message[j].1.as_str()).is_none() {
                        return Err(
                            String::from_str("payload selector message is not a defined message"),
                        );
                    }
                    j = j + 1;
                }
            }
        }
        let mut message_fspec: Vec<(String, FspecMapping)> = Vec::new();
        let nm = protocol.messages.len();
        let mut i: usize = 0;
        while i < nm
            invariant
                i <= nm,
                nm == protocol.messages@.len(),
                assoc_model(message_fspec@) =~= msg_mappings(protocol, i as int),
                forall|k: int| 0 <= k < i ==> mf_mapping_ok(#[trigger] protocol.messages@[k].fields@),
            decreases nm - i,
        {
            match build_mapping_m(&protocol.messages[i].fields) {
                Err(e) => {
                    return Err(e);
                },
                Ok(None) => {},
                Ok(Some(m)) => {
                    let key = clone_string(&protocol.messages[i].name);
                    message_fspec.push((key, m));
                },
            }
            i = i + 1;
            assert(assoc_model(message_fspec@) =~= msg_mappings(protocol, i as int));
        }
        let mut struct_fspec: Vec<(String, FspecMapping)> = Vec::new();
        let ns = protocol.structs.len();
        let mut i: usize = 0;
        while i < ns
            invariant
                i <= ns,
                ns == protocol.structs@.len(),
                assoc_model(struct_fspec@) =~= struct_mappings(protocol, i as int),
                forall|k: int| 0 <= k < i ==> sf_mapping_ok(#[trigger] protocol.structs@[k].fields@),
            decreases ns - i,
        {
            match build_mapping_s(&protocol.structs[i].fields) {
                Err(e) => {
                    return Err(e);
                },
                Ok(None) => {},
                Ok(Some(m)) => {
                    let key = clone_string(&protocol.structs[i].name);
                    struct_fspec.push((key, m));
                },
            }
            i = i + 1;
            assert(assoc_model(struct_fspec@) =~= struct_mappings(protocol, i as int));
        }
        Ok(ResolvedProtocol { protocol, message_fspec, struct_fspec })
    }

    /// The message definition with the given name.
    pub fn get_message(&self, name: &str) -> (r: Option<&MessageSection>)
        ensures
            match r {
                Some(m) => {
                    let i = find_name(message_names(self.protocol), name@, 0);
                    i >= 0 && *m == self.protocol.messages@[i]
                },
                None => find_name(message_names(self.protocol), name@, 0) == -1,
            },
    {
        match msg_find(&self.protocol.messages, name) {
            Some(i) => Some(&self.protocol.messages[i]),
            None => None,
        }
    }

    /// The struct definition with the given name.
    pub fn get_struct(&self, name: &str) -> (r: Option<&StructSection>)
        ensures
            match r {
                Some(s) => {
                    let i = find_name(struct_names(self.protocol), name@, 0);
                    i >= 0 && *s == self.protocol.structs@[i]
                },
                None => find_name(struct_names(self.protocol), name@, 0) == -1,
            },
    {
        match struct_find(&self.protocol.structs, name) {
            Some(i) => Some(&self.protocol.structs[i]),
            None => None,
        }
    }

    /// The abstract type definition with the given name.
    pub fn get_type_def(&self, name: &str) -> (r: Option<&TypeDefSection>)
        ensures
            match r {
                Some(t) => {
                    let i = find_name(type_def_names(self.protocol), name@, 0);
                    i >= 0 && *t == self.protocol.type_defs@[i]
                },
                None => find_name(type_def_names(self.protocol), name@, 0) == -1,
            },
    {
        match type_def_find(&self.protocol.type_defs, name) {
            Some(i) => Some(&self.protocol.type_defs[i]),
            None => None,
        }
    }

    /// The presence mapping derived for a message, when it has one.
    pub fn fspec_mapping_message(&self, message_name: &str) -> (r: Option<&FspecMapping>)
        ensures
            match r {
                Some(m) => {
                    let i = assoc_find(assoc_model(self.message_fspec@), message_name@, 0);
                    i >= 0 && m@ == assoc_model(self.message_fspec@)[i].1
                },
                None => assoc_find(assoc_model(self.message_fspec@), message_name@, 0) == -1,
            },
    {
        assoc_get(&self.message_fspec, message_name)
    }

    /// The presence mapping derived for a struct, when it has one.
    pub fn fspec_mapping_struct(&self, struct_name: &str) -> (r: Option<&FspecMapping>)
        ensures
            match r {
                Some(m) => {
                    let i = assoc_find(assoc_model(self.struct_fspec@), struct_name@, 0);
                    i >= 0 && m@ == assoc_model(self.struct_fspec@)[i].1
                },
                None => assoc_find(assoc_model(self.struct_fspec@), struct_name@, 0) == -1,
            },
    {
        assoc_get(&self.struct_fspec, struct_name)
    }

    /// Message type names that can follow the transport; empty without a
    /// payload section.
    pub fn messages_after_transport(&self) -> (r: &[String])
        ensures
            match self.protocol.payload {
                Some(pl) => r@ == pl.messages@,
                None => r@.len() == 0,
            },
    {
        match &self.protocol.payload {
            Some(pl) => pl.messages.as_slice(),
            None => &[],
        }
    }

    /// Which message type the payload selector picks for the given decoded
    /// transport values, or `None` when there is no selector, the selector
    /// field is missing or non-numeric, or no entry matches.
    pub fn message_for_transport_values(&self, transport_values: &ValueMap) -> (r: Option<&str>)
        ensures
            match r {
                Some(name) => selected_message(self.protocol, transport_values@) == Some(name@),
                None => selected_message(self.protocol, transport_values@) is None,
            },
    {
        let pl = match &self.protocol.payload {
            Some(pl) => pl,
            None => { return None; },
        };
        let sel = match &pl.selector {
            Some(sel) => sel,
            None => { return None; },
        };
        let v = match transport_values.get(sel.transport_field.as_str()) {
            Some(v) => v,
            None => { return None; },
        };
        let n = match v.as_i64() {
            Some(n) => n,
            None => { return None; },
        };
        let m = sel.value_to_message.len();
        let mut i: usize = 0;
        while i < m
            invariant
                i <= m,
                m == sel.value_to_message@.len(),
                self.protocol.payload matches Some(q) && q.selector matches Some(s) && s == *sel,
                selected_message(self.protocol, transport_values@) == sel_lookup(
                    sel.value_to_message@,
                    n,
                    i as int,
                ),
            decreases m - i,
        {
            if sel.value_to_message[i].0.as_i64() == Some(n) {
                return Some(sel.value_to_message[i].1.as_str());
            }
            i = i + 1;
        }
        None
    }

    /// True when the payload after the transport is a list of records.
    pub fn payload_repeated(&self) -> (r: bool)
        ensures
            r == spec_payload_repeated(self.protocol),
    {
        let pl = match &self.protocol.payload {
            Some(pl) => pl,
            None => { return false; },
        };
        if pl.repeated {
            return true;
        }
        let sel = match &pl.selector {
            Some(sel) => sel,
            None => { return false; },
        };
        let m = sel.value_to_message.len();
        let mut i: usize = 0;
        while i < m
            invariant
                i <= m,
                m == sel.value_to_message@.len(),
                self.protocol.payload matches Some(q) && q.selector matches Some(s) && s == *sel,
                !pl.repeated,
                forall|k: int| 0 <= k < i ==> !(#[trigger] sel.value_to_message@[k]).2,
            decreases m - i,
        {
            if sel.value_to_message[i].2 {
                return true;
            }
            i = i + 1;
        }
        false
    }

    /// True when the payload for these transport values is a list: either the
    /// `repeated` directive, or the matching selector entry is marked as one.
    pub fn payload_is_list_for_transport(&self, transport_values: &ValueMap) -> (r: bool)
        ensures
            r == {
                match self.protocol.payload {
                    None => false,
                    Some(pl) => pl.repeated || {
                        match pl.selector {
                            None => false,
                            Some(sel) => match map_get(transport_values@, sel.transport_field@) {
                                None => false,
                                Some(v) => match spec_as_i64(v) {
                                    None => false,
                                    Some(n) => sel_lookup_list(sel.value_to_message@, n, 0)
                                        == Some(true),
                                },
                            },
                        }
                    },
                }
            },
    {
        let pl = match &self.protocol.payload {
            Some(pl) => pl,
            None => { return false; },
        };
        if pl.repeated {
            return true;
        }
        let sel = match &pl.selector {
            Some(sel) => sel,
            None => { return false; },
        };
        let v = match transport_values.get(sel.transport_field.as_str()) {
            Some(v) => v,
            None => { return false; },
        };
        let n = match v.as_i64() {
            Some(n) => n,
            None => { return false; },
        };
        let m = sel.value_to_message.len();
        let mut i: usize = 0;
        while i < m
            invariant
                i <= m,
                m == sel.value_to_message@.len(),
                self.protocol.payload matches Some(q) && q == *pl,
                pl.selector matches Some(s) && s == *sel,
                !pl.repeated,
                map_get(transport_values@, sel.transport_field@) matches Some(v) && spec_as_i64(v)
                    == Some(n),
                sel_lookup_list(sel.value_to_message@, n, 0) == sel_lookup_list(
                    sel.value_to_message@,
                    n,
                    i as int,
                ),
            decreases m - i,
        {
            if sel.value_to_message[i].0.as_i64() == Some(n) {
                assert(sel_lookup_list(sel.value_to_message@, n, i as int) == Some(
                    sel.value_to_message@[i as int].2,
                ));
                return sel.value_to_message[i].2;
            }
            i = i + 1;
        }
        false
    }
}

/// Clones a string.
pub(crate) fn clone_string(s: &String) -> (r: String)
    ensures
        r@ == s@,
{
    String::from_str(s.as_str())
}

/// Looks a name up in an association list of presence mappings.
fn assoc_get<'a>(v: &'a Vec<(String, FspecMapping)>, key: &str) -> (r: Option<&'a FspecMapping>)
    ensures
        match r {
            Some(m) => {
                let i = assoc_find(assoc_model(v@), key@, 0);
                i >= 0 && m@ == assoc_model(v@)[i].1
            },
            None => assoc_find(assoc_model(v@), key@, 0) == -1,
        },
{
    let n = v.len();
    let mut i: usize = 0;
    while i < n
        invariant
            i <= n,
            n == v@.len(),
            assoc_find(assoc_model(v@), key@, 0) == assoc_find(assoc_model(v@), key@, i as int),
        decreases n - i,
    {
        if str_eq(v[i].0.as_str(), key) {
            return Some(&v[i].1);
        }
        i = i + 1;
    }
    None
}

/// True when no two type definitions share a name.
fn names_unique_type_defs(defs: &Vec<TypeDefSection>) -> (r: bool)
    ensures
        r == names_unique(Seq::new(defs@.len(), |k: int| defs@[k].name@)),
{
    let ghost names = Seq::new(defs@.len(), |k: int| defs@[k].name@);
    let n = defs.len();
    let mut i: usize = 0;
    while i < n
        invariant
            i <= n,
            n == defs@.len(),
            names == Seq::new(defs@.len(), |k: int| defs@[k].name@),
            forall|a: int, b: int| 0 <= a < b < i ==> names[a] != names[b],
        decreases n - i,
    {
        let mut j: usize = 0;
        while j < i
            invariant
                j <= i < n,
                n == defs@.len(),
                names == Seq::new(defs@.len(), |k: int| defs@[k].name@),
                forall|b: int| 0 <= b < j ==> names[b] != names[i as int],
            decreases i - j,
        {
            if str_eq(defs[j].name.as_str(), defs[i].name.as_str()) {
                assert(names[j as int] == names[i as int]);
                return false;
            }
            j = j + 1;
        }
        i = i + 1;
    }
    true
}

/// True when no two structs share a name.
fn names_unique_structs(structs: &Vec<StructSection>) -> (r: bool)
    ensures
        r == names_unique(Seq::new(structs@.len(), |k: int| structs@[k].name@)),
{
    let ghost names = Seq::new(structs@.len(), |k: int| structs@[k].name@);
    let n = structs.len();
    let mut i: usize = 0;
    while i < n
        invariant
            i <= n,
            n == structs@.len(),
            names == Seq::new(structs@.len(), |k: int| structs@[k].name@),
            forall|a: int, b: int| 0 <= a < b < i ==> names[a] != names[b],
        decreases n - i,
    {
        let mut j: usize = 0;
        while j < i
            invariant
                j <= i < n,
                n == structs@.len(),
                names == Seq::new(structs@.len(), |k: int| structs@[k].name@),
                forall|b: int| 0 <= b < j ==> names[b] != names[i as int],
            decreases i - j,
        {
            if str_eq(structs[j].name.as_str(), structs[i].name.as_str()) {
                assert(names[j as int] == names[i as int]);
                return false;
            }
            j = j + 1;
        }
        i = i + 1;
    }
    true
}

/// True when no two messages share a name.
fn names_unique_messages(msgs: &Vec<MessageSection>) -> (r: bool)
    ensures
        r == names_unique(Seq::new(msgs@.len(), |k: int| msgs@[k].name@)),
{
    let ghost names = Seq::new(msgs@.len(), |k: int| msgs@[k].name@);
    let n = msgs.len();
    let mut i: usize = 0;
    while i < n
        invariant
            i <= n,
            n == msgs@.len(),
            names == Seq::new(msgs@.len(), |k: int| msgs@[k].name@),
            forall|a: int, b: int| 0 <= a < b < i ==> names[a] != names[b],
        decreases n - i,
    {
        let mut j: usize = 0;
        while j < i
            invariant
                j <= i < n,
                n == msgs@.len(),
                names == Seq::new(msgs@.len(), |k: int| msgs@[k].name@),
                forall|b: int| 0 <= b < j ==> names[b] != names[i as int],
            decreases i - j,
        {
            if str_eq(msgs[j].name.as_str(), msgs[i].name.as_str()) {
                assert(names[j as int] == names[i as int]);
                return false;
            }
            j = j + 1;
        }
        i = i + 1;
    }
    true
}

/// True for the field shapes that install a presence source.
fn is_presence_ts(t: &TypeSpec) -> (r: bool)
    ensures
        r == is_presence_spec(*t),
{
    matches!(t, TypeSpec::PresenceBits(_) | TypeSpec::BitmapPresence { .. })
}

/// True for Optional field shapes.
fn is_optional_ts(t: &TypeSpec) -> (r: bool)
    ensures
        r == (*t is Optional),
{
    matches!(t, TypeSpec::Optional(_))
}

/// Derives the presence mapping of one message's fields: `Ok(None)` when
/// there is no presence field, `Err` when an explicit table does not match
/// the optional run.
fn build_mapping_m(fields: &Vec<MessageField>) -> (r: Result<Option<FspecMapping>, String>)
    ensures
        match r {
            Ok(opt) => mf_mapping_ok(fields@) && match opt {
                None => mf_first_presence(fields@, 0) == -1,
                Some(m) => mf_first_presence(fields@, 0) >= 0 && m@ == mf_mapping_model(fields@),
            },
            Err(_) => !mf_mapping_ok(fields@),
        },
{
    let n = fields.len();
    let mut idx: usize = 0;
    while idx < n && !is_presence_ts(&fields[idx].type_spec)
        invariant
            idx <= n,
            n == fields@.len(),
            mf_first_presence(fields@, 0) == mf_first_presence(fields@, idx as int),
        decreases n - idx,
    {
        idx = idx + 1;
    }
    if idx == n {
        return Ok(None);
    }
    assert(mf_first_presence(fields@, 0) == idx);
    let mut optional_fields: Vec<String> = Vec::new();
    let mut j: usize = idx + 1;
    while j < n && is_optional_ts(&fields[j].type_spec)
        invariant
            idx + 1 <= j <= n,
            n == fields@.len(),
            mf_run_end(fields@, idx + 1) == mf_run_end(fields@, j as int),
            optional_fields@.len() == j - (idx + 1),
            forall|k: int|
                0 <= k < optional_fields@.len() ==> (#[trigger] optional_fields@[k])@ == fields@[idx
                    + 1 + k].name@,
        decreases n - j,
    {
        optional_fields.push(clone_string(&fields[j].name));
        j = j + 1;
    }
    assert(mf_run_end(fields@, idx + 1) == j);
    let ghost run = Seq::new((j - (idx + 1)) as nat, |k: int| fields@[idx + 1 + k].name@);
    let mut bit_to_field: Vec<(u32, String)> = Vec::new();
    let explicit_len: usize = match &fields[idx].type_spec {
        TypeSpec::BitmapPresence { mapping, .. } => mapping.len(),
        _ => 0,
    };
    if explicit_len > 0 {
        let mapping: &Vec<(u32, String)> = match &fields[idx].type_spec {
            TypeSpec::BitmapPresence { mapping, .. } => mapping,
            _ => { return Err(String::from_str("presence mapping expected")); },
        };
        let ghost ex = explicit_pairs(fields@[idx as int].type_spec);
        if mapping.len() != optional_fields.len() {
            proof {
                let end = mf_run_end(fields@, idx + 1);
                let okrun = Seq::new((end - (idx + 1)) as nat, |t: int| fields@[idx + 1 + t].name@);
                assert(okrun =~= run);
                if Seq::new(ex.len(), |t: int| ex[t].1@) == okrun {
                    assert(ex.len() == okrun.len());
                    assert(false);
                }
                assert(!mf_mapping_ok(fields@));
            }
            return Err(String::from_str("presence mapping does not match optional fields"));
        }
        let mut k: usize = 0;
        while k < mapping.len()
            invariant
                k <= mapping@.len(),
                n == fields@.len(),
                idx < n,
                mf_first_presence(fields@, 0) == idx as int,
                ex == explicit_pairs(fields@[idx as int].type_spec),
                mapping@ == ex,
                ex.len() == run.len(),
                run == Seq::new(
                    (mf_run_end(fields@, idx + 1) - (idx + 1)) as nat,
                    |t: int| fields@[idx + 1 + t].name@,
                ),
                optional_fields@.len() == run.len(),
                forall|t: int|
                    0 <= t < optional_fields@.len() ==> (#[trigger] optional_fields@[t])@ == run[t],
                forall|t: int| 0 <= t < k ==> (#[trigger] ex[t]).1@ == run[t],
                bit_to_field@.len() == k,
                forall|t: int| 0 <= t < k ==> (#[trigger] bit_to_field@[t]).0 == ex[t].0,
                forall|t: int| 0 <= t < k ==> (#[trigger] bit_to_field@[t]).1@ == ex[t].1@,
            decreases mapping@.len() - k,
        {
            if !str_eq(mapping[k].1.as_str(), optional_fields[k].as_str()) {
                proof {
                    let end = mf_run_end(fields@, idx + 1);
                    let okrun = Seq::new((end - (idx + 1)) as nat, |t: int| fields@[idx + 1 + t].name@);
                    assert(okrun =~= run);
                    if Seq::new(ex.len(), |t: int| ex[t].1@) == okrun {
                        assert(Seq::new(ex.len(), |t: int| ex[t].1@)[k as int] == okrun[k as int]);
                        assert(false);
                    }
                    assert(!mf_mapping_ok(fields@));
                }
                return Err(String::from_str("presence mapping does not match optional fields"));
            }
            let cloned = clone_string(&mapping[k].1);
            bit_to_field.push((mapping[k].0, cloned));
            proof {
                assert(bit_to_field@[k as int].0 == ex[k as int].0);
                assert(bit_to_field@[k as int].1@ == ex[k as int].1@);
            }
            k = k + 1;
        }
        proof {
            assert(Seq::new(ex.len(), |t: int| ex[t].1@) =~= run);
        }
    } else {
        let mut k: usize = 0;
        while k < optional_fields.len()
            invariant
                k <= optional_fields@.len(),
                optional_fields@.len() == run.len(),
                run == Seq::new(
                    (mf_run_end(fields@, idx + 1) - (idx + 1)) as nat,
                    |t: int| fields@[idx + 1 + t].name@,
                ),
                forall|t: int|
                    0 <= t < optional_fields@.len() ==> (#[trigger] optional_fields@[t])@ == run[t],
                bit_to_field@.len() == k,
                forall|t: int| 0 <= t < k ==> (#[trigger] bit_to_field@[t]).0 == t as u32,
                forall|t: int| 0 <= t < k ==> (#[trigger] bit_to_field@[t]).1@ == run[t],
            decreases optional_fields@.len() - k,
        {
            let cloned = clone_string(&optional_fields[k]);
            bit_to_field.push((#[verifier::truncate] (k as u32), cloned));
            proof {
                assert(bit_to_field@[k as int].1@ == run[k as int]);
            }
            k = k + 1;
        }
    }
    let m = FspecMapping {
        fspec_field: clone_string(&fields[idx].name),
        optional_fields,
        bit_to_field,
    };
    proof {
        assert(m@.optional_fields =~= mf_mapping_model(fields@).optional_fields);
        assert(m@.bit_to_field =~= mf_mapping_model(fields@).bit_to_field);
    }
    Ok(Some(m))
}

/// Derives the presence mapping of one struct's fields.
fn build_mapping_s(fields: &Vec<StructField>) -> (r: Result<Option<FspecMapping>, String>)
    ensures
        match r {
            Ok(opt) => sf_mapping_ok(fields@) && match opt {
                None => sf_first_presence(fields@, 0) == -1,
                Some(m) => sf_first_presence(fields@, 0) >= 0 && m@ == sf_mapping_model(fields@),
            },
            Err(_) => !sf_mapping_ok(fields@),
        },
{
    let n = fields.len();
    let mut idx: usize = 0;
    while idx < n && !is_presence_ts(&fields[idx].type_spec)
        invariant
            idx <= n,
            n == fields@.len(),
            sf_first_presence(fields@, 0) == sf_first_presence(fields@, idx as int),
        decreases n - idx,
    {
        idx = idx + 1;
    }
    if idx == n {
        return Ok(None);
    }
    assert(sf_first_presence(fields@, 0) == idx);
    let mut optional_fields: Vec<String> = Vec::new();
    let mut j: usize = idx + 1;
    while j < n && is_optional_ts(&fields[j].type_spec)
        invariant
            idx + 1 <= j <= n,
            n == fields@.len(),
            sf_run_end(fields@, idx + 1) == sf_run_end(fields@, j as int),
            optional_fields@.len() == j - (idx + 1),
            forall|k: int|
                0 <= k < optional_fields@.len() ==> (#[trigger] optional_fields@[k])@ == fields@[idx
                    + 1 + k].name@,
        decreases n - j,
    {
        optional_fields.push(clone_string(&fields[j].name));
        j = j + 1;
    }
    assert(sf_run_end(fields@, idx + 1) == j);
    let ghost run = Seq::new((j - (idx + 1)) as nat, |k: int| fields@[idx + 1 + k].name@);
    let mut bit_to_field: Vec<(u32, String)> = Vec::new();
    let explicit_len: usize = match &fields[idx].type_spec {
        TypeSpec::BitmapPresence { mapping, .. } => mapping.len(),
        _ => 0,
    };
    if explicit_len > 0 {
        let mapping: &Vec<(u32, String)> = match &fields[idx].type_spec {
            TypeSpec::BitmapPresence { mapping, .. } => mapping,
            _ => { return Err(String::from_str("presence mapping expected")); },
        };
        let ghost ex = explicit_pairs(fields@[idx as int].type_spec);
        if mapping.len() != optional_fields.len() {
            proof {
                let end = sf_run_end(fields@, idx + 1);
                let okrun = Seq::new((end - (idx + 1)) as nat, |t: int| fields@[idx + 1 + t].name@);
                assert(okrun =~= run);
                if Seq::new(ex.len(), |t: int| ex[t].1@) == okrun {
                    assert(ex.len() == okrun.len());
                    assert(false);
                }
                assert(!sf_mapping_ok(fields@));
            }
            return Err(String::from_str("presence mapping does not match optional fields"));
        }
        let mut k: usize = 0;
        while k < mapping.len()
            invariant
                k <= mapping@.len(),
                n == fields@.len(),
                idx < n,
                sf_first_presence(fields@, 0) == idx as int,
                ex == explicit_pairs(fields@[idx as int].type_spec),
                mapping@ == ex,
                ex.len() == run.len(),
                run == Seq::new(
                    (sf_run_end(fields@, idx + 1) - (idx + 1)) as nat,
                    |t: int| fields@[idx + 1 + t].name@,
                ),
                optional_fields@.len() == run.len(),
                forall|t: int|
                    0 <= t < optional_fields@.len() ==> (#[trigger] optional_fields@[t])@ == run[t],
                forall|t: int| 0 <= t < k ==> (#[trigger] ex[t]).1@ == run[t],
                bit_to_field@.len() == k,
                forall|t: int| 0 <= t < k ==> (#[trigger] bit_to_field@[t]).0 == ex[t].0,
                forall|t: int| 0 <= t < k ==> (#[trigger] bit_to_field@[t]).1@ == ex[t].1@,
            decreases mapping@.len() - k,
        {
            if !str_eq(mapping[k].1.as_str(), optional_fields[k].as_str()) {
                proof {
                    let end = sf_run_end(fields@, idx + 1);
                    let okrun = Seq::new((end - (idx + 1)) as nat, |t: int| fields@[idx + 1 + t].name@);
                    assert(okrun =~= run);
                    if Seq::new(ex.len(), |t: int| ex[t].1@) == okrun {
                        assert(Seq::new(ex.len(), |t: int| ex[t].1@)[k as int] == okrun[k as int]);
                        assert(false);
                    }
                    assert(!sf_mapping_ok(fields@));
                }
                return Err(String::from_str("presence mapping does not match optional fields"));
            }
            let cloned = clone_string(&mapping[k].1);
            bit_to_field.push((mapping[k].0, cloned));
            proof {
                assert(bit_to_field@[k as int].0 == ex[k as int].0);
                assert(bit_to_field@[k as int].1@ == ex[k as int].1@);
            }
            k = k + 1;
        }
        proof {
            assert(Seq::new(ex.len(), |t: int| ex[t].1@) =~= run);
        }
    } else {
        let mut k: usize = 0;
        while k < optional_fields.len()
            invariant
                k <= optional_fields@.len(),
                optional_fields@.len() == run.len(),
                run == Seq::new(
                    (sf_run_end(fields@, idx + 1) - (idx + 1)) as nat,
                    |t: int| fields@[idx + 1 + t].name@,
                ),
                forall|t: int|
                    0 <= t < optional_fields@.len() ==> (#[trigger] optional_fields@[t])@ == run[t],
                bit_to_field@.len() == k,
                forall|t: int| 0 <= t < k ==> (#[trigger] bit_to_field@[t]).0 == t as u32,
                forall|t: int| 0 <= t < k ==> (#[trigger] bit_to_field@[t]).1@ == run[t],
            decreases optional_fields@.len() - k,
        {
            let cloned = clone_string(&optional_fields[k]);
            bit_to_field.push((#[verifier::truncate] (k as u32), cloned));
            proof {
                assert(bit_to_field@[k as int].1@ == run[k as int]);
            }
            k = k + 1;
        }
    }
    let m = FspecMapping {
        fspec_field: clone_string(&fields[idx].name),
        optional_fields,
        bit_to_field,
    };
    proof {
        assert(m@.optional_fields =~= sf_mapping_model(fields@).optional_fields);
        assert(m@.bit_to_field =~= sf_mapping_model(fields@).bit_to_field);
    }
    Ok(Some(m))
}

} // verus!

