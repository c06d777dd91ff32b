//! Runtime values produced by decode and consumed by encode, together with
//! their mathematical model.

use vstd::prelude::*;

verus! {

broadcast use
    vstd::std_specs::vec::axiom_vec_index_decreases,
    vstd::seq::axiom_seq_index_decreases;

/// Mathematical model of a [`Value`]: the same shape over `Seq` instead of
/// `Vec`, with field names as character sequences. Contracts throughout the
/// crate speak of this model.
pub ghost enum ValModel {
    U8(u8),
    U16(u16),
    U32(u32),
    U64(u64),
    I8(i8),
    I16(i16),
    I32(i32),
    I64(i64),
    Bool(bool),
    F32Bits(u32),
    F64Bits(u64),
    Bytes(Seq<u8>),
    Struct(Seq<(Seq<char>, ValModel)>),
    List(Seq<ValModel>),
    Padding,
    Reserved,
}

/// A single decoded value (field or compound).
///
/// Floating-point fields travel through the codec as their IEEE-754 bit
/// patterns (`F32Bits`/`F64Bits`); the byte-level engine never interprets
/// them, it only moves the four or eight bytes.
#[derive(Debug, PartialEq)]
pub enum Value {
    U8(u8),
    U16(u16),
    U32(u32),
    U64(u64),
    I8(i8),
    I16(i16),
    I32(i32),
    I64(i64),
    Bool(bool),
    F32Bits(u32),
    F64Bits(u64),
    Bytes(Vec<u8>),
    Struct(ValueMap),
    List(Vec<Value>),
    /// Padding: skipped on decode, zeroed on encode.
    Padding,
    /// Reserved: skipped on decode, zeroed on encode.
    Reserved,
}

/// Named mapping from field name to [`Value`], in insertion order.
///
/// Replaces a hash map: lookups scan from the most recent entry, so a later
/// insertion of the same key shadows an earlier one.
#[derive(Debug, PartialEq)]
pub struct ValueMap {
    pub entries: Vec<(String, Value)>,
}

pub open spec fn value_model(v: Value) -> ValModel
    decreases v,
{
    match v {
        Value::U8(x) => ValModel::U8(x),
        Value::U16(x) => ValModel::U16(x),
        Value::U32(x) => ValModel::U32(x),
        Value::U64(x) => ValModel::U64(x),
        Value::I8(x) => ValModel::I8(x),
        Value::I16(x) => ValModel::I16(x),
        Value::I32(x) => ValModel::I32(x),
        Value::I64(x) => ValModel::I64(x),
        Value::Bool(x) => ValModel::Bool(x),
        Value::F32Bits(x) => ValModel::F32Bits(x),
        Value::F64Bits(x) => ValModel::F64Bits(x),
        Value::Bytes(b) => ValModel::Bytes(b@),
        Value::Struct(m) => ValModel::Struct(entries_model(m.entries@)),
        Value::List(items) => ValModel::List(list_model(items@)),
        Value::Padding => ValModel::Padding,
        Value::Reserved => ValModel::Reserved,
    }
}

/// Models each value of a list, in order.
pub open spec fn list_model(items: Seq<Value>) -> Seq<ValModel>
    decreases items,
{
    if items.len() == 0 {
        Seq::empty()
    } else {
        list_model(items.drop_last()).push(value_model(items.last()))
    }
}

/// Models each named entry of a struct, in order.
pub open spec fn entries_model(entries: Seq<(String, Value)>) -> Seq<(Seq<char>, ValModel)>
    decreases entries,
{
    if entries.len() == 0 {
        Seq::empty()
    } else {
        entries_model(entries.drop_last()).push(
            (entries.last().0@, value_model(entries.last().1)),
        )
    }
}

pub broadcast proof fn lemma_entries_model_push(entries: Seq<(String, Value)>, p: (String, Value))
    ensures
        #[trigger] entries_model(entries.push(p)) == entries_model(entries).push(
            (p.0@, value_model(p.1)),
        ),
{
    assert(entries.push(p).drop_last() =~= entries);
    assert(entries.push(p).last() == p);
}


pub broadcast proof fn lemma_list_model_push(items: Seq<Value>, v: Value)
    ensures
        #[trigger] list_model(items.push(v)) == list_model(items).push(value_model(v)),
{
    assert(items.push(v).drop_last() =~= items);
    assert(items.push(v).last() == v);
}

pub broadcast proof fn lemma_list_model_index(items: Seq<Value>)
    ensures
        #[trigger] list_model(items).len() == items.len(),
        forall|i: int| 0 <= i < items.len() ==> list_model(items)[i] == value_model(items[i]),
    decreases items.len(),
{
    if items.len() > 0 {
        lemma_list_model_index(items.drop_last());
    }
}

pub broadcast proof fn lemma_entries_model_index(entries: Seq<(String, Value)>)
    ensures
        #[trigger] entries_model(entries).len() == entries.len(),
        forall|i: int|
            0 <= i < entries.len() ==> entries_model(entries)[i] == (
                entries[i].0@,
                value_model(entries[i].1),
            ),
    decreases entries.len(),
{
    if entries.len() > 0 {
        lemma_entries_model_index(entries.drop_last());
    }
}

impl View for Value {
    type V = ValModel;

    open spec fn view(&self) -> ValModel {
        value_model(*self)
    }
}

impl View for ValueMap {
    type V = Seq<(Seq<char>, ValModel)>;

    open spec fn view(&self) -> Seq<(Seq<char>, ValModel)> {
        entries_model(self.entries@)
    }
}

/// Index of the entry a lookup for `key` finds: the last entry with that
/// name, or `-1` when there is none.
pub open spec fn map_find(m: Seq<(Seq<char>, ValModel)>, key: Seq<char>) -> int
    decreases m.len(),
{
    if m.len() == 0 {
        -1
    } else if m[m.len() - 1].0 == key {
        m.len() - 1
    } else {
        map_find(m.drop_last(), key)
    }
}

/// The value a lookup for `key` finds in the model, if any.
pub open spec fn map_get(m: Seq<(Seq<char>, ValModel)>, key: Seq<char>) -> Option<ValModel> {
    if map_find(m, key) >= 0 {
        Some(m[map_find(m, key)].1)
    } else {
        None
    }
}

proof fn lemma_map_find_range(m: Seq<(Seq<char>, ValModel)>, key: Seq<char>)
    ensures
        -1 <= map_find(m, key) < m.len(),
        map_find(m, key) >= 0 ==> m[map_find(m, key)].0 == key,
        map_find(m, key) == -1 ==> forall|i: int| 0 <= i < m.len() ==> m[i].0 != key,
    decreases m.len(),
{
    if m.len() > 0 && m[m.len() - 1].0 != key {
        lemma_map_find_range(m.drop_last(), key);
        assert forall|i: int| 0 <= i < m.len() && map_find(m, key) == -1 implies m[i].0 != key by {
            if i < m.len() - 1 {
                assert(m.drop_last()[i] == m[i]);
            }
        }
    }
}

impl ValueMap {
    /// The empty map.
    pub fn new() -> (r: ValueMap)
        ensures
            r@ =~= Seq::<(Seq<char>, ValModel)>::empty(),
    {
        ValueMap { entries: Vec::new() }
    }

    /// Appends an entry; a later entry for the same name shadows earlier ones.
    pub fn insert(&mut self, key: String, v: Value)
        ensures
            final(self)@ =~= old(self)@.push((key@, v@)),
    {
        proof {
            lemma_entries_model_push(self.entries@, (key, v));
        }
        self.entries.push((key, v));
    }

    /// Looks the name up, most recent entry first.
    pub fn get(&self, key: &str) -> (r: Option<&Value>)
        ensures
            match r {
                Some(v) => map_find(self@, key@) >= 0 && v@ == map_get(self@, key@)->Some_0,
                None => map_find(self@, key@) == -1,
            },
    {
        let n = self.entries.len();
        let mut i: usize = n;
        proof {
            lemma_entries_model_index(self.entries@);
            assert(self@.take(n as int) =~= self@);
        }
        loop
            invariant
                i <= n,
                n == self.entries.len(),
                self@.len() == n,
                map_find(self@, key@) == map_find(self@.take(i as int), key@),
            decreases i,
        {
            proof {
                lemma_entries_model_index(self.entries@);
                lemma_map_find_range(self@.take(i as int), key@);
            }
            if i == 0 {
                assert(self@.take(0) =~= Seq::<(Seq<char>, ValModel)>::empty());
                return None;
            }
            i = i - 1;
            if str_eq(self.entries[i].0.as_str(), key) {
                assert(self@.take(i + 1).drop_last() =~= self@.take(i as int));
                assert(map_find(self@, key@) == i);
                return Some(&self.entries[i].1);
            }
            proof {
                assert(self@.take(i + 1).drop_last() =~= self@.take(i as int));
            }
        }
    }

    /// Number of entries.
    pub fn len(&self) -> (r: usize)
        ensures
            r == self@.len(),
    {
        proof {
            lemma_entries_model_index(self.entries@);
        }
        self.entries.len()
    }
}

/// Compares two string slices by contents.
pub fn str_eq(a: &str, b: &str) -> (r: bool)
    ensures
        r == (a@ == b@),
{
    let x: String = a.to_owned();
    let y: String = b.to_owned();
    x == y
}

impl Value {
    /// The unsigned reading of an unsigned integer variant.
    pub fn as_u64(&self) -> (r: Option<u64>)
        ensures
            r == spec_as_u64(self@),
    {
        match self {
            Value::U8(x) => Some(*x as u64),
            Value::U16(x) => Some(*x as u64),
            Value::U32(x) => Some(*x as u64),
            Value::U64(x) => Some(*x),
            _ => None,
        }
    }

    /// The signed reading of any integer variant.
    pub fn as_i64(&self) -> (r: Option<i64>)
        ensures
            r == spec_as_i64(self@),
    {
        match self {
            Value::I8(x) => Some(*x as i64),
            Value::I16(x) => Some(*x as i64),
            Value::I32(x) => Some(*x as i64),
            Value::I64(x) => Some(*x),
            Value::U8(x) => Some(*x as i64),
            Value::U16(x) => Some(*x as i64),
            Value::U32(x) => Some(*x as i64),
            Value::U64(x) => Some(*x as i64),
            _ => None,
        }
    }

    /// The named fields of a struct value.
    pub fn as_struct(&self) -> (r: Option<&ValueMap>)
        ensures
            match r {
                Some(m) => self@ matches ValModel::Struct(s) && s == m@,
                None => !(self@ is Struct),
            },
    {
        match self {
            Value::Struct(m) => Some(m),
            _ => None,
        }
    }

    /// The items of a list value.
    pub fn as_list(&self) -> (r: Option<&Vec<Value>>)
        ensures
            match r {
                Some(items) => self@ matches ValModel::List(s) && s == list_model(items@),
                None => !(self@ is List),
            },
    {
        match self {
            Value::List(items) => Some(items),
            _ => None,
        }
    }
}

/// Unsigned reading of a model value, as [`Value::as_u64`] returns it.
pub open spec fn spec_as_u64(v: ValModel) -> Option<u64> {
    match v {
        ValModel::U8(x) => Some(x as u64),
        ValModel::U16(x) => Some(x as u64),
        ValModel::U32(x) => Some(x as u64),
        ValModel::U64(x) => Some(x),
        _ => None,
    }
}

/// Signed reading of a model value, as [`Value::as_i64`] returns it.
pub open spec fn spec_as_i64(v: ValModel) -> Option<i64> {
    match v {
        ValModel::I8(x) => Some(x as i64),
        ValModel::I16(x) => Some(x as i64),
        ValModel::I32(x) => Some(x as i64),
        ValModel::I64(x) => Some(x),
        ValModel::U8(x) => Some(x as i64),
        ValModel::U16(x) => Some(x as i64),
        ValModel::U32(x) => Some(x as i64),
        ValModel::U64(x) => Some(x as u64 as i64),
        _ => None,
    }
}

/// The decimal digit character for `d`.
pub open spec fn digit_char(d: nat) -> char {
    if d == 0 {
        '0'
    } else if d == 1 {
        '1'
    } else if d == 2 {
        '2'
    } else if d == 3 {
        '3'
    } else if d == 4 {
        '4'
    } else if d == 5 {
        '5'
    } else if d == 6 {
        '6'
    } else if d == 7 {
        '7'
    } else if d == 8 {
        '8'
    } else {
        '9'
    }
}

/// The decimal rendering of a natural number, most significant digit first.
pub open spec fn dec_digits(n: nat) -> Seq<char>
    decreases n,
{
    if n < 10 {
        seq![digit_char(n)]
    } else {
        dec_digits(n / 10).push(digit_char(n % 10))
    }
}

/// The decimal rendering of an integer, with a leading minus sign when
/// negative.
pub open spec fn int_digits(n: int) -> Seq<char> {
    if n < 0 {
        seq!['-'] + dec_digits((-n) as nat)
    } else {
        dec_digits(n as nat)
    }
}

/// One decimal digit as text.
fn digit_str(d: u64) -> (r: &'static str)
    requires
        d < 10,
    ensures
        r@ == seq![digit_char(d as nat)],
{
    proof {
        reveal_strlit("0");
        reveal_strlit("1");
        reveal_strlit("2");
        reveal_strlit("3");
        reveal_strlit("4");
        reveal_strlit("5");
        reveal_strlit("6");
        reveal_strlit("7");
        reveal_strlit("8");
        reveal_strlit("9");
    }
    match d {
        0 => "0",
        1 => "1",
        2 => "2",
        3 => "3",
        4 => "4",
        5 => "5",
        6 => "6",
        7 => "7",
        8 => "8",
        _ => "9",
    }
}

/// Renders an unsigned integer in decimal.
pub fn u64_to_string(n: u64) -> (r: String)
    ensures
        r@ == dec_digits(n as nat),
    decreases n,
{
    if n < 10 {
        <String as vstd::string::StringExecFns>::from_str(digit_str(n))
    } else {
        let r = <String as vstd::string::StringExecFns>::concat(u64_to_string(n / 10), digit_str(n % 10));
        proof {
            assert(dec_digits((n / 10) as nat) + seq![digit_char((n % 10) as nat)] =~= dec_digits(
                (n / 10) as nat,
            ).push(digit_char((n % 10) as nat)));
        }
        r
    }
}

/// Renders a signed integer in decimal.
pub fn i64_to_string(v: i64) -> (r: String)
    ensures
        r@ == int_digits(v as int),
{
    if v < 0 {
        let m: u64 = if v == i64::MIN {
            0x8000_0000_0000_0000u64
        } else {
            (-v) as u64
        };
        let sign = <String as vstd::string::StringExecFns>::from_str("-");
        proof {
            reveal_strlit("-");
        }
        let digits = u64_to_string(m);
        <String as vstd::string::StringExecFns>::concat(sign, digits.as_str())
    } else {
        u64_to_string(v as u64)
    }
}

} // verus!
