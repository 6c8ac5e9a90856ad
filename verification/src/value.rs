//! Column value types, values, rows of values, and the fixed-width
//! little-endian encoding in which a tile stores them.

use vstd::prelude::*;

verus! {

/// The number of bytes that a variable-length column reserves in a tuple: the
/// offset and the length of its payload, eight bytes each.
pub const REFERENCE_SIZE: usize = 16;

/// The type of the values of a column.
#[derive(Clone, Copy, Debug, PartialEq, Eq, Structural)]
pub enum ValueType {
    TinyInt,
    SmallInt,
    Integer,
    BigInt,
    Varchar,
}

impl ValueType {
    /// Whether values of this type vary in length.
    pub open spec fn variable_length(self) -> bool {
        self is Varchar
    }

    /// The width of the encoding of a value of this type; 0 for a
    /// variable-length type, which has no fixed width.
    pub open spec fn width(self) -> nat {
        match self {
            ValueType::TinyInt => 1,
            ValueType::SmallInt => 2,
            ValueType::Integer => 4,
            ValueType::BigInt => 8,
            ValueType::Varchar => 0,
        }
    }

    /// Whether values of this type vary in length.
    pub fn is_variable_length(self) -> (b: bool)
        ensures
            b == self.variable_length(),
    {
        match self {
            ValueType::Varchar => true,
            _ => false,
        }
    }

    /// The width of the encoding of a value of this type; 0 for a
    /// variable-length type.
    pub fn fixed_width(self) -> (w: usize)
        ensures
            w == self.width(),
    {
        match self {
            ValueType::TinyInt => 1,
            ValueType::SmallInt => 2,
            ValueType::Integer => 4,
            ValueType::BigInt => 8,
            ValueType::Varchar => 0,
        }
    }
}

/// A column value.
#[derive(Clone, Debug, PartialEq, Eq)]
pub enum Value {
    TinyInt(i8),
    SmallInt(i16),
    Integer(i32),
    BigInt(i64),
    Varchar(Vec<u8>),
}

/// The mathematical value that a `Value` stands for.
pub enum ValueModel {
    TinyInt(i8),
    SmallInt(i16),
    Integer(i32),
    BigInt(i64),
    Varchar(Seq<u8>),
}

impl ValueModel {
    /// The type of the value.
    pub open spec fn value_type(self) -> ValueType {
        match self {
            ValueModel::TinyInt(_) => ValueType::TinyInt,
            ValueModel::SmallInt(_) => ValueType::SmallInt,
            ValueModel::Integer(_) => ValueType::Integer,
            ValueModel::BigInt(_) => ValueType::BigInt,
            ValueModel::Varchar(_) => ValueType::Varchar,
        }
    }

    /// The integer that a fixed-width value holds; 0 for a `Varchar`.
    pub open spec fn number(self) -> int {
        match self {
            ValueModel::TinyInt(x) => x as int,
            ValueModel::SmallInt(x) => x as int,
            ValueModel::Integer(x) => x as int,
            ValueModel::BigInt(x) => x as int,
            ValueModel::Varchar(_) => 0,
        }
    }
}

impl View for Value {
    type V = ValueModel;

    open spec fn view(&self) -> ValueModel {
        match self {
            Value::TinyInt(x) => ValueModel::TinyInt(*x),
            Value::SmallInt(x) => ValueModel::SmallInt(*x),
            Value::Integer(x) => ValueModel::Integer(*x),
            Value::BigInt(x) => ValueModel::BigInt(*x),
            Value::Varchar(bytes) => ValueModel::Varchar(bytes@),
        }
    }
}

impl Value {
    /// The type of the value.
    pub fn value_type(&self) -> (t: ValueType)
        ensures
            t == self@.value_type(),
    {
        match self {
            Value::TinyInt(_) => ValueType::TinyInt,
            Value::SmallInt(_) => ValueType::SmallInt,
            Value::Integer(_) => ValueType::Integer,
            Value::BigInt(_) => ValueType::BigInt,
            Value::Varchar(_) => ValueType::Varchar,
        }
    }
}

/// 256 to the power `width`: the number of values that `width` bytes encode.
pub open spec fn radix(width: nat) -> nat
    decreases width,
{
    if width == 0 {
        1
    } else {
        256 * radix((width - 1) as nat)
    }
}

/// The `width` low-order bytes of `v`, least significant first.
pub open spec fn le_bytes(v: nat, width: nat) -> Seq<u8>
    decreases width,
{
    if width == 0 {
        Seq::<u8>::empty()
    } else {
        seq![(v % 256) as u8] + le_bytes(v / 256, (width - 1) as nat)
    }
}

/// The number that `bytes` encode, least significant byte first.
pub open spec fn le_value(bytes: Seq<u8>) -> nat
    decreases bytes.len(),
{
    if bytes.len() == 0 {
        0
    } else {
        bytes[0] as nat + 256 * le_value(bytes.drop_first())
    }
}

/// The two's-complement representation of `x` in `width` bytes.
pub open spec fn to_raw(x: int, width: nat) -> nat {
    if x >= 0 {
        x as nat
    } else {
        (x + radix(width)) as nat
    }
}

/// The signed number whose two's-complement representation in `width` bytes
/// is `u`.
pub open spec fn from_raw(u: nat, width: nat) -> int {
    if 2 * u < radix(width) {
        u as int
    } else {
        u - radix(width)
    }
}

/// The encoding of a fixed-width value: its two's complement in as many
/// bytes as its type is wide, least significant byte first.
pub open spec fn fixed_bytes(v: ValueModel) -> Seq<u8> {
    le_bytes(to_raw(v.number(), v.value_type().width()), v.value_type().width())
}

/// The fixed-width value of type `t` that `bytes` encode.
pub open spec fn fixed_value(t: ValueType, bytes: Seq<u8>) -> ValueModel {
    let n = from_raw(le_value(bytes), t.width());
    match t {
        ValueType::TinyInt => ValueModel::TinyInt(n as i8),
        ValueType::SmallInt => ValueModel::SmallInt(n as i16),
        ValueType::Integer => ValueModel::Integer(n as i32),
        ValueType::BigInt => ValueModel::BigInt(n as i64),
        ValueType::Varchar => ValueModel::Varchar(Seq::<u8>::empty()),
    }
}

/// The powers of 256 that the four widths use.
pub proof fn lemma_radix_values()
    ensures
        radix(0) == 1,
        radix(1) == 0x100,
        radix(2) == 0x1_0000,
        radix(4) == 0x1_0000_0000,
        radix(8) == 0x1_0000_0000_0000_0000,
{
    reveal_with_fuel(radix, 9);
}

/// `radix` grows with the width.
pub proof fn lemma_radix_monotonic(a: nat, b: nat)
    requires
        a <= b,
    ensures
        0 < radix(a) <= radix(b),
    decreases b,
{
    if a < b {
        lemma_radix_monotonic(a, (b - 1) as nat);
    } else if a > 0 {
        lemma_radix_monotonic((a - 1) as nat, (b - 1) as nat);
    }
}

/// `le_bytes` yields `width` bytes.
pub proof fn lemma_le_bytes_len(v: nat, width: nat)
    ensures
        le_bytes(v, width).len() == width,
    decreases width,
{
    if width > 0 {
        lemma_le_bytes_len(v / 256, (width - 1) as nat);
    }
}

/// What `n` bytes encode is below `radix(n)`.
pub proof fn lemma_le_value_bound(bytes: Seq<u8>)
    ensures
        le_value(bytes) < radix(bytes.len()),
    decreases bytes.len(),
{
    if bytes.len() > 0 {
        lemma_le_value_bound(bytes.drop_first());
    }
}

/// Decoding undoes encoding for every number that fits the width.
pub proof fn lemma_le_roundtrip(v: nat, width: nat)
    requires
        v < radix(width),
    ensures
        le_value(le_bytes(v, width)) == v,
    decreases width,
{
    if width > 0 {
        let rest = le_bytes(v / 256, (width - 1) as nat);
        let all = le_bytes(v, width);
        assert(all.drop_first() =~= rest);
        lemma_le_roundtrip(v / 256, (width - 1) as nat);
    }
}

/// Round trip of the encoding: decoding the bytes of a fixed-width value at
/// its own type yields the value again.
pub proof fn lemma_fixed_roundtrip(v: ValueModel)
    requires
        !v.value_type().variable_length(),
    ensures
        fixed_bytes(v).len() == v.value_type().width(),
        fixed_value(v.value_type(), fixed_bytes(v)) == v,
{
    let w = v.value_type().width();
    lemma_radix_values();
    lemma_le_bytes_len(to_raw(v.number(), w), w);
    lemma_le_roundtrip(to_raw(v.number(), w), w);
}

/// The `width` low-order bytes of `raw`, least significant first.
pub fn encode_le(raw: u64, width: usize) -> (out: Vec<u8>)
    ensures
        out@ == le_bytes(raw as nat, width as nat),
{
    let mut out: Vec<u8> = Vec::new();
    let mut v: u64 = raw;
    let mut k: usize = 0;
    while k < width
        invariant
            k <= width,
            out@.len() == k,
            out@ + le_bytes(v as nat, (width - k) as nat) == le_bytes(raw as nat, width as nat),
        decreases width - k,
    {
        let b: u8 = (v % 256) as u8;
        proof {
            let rest = le_bytes((v / 256) as nat, (width - k - 1) as nat);
            assert(le_bytes(v as nat, (width - k) as nat) == seq![b] + rest);
            assert(out@.push(b) + rest =~= out@ + (seq![b] + rest));
        }
        out.push(b);
        v = v / 256;
        k = k + 1;
    }
    assert(out@ + Seq::<u8>::empty() =~= out@);
    out
}

/// The number that the `width` bytes of `buf` from `at` on encode.
pub fn decode_le(buf: &Vec<u8>, at: usize, width: usize) -> (v: u64)
    requires
        width <= 8,
        at + width <= buf@.len(),
    ensures
        v == le_value(buf@.subrange(at as int, at + width)),
{
    let n: usize = buf.len();
    let mut acc: u64 = 0;
    let mut i: usize = width;
    while i > 0
        invariant
            i <= width <= 8,
            at + width <= buf@.len() == n,
            acc == le_value(buf@.subrange(at + i, at + width)),
        decreases i,
    {
        proof {
            let tail = buf@.subrange(at + i, at + width);
            let more = buf@.subrange(at + i - 1, at + width);
            assert(more.drop_first() =~= tail);
            lemma_le_value_bound(tail);
            lemma_le_value_bound(more);
            lemma_radix_monotonic(more.len(), 8);
            lemma_radix_values();
        }
        i = i - 1;
        acc = acc * 256 + buf[at + i] as u64;
    }
    acc
}

/// The bytes that a tile stores for a fixed-width value; nothing for a
/// `Varchar`, whose payload has no fixed width.
pub fn encode_fixed(v: &Value) -> (out: Vec<u8>)
    ensures
        out@ == fixed_bytes(v@),
{
    proof {
        lemma_radix_values();
    }
    match v {
        Value::TinyInt(x) => {
            let raw: u64 = if *x >= 0 {
                *x as u64
            } else {
                (*x as i64 + 0x100) as u64
            };
            encode_le(raw, 1)
        },
        Value::SmallInt(x) => {
            let raw: u64 = if *x >= 0 {
                *x as u64
            } else {
                (*x as i64 + 0x1_0000) as u64
            };
            encode_le(raw, 2)
        },
        Value::Integer(x) => {
            let raw: u64 = if *x >= 0 {
                *x as u64
            } else {
                (*x as i64 + 0x1_0000_0000) as u64
            };
            encode_le(raw, 4)
        },
        Value::BigInt(x) => {
            let raw: u64 = if *x >= 0 {
                *x as u64
            } else {
                (*x - i64::MIN) as u64 + 0x8000_0000_0000_0000
            };
            encode_le(raw, 8)
        },
        Value::Varchar(_) => encode_le(0, 0),
    }
}

/// The fixed-width value of type `t` that `buf` holds from `at` on.
pub fn decode_fixed(t: ValueType, buf: &Vec<u8>, at: usize) -> (v: Value)
    requires
        at + t.width() <= buf@.len(),
    ensures
        v@ == fixed_value(t, buf@.subrange(at as int, at + t.width())),
{
    proof {
        lemma_radix_values();
        lemma_le_value_bound(buf@.subrange(at as int, at + t.width()));
    }
    match t {
        ValueType::TinyInt => {
            let u: u64 = decode_le(buf, at, 1);
            if u < 0x80 {
                Value::TinyInt(u as i8)
            } else {
                Value::TinyInt((u as i64 - 0x100) as i8)
            }
        },
        ValueType::SmallInt => {
            let u: u64 = decode_le(buf, at, 2);
            if u < 0x8000 {
                Value::SmallInt(u as i16)
            } else {
                Value::SmallInt((u as i64 - 0x1_0000) as i16)
            }
        },
        ValueType::Integer => {
            let u: u64 = decode_le(buf, at, 4);
            if u < 0x8000_0000 {
                Value::Integer(u as i32)
            } else {
                Value::Integer((u as i64 - 0x1_0000_0000) as i32)
            }
        },
        ValueType::BigInt => {
            let u: u64 = decode_le(buf, at, 8);
            if u < 0x8000_0000_0000_0000 {
                Value::BigInt(u as i64)
            } else {
                Value::BigInt((u - 0x8000_0000_0000_0000) as i64 + i64::MIN)
            }
        },
        ValueType::Varchar => Value::Varchar(Vec::new()),
    }
}

/// A row: one value per column, in column order.
pub struct Tuple {
    values: Vec<Value>,
}

impl View for Tuple {
    type V = Seq<ValueModel>;

    closed spec fn view(&self) -> Seq<ValueModel> {
        Seq::new(self.values@.len(), |i: int| self.values@[i]@)
    }
}

impl Tuple {
    /// The row that holds `values`.
    pub fn new(values: Vec<Value>) -> (t: Tuple)
        ensures
            t@.len() == values@.len(),
            forall|i: int| 0 <= i < values@.len() ==> t@[i] == values@[i]@,
    {
        Tuple { values }
    }

    /// The number of values in the row.
    pub fn len(&self) -> (n: usize)
        ensures
            n == self@.len(),
    {
        self.values.len()
    }

    /// The value of column `i`.
    pub fn get_value(&self, i: usize) -> (v: &Value)
        requires
            i < self@.len(),
        ensures
            v@ == self@[i as int],
    {
        &self.values[i]
    }
}

} // verus!
