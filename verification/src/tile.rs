//! A tile: the fixed-length storage of one column group, one tuple per slot.

use vstd::prelude::*;
use vstd::slice::{slice_subrange, slice_to_vec};
use crate::schema::{all_consistent, Column, Schema};
use crate::types::{Oid, StorageError};
use crate::value::{
    decode_fixed, decode_le, encode_fixed, encode_le, fixed_value, le_value, lemma_fixed_roundtrip,
    lemma_le_bytes_len, lemma_le_roundtrip, lemma_radix_values, Value, ValueModel, ValueType,
};

verus! {

/// The value that a cell holds before anything is written to it: zero, or
/// the empty payload.
pub open spec fn zero_value(t: ValueType) -> ValueModel {
    match t {
        ValueType::TinyInt => ValueModel::TinyInt(0),
        ValueType::SmallInt => ValueModel::SmallInt(0),
        ValueType::Integer => ValueModel::Integer(0),
        ValueType::BigInt => ValueModel::BigInt(0),
        ValueType::Varchar => ValueModel::Varchar(Seq::<u8>::empty()),
    }
}

/// The cells of a tile after `value` is written to column `col` of `slot`:
/// that cell holds `value`, every other cell what it held before.
pub open spec fn written(
    cells: Seq<Seq<ValueModel>>,
    slot: int,
    col: int,
    value: ValueModel,
) -> Seq<Seq<ValueModel>> {
    cells.update(slot, cells[slot].update(col, value))
}

/// Round trip: after a write to a cell of the tile, that cell holds the
/// written value and every other cell is as before.
pub proof fn lemma_write_then_read(
    cells: Seq<Seq<ValueModel>>,
    slot: int,
    col: int,
    value: ValueModel,
    s: int,
    c: int,
)
    requires
        0 <= slot < cells.len(),
        0 <= col < cells[slot].len(),
        0 <= s < cells.len(),
        0 <= c < cells[s].len(),
    ensures
        written(cells, slot, col, value).len() == cells.len(),
        written(cells, slot, col, value)[s].len() == cells[s].len(),
        written(cells, slot, col, value)[s][c] == if s == slot && c == col {
            value
        } else {
            cells[s][c]
        },
{
}

proof fn lemma_slot_range(slot: nat, count: nat, len: nat)
    requires
        slot < count,
    ensures
        slot * len + len <= count * len,
{
    assert((slot + 1) * len <= count * len) by (nonlinear_arith)
        requires
            slot + 1 <= count,
    ;
    assert((slot + 1) * len == slot * len + len) by (nonlinear_arith);
}

proof fn lemma_subrange_twice(s: Seq<u8>, a: int, b: int, c: int, d: int)
    requires
        0 <= a <= b <= s.len(),
        0 <= c <= d <= b - a,
    ensures
        s.subrange(a, b).subrange(c, d) == s.subrange(a + c, a + d),
{
    assert(s.subrange(a, b).subrange(c, d) =~= s.subrange(a + c, a + d));
}

proof fn lemma_zero_bytes(bytes: Seq<u8>)
    requires
        forall|i: int| 0 <= i < bytes.len() ==> bytes[i] == 0,
    ensures
        le_value(bytes) == 0,
    decreases bytes.len(),
{
    if bytes.len() > 0 {
        lemma_zero_bytes(bytes.drop_first());
    }
}

/// A buffer of `n` zero bytes.
fn zeroed(n: usize) -> (buf: Vec<u8>)
    ensures
        buf@.len() == n,
        forall|i: int| 0 <= i < n ==> buf@[i] == 0,
{
    let mut buf: Vec<u8> = Vec::new();
    let mut i: usize = 0;
    while i < n
        invariant
            i <= n,
            buf@.len() == i,
            forall|k: int| 0 <= k < i ==> buf@[k] == 0,
        decreases n - i,
    {
        buf.push(0);
        i = i + 1;
    }
    buf
}

/// Overwrites the bytes of `buf` from `at` on with `bytes`.
fn write_bytes(buf: &mut Vec<u8>, at: usize, bytes: &Vec<u8>)
    requires
        at + bytes@.len() <= old(buf)@.len(),
    ensures
        final(buf)@.len() == old(buf)@.len(),
        forall|i: int|
            0 <= i < old(buf)@.len() ==> #[trigger] final(buf)@[i] == if at <= i < at + bytes@.len() {
                bytes@[i - at]
            } else {
                old(buf)@[i]
            },
{
    let n: usize = bytes.len();
    let total: usize = buf.len();
    let mut k: usize = 0;
    while k < n
        invariant
            k <= n == bytes@.len(),
            at + n <= total == buf@.len() == old(buf)@.len(),
            forall|i: int|
                0 <= i < total ==> #[trigger] buf@[i] == if at <= i < at + k {
                    bytes@[i - at]
                } else {
                    old(buf)@[i]
                },
        decreases n - k,
    {
        buf.set(at + k, bytes[k]);
        k = k + 1;
    }
}

/// Appends `bytes` to `pool`.
fn append_bytes(pool: &mut Vec<u8>, bytes: &Vec<u8>)
    ensures
        final(pool)@ == old(pool)@ + bytes@,
{
    let n: usize = bytes.len();
    let mut k: usize = 0;
    while k < n
        invariant
            k <= n == bytes@.len(),
            pool@ == old(pool)@ + bytes@.subrange(0, k as int),
        decreases n - k,
    {
        pool.push(bytes[k]);
        assert(old(pool)@ + bytes@.subrange(0, k + 1) =~= (old(pool)@ + bytes@.subrange(0, k as int)).push(
            bytes@[k as int],
        ));
        k = k + 1;
    }
    assert(bytes@.subrange(0, n as int) =~= bytes@);
    assert(old(pool)@ + bytes@.subrange(0, 0) =~= old(pool)@);
}

/// The storage of one column group: `capacity` tuples of fixed length in one
/// buffer, and a pool that holds the payloads of variable-length columns.
pub struct Tile {
    schema: Schema,
    data: Vec<u8>,
    pool: Vec<u8>,
    tuple_count: usize,
}

impl View for Tile {
    type V = Seq<Seq<ValueModel>>;

    /// The cells: for each slot, the value of each column.
    closed spec fn view(&self) -> Seq<Seq<ValueModel>> {
        Seq::new(
            self.tuple_count as nat,
            |s: int| Seq::new(self.schema@.len(), |c: int| self.cell(s, c)),
        )
    }
}

impl Tile {
    /// The number of slots.
    pub closed spec fn capacity(&self) -> nat {
        self.tuple_count as nat
    }

    /// The columns.
    pub closed spec fn columns(&self) -> Seq<Column> {
        self.schema@
    }

    /// The length of a tuple in bytes.
    pub closed spec fn tuple_len(&self) -> nat {
        self.schema.tuple_len()
    }

    /// The bytes of the tuple in `slot`.
    pub closed spec fn tuple_bytes(&self, slot: int) -> Seq<u8> {
        self.data@.subrange(slot * self.schema.tuple_len(), slot * self.schema.tuple_len() + self.schema.tuple_len())
    }

    /// Where the bytes of column `col` of `slot` start in the buffer.
    closed spec fn cell_start(&self, slot: int, col: int) -> int {
        slot * self.schema.tuple_len() + self.schema@[col].offset
    }

    /// The offset and the length of the payload that a reference cell names.
    closed spec fn reference(&self, slot: int, col: int) -> (nat, nat) {
        let base = self.cell_start(slot, col);
        (
            le_value(self.data@.subrange(base, base + 8)),
            le_value(self.data@.subrange(base + 8, base + 16)),
        )
    }

    /// The value that the bytes of a cell stand for.
    closed spec fn cell(&self, slot: int, col: int) -> ValueModel {
        let c = self.schema@[col];
        let base = self.cell_start(slot, col);
        if c.is_inlined {
            fixed_value(c.value_type, self.data@.subrange(base, base + c.reserved()))
        } else {
            let (off, len) = self.reference(slot, col);
            ValueModel::Varchar(self.pool@.subrange(off as int, (off + len) as int))
        }
    }

    /// The buffer holds `capacity` tuples, and every reference names a
    /// payload that lies within the pool.
    pub closed spec fn wf(&self) -> bool {
        &&& self.schema.wf()
        &&& self.data@.len() == self.tuple_count * self.schema.tuple_len()
        &&& forall|s: int, c: int|
            0 <= s < self.tuple_count && 0 <= c < self.schema@.len() && !self.schema@[c].is_inlined
                ==> (#[trigger] self.reference(s, c)).0 + self.reference(s, c).1 <= self.pool@.len()
    }

    /// The shape of the cells of a well-formed tile: one row per slot, one
    /// cell per column, each cell of the type of its column.
    pub proof fn lemma_shape(&self)
        requires
            self.wf(),
        ensures
            self@.len() == self.capacity(),
            forall|s: int| 0 <= s < self.capacity() ==> (#[trigger] self@[s]).len() == self.columns().len(),
            forall|s: int, c: int|
                0 <= s < self.capacity() && 0 <= c < self.columns().len() ==> (#[trigger] self@[s][c]).value_type()
                    == self.columns()[c].value_type,
            all_consistent(self.columns()),
    {
        assert forall|s: int, c: int|
            0 <= s < self.capacity() && 0 <= c < self.columns().len() implies (#[trigger] self@[s][c]).value_type()
            == self.columns()[c].value_type by {
            assert(self.schema@[c].consistent());
        }
    }

    /// The bytes of a cell lie within its tuple, and its tuple within the
    /// buffer.
    proof fn lemma_cell_range(&self, slot: int, col: int)
        requires
            self.wf(),
            0 <= slot < self.tuple_count,
            0 <= col < self.schema@.len(),
        ensures
            0 <= slot * self.schema.tuple_len() <= self.cell_start(slot, col),
            self.cell_start(slot, col) + self.schema@[col].reserved() <= slot * self.schema.tuple_len()
                + self.schema.tuple_len(),
            slot * self.schema.tuple_len() + self.schema.tuple_len() <= self.data@.len(),
    {
        lemma_slot_range(slot as nat, self.tuple_count as nat, self.schema.tuple_len());
        self.schema.lemma_columns_disjoint(col, col);
        assert(0 <= slot * self.schema.tuple_len()) by (nonlinear_arith)
            requires
                0 <= slot,
                0 <= self.schema.tuple_len(),
        ;
    }

    /// Two different cells share no byte.
    proof fn lemma_cells_apart(&self, s1: int, c1: int, s2: int, c2: int)
        requires
            self.wf(),
            0 <= s1 < self.tuple_count,
            0 <= c1 < self.schema@.len(),
            0 <= s2 < self.tuple_count,
            0 <= c2 < self.schema@.len(),
            s1 != s2 || c1 != c2,
        ensures
            self.cell_start(s1, c1) + self.schema@[c1].reserved() <= self.cell_start(s2, c2)
                || self.cell_start(s2, c2) + self.schema@[c2].reserved() <= self.cell_start(s1, c1),
    {
        let len = self.schema.tuple_len();
        self.lemma_cell_range(s1, c1);
        self.lemma_cell_range(s2, c2);
        if s1 < s2 {
            lemma_slot_range(s1 as nat, s2 as nat, len);
        } else if s2 < s1 {
            lemma_slot_range(s2 as nat, s1 as nat, len);
        } else if c1 < c2 {
            self.schema.lemma_columns_disjoint(c1, c2);
        } else {
            self.schema.lemma_columns_disjoint(c2, c1);
        }
    }

    /// A tile of `tuple_count` slots for the columns of `schema`, every cell
    /// zero. Fails with `InvalidLayout` if the buffer would be larger than
    /// the machine can address.
    pub fn new(schema: &Schema, tuple_count: usize) -> (r: Result<Tile, StorageError>)
        requires
            schema.wf(),
        ensures
            r is Ok <==> tuple_count * schema.tuple_len() <= usize::MAX,
            r matches Ok(t) ==> {
                &&& t.wf()
                &&& t.capacity() == tuple_count
                &&& t.columns() == schema@
                &&& t.tuple_len() == schema.tuple_len()
                &&& forall|s: int, c: int|
                    0 <= s < tuple_count && 0 <= c < schema@.len() ==> #[trigger] t@[s][c] == zero_value(
                        schema@[c].value_type,
                    )
            },
            r matches Err(e) ==> e == StorageError::InvalidLayout,
    {
        let size: usize = match tuple_count.checked_mul(schema.tuple_length()) {
            Some(size) => size,
            None => {
                return Err(StorageError::InvalidLayout);
            },
        };
        let t = Tile {
            schema: schema.duplicate(),
            data: zeroed(size),
            pool: Vec::new(),
            tuple_count,
        };
        proof {
            assert forall|s: int, c: int|
                0 <= s < tuple_count && 0 <= c < t.schema@.len() implies {
                !t.schema@[c].is_inlined ==> (#[trigger] t.reference(s, c)) == (0nat, 0nat)
            } by {
                let base = t.cell_start(s, c);
                lemma_slot_range(s as nat, tuple_count as nat, t.schema.tuple_len());
                t.schema.lemma_columns_disjoint(c, c);
                assert(0 <= s * t.schema.tuple_len()) by (nonlinear_arith)
                    requires
                        0 <= s,
                        0 <= t.schema.tuple_len(),
                ;
                if !t.schema@[c].is_inlined {
                    lemma_zero_bytes(t.data@.subrange(base, base + 8));
                    lemma_zero_bytes(t.data@.subrange(base + 8, base + 16));
                }
            }
            assert(t.wf());
            assert forall|s: int, c: int|
                0 <= s < tuple_count && 0 <= c < schema@.len() implies #[trigger] t@[s][c] == zero_value(
                schema@[c].value_type,
            ) by {
                lemma_radix_values();
                assert(t.schema@[c].consistent());
                assert(t@[s][c] == t.cell(s, c));
                if t.schema@[c].is_inlined {
                    let base = t.cell_start(s, c);
                    t.lemma_cell_range(s, c);
                    lemma_zero_bytes(t.data@.subrange(base, base + t.schema@[c].reserved()));
                } else {
                    assert(t.reference(s, c) == (0nat, 0nat));
                    assert(t.pool@.subrange(0, 0) =~= Seq::<u8>::empty());
                }
            }
        }
        Ok(t)
    }

    /// The bytes of a cell that a write to another cell leaves alone.
    proof fn lemma_other_cell_kept(&self, before: Tile, slot: int, col: int, n: nat, s: int, c: int)
        requires
            before.wf(),
            self.schema == before.schema,
            self.tuple_count == before.tuple_count,
            0 <= slot < self.tuple_count,
            0 <= col < self.schema@.len(),
            0 <= s < self.tuple_count,
            0 <= c < self.schema@.len(),
            s != slot || c != col,
            n == self.schema@[col].reserved(),
            self.data@.len() == before.data@.len(),
            forall|i: int|
                0 <= i < self.data@.len() && !(before.cell_start(slot, col) <= i < before.cell_start(slot, col)
                    + n) ==> #[trigger] self.data@[i] == before.data@[i],
            before.pool@.len() <= self.pool@.len(),
            forall|i: int| 0 <= i < before.pool@.len() ==> #[trigger] self.pool@[i] == before.pool@[i],
        ensures
            self.cell(s, c) == before.cell(s, c),
            !self.schema@[c].is_inlined ==> self.reference(s, c) == before.reference(s, c),
    {
        before.lemma_cells_apart(slot, col, s, c);
        before.lemma_cell_range(s, c);
        before.lemma_cell_range(slot, col);
        let base = before.cell_start(s, c);
        if self.schema@[c].is_inlined {
            let r = self.schema@[c].reserved();
            assert(self.data@.subrange(base, base + r) =~= before.data@.subrange(base, base + r));
        } else {
            assert(self.data@.subrange(base, base + 8) =~= before.data@.subrange(base, base + 8));
            assert(self.data@.subrange(base + 8, base + 16) =~= before.data@.subrange(
                base + 8,
                base + 16,
            ));
            let (off, len) = before.reference(s, c);
            assert(self.pool@.subrange(off as int, (off + len) as int) =~= before.pool@.subrange(
                off as int,
                (off + len) as int,
            ));
        }
    }

    /// Writes `value` to column `col` of the tuple in `slot`. Fails with
    /// `NoSuchColumn` if the tile has no column `col`, and otherwise with
    /// `TypeMismatch` if the type of `value` is not the declared type of the
    /// column; a failed write changes nothing.
    pub fn write_column(&mut self, slot: Oid, col: usize, value: &Value) -> (r: Result<(), StorageError>)
        requires
            old(self).wf(),
            (slot as nat) < old(self).capacity(),
        ensures
            final(self).wf(),
            final(self).capacity() == old(self).capacity(),
            final(self).columns() == old(self).columns(),
            final(self).tuple_len() == old(self).tuple_len(),
            r is Ok <==> (col as nat) < old(self).columns().len() && value@.value_type() == old(
                self,
            ).columns()[col as int].value_type,
            r is Ok ==> final(self)@ == written(old(self)@, slot as int, col as int, value@),
            r matches Err(e) ==> {
                &&& final(self)@ == old(self)@
                &&& e == if (col as nat) < old(self).columns().len() {
                    StorageError::TypeMismatch
                } else {
                    StorageError::NoSuchColumn
                }
            },
    {
        let ncols: usize = self.schema.column_count();
        if col >= ncols {
            return Err(StorageError::NoSuchColumn);
        }
        let c: Column = self.schema.get_column(col);
        if value.value_type() != c.value_type {
            return Err(StorageError::TypeMismatch);
        }
        let ghost before = *self;
        proof {
            self.lemma_cell_range(slot as int, col as int);
            assert(c.consistent());
            lemma_radix_values();
        }
        let total: usize = self.data.len();
        let base: usize = slot as usize * self.schema.tuple_length() + c.offset;
        match value {
            Value::Varchar(payload) => {
                let off: u64 = self.pool.len() as u64;
                let len: u64 = payload.len() as u64;
                append_bytes(&mut self.pool, payload);
                let ref_off: Vec<u8> = encode_le(off, 8);
                let ref_len: Vec<u8> = encode_le(len, 8);
                proof {
                    lemma_le_bytes_len(off as nat, 8);
                    lemma_le_bytes_len(len as nat, 8);
                    lemma_le_roundtrip(off as nat, 8);
                    lemma_le_roundtrip(len as nat, 8);
                }
                write_bytes(&mut self.data, base, &ref_off);
                write_bytes(&mut self.data, base + 8, &ref_len);
                proof {
                    assert(self.data@.subrange(base as int, base + 8) =~= ref_off@);
                    assert(self.data@.subrange(base + 8, base + 16) =~= ref_len@);
                    assert(self.reference(slot as int, col as int) == (off as nat, len as nat));
                    assert(self.pool@.subrange(off as int, off + len) =~= payload@);
                    assert(self.cell(slot as int, col as int) == value@);
                }
            },
            _ => {
                let bytes: Vec<u8> = encode_fixed(value);
                proof {
                    lemma_fixed_roundtrip(value@);
                }
                write_bytes(&mut self.data, base, &bytes);
                proof {
                    assert(self.data@.subrange(base as int, base + c.reserved()) =~= bytes@);
                    assert(self.cell(slot as int, col as int) == value@);
                }
            },
        }
        proof {
            assert forall|s: int, k: int|
                0 <= s < self.tuple_count && 0 <= k < self.schema@.len() && (s != slot || k != col) implies {
                &&& self.cell(s, k) == before.cell(s, k)
                &&& (!self.schema@[k].is_inlined ==> #[trigger] self.reference(s, k) == before.reference(s, k))
            } by {
                self.lemma_other_cell_kept(before, slot as int, col as int, c.reserved(), s, k);
            }
            assert(self.wf());
            let expected = written(before@, slot as int, col as int, value@);
            assert forall|s: int| 0 <= s < self.tuple_count implies #[trigger] self@[s] =~= expected[s] by {
                assert forall|k: int| 0 <= k < self.schema@.len() implies self@[s][k] == expected[s][k] by {
                    if s != slot || k != col {
                        self.lemma_other_cell_kept(before, slot as int, col as int, c.reserved(), s, k);
                    }
                }
            }
            assert(self@ =~= expected);
        }
        Ok(())
    }

    /// The value of column `col` of the tuple in `slot`. Fails with
    /// `NoSuchColumn` if the tile has no column `col`.
    pub fn read_column(&self, slot: Oid, col: usize) -> (r: Result<Value, StorageError>)
        requires
            self.wf(),
            (slot as nat) < self.capacity(),
        ensures
            r is Ok <==> (col as nat) < self.columns().len(),
            r matches Ok(v) ==> v@ == self@[slot as int][col as int],
            r matches Err(e) ==> e == StorageError::NoSuchColumn,
    {
        let ncols: usize = self.schema.column_count();
        if col >= ncols {
            return Err(StorageError::NoSuchColumn);
        }
        let c: Column = self.schema.get_column(col);
        proof {
            self.lemma_cell_range(slot as int, col as int);
            assert(c.consistent());
        }
        let total: usize = self.data.len();
        let base: usize = slot as usize * self.schema.tuple_length() + c.offset;
        assert(self@[slot as int][col as int] == self.cell(slot as int, col as int));
        if c.is_inlined {
            Ok(decode_fixed(c.value_type, &self.data, base))
        } else {
            let off: u64 = decode_le(&self.data, base, 8);
            let len: u64 = decode_le(&self.data, base + 8, 8);
            let pool_len: usize = self.pool.len();
            assert(self.reference(slot as int, col as int) == (off as nat, len as nat));
            assert(off + len <= pool_len);
            let payload: Vec<u8> = slice_to_vec(
                slice_subrange(self.pool.as_slice(), off as usize, off as usize + len as usize),
            );
            Ok(Value::Varchar(payload))
        }
    }

    /// An inlined cell is decoded from its bytes within the tuple.
    proof fn lemma_tuple_bytes_cell(&self, slot: int, c: int)
        requires
            self.wf(),
            0 <= slot < self.tuple_count,
            0 <= c < self.schema@.len(),
            self.schema@[c].is_inlined,
        ensures
            fixed_value(
                self.schema@[c].value_type,
                self.tuple_bytes(slot).subrange(
                    self.schema@[c].offset as int,
                    self.schema@[c].offset + self.schema@[c].reserved(),
                ),
            ) == self.cell(slot, c),
    {
        self.lemma_cell_range(slot, c);
        let col = self.schema@[c];
        let start = slot * self.schema.tuple_len();
        let whole = self.data@.subrange(start, start + self.schema.tuple_len());
        lemma_subrange_twice(
            self.data@,
            start,
            start + self.schema.tuple_len(),
            col.offset as int,
            col.offset + col.reserved(),
        );
    }

    /// The bytes of the tuple in `tuple_slot_id`: every inlined column lies
    /// in them at its offset, in the fixed-width encoding of its type.
    pub fn get_tuple_location(&self, tuple_slot_id: Oid) -> (bytes: &[u8])
        requires
            self.wf(),
            (tuple_slot_id as nat) < self.capacity(),
        ensures
            bytes@ == self.tuple_bytes(tuple_slot_id as int),
            bytes@.len() == self.tuple_len(),
            forall|c: int|
                0 <= c < self.columns().len() && self.columns()[c].is_inlined ==> fixed_value(
                    self.columns()[c].value_type,
                    bytes@.subrange(
                        self.columns()[c].offset as int,
                        self.columns()[c].offset + self.columns()[c].reserved(),
                    ),
                ) == #[trigger] self@[tuple_slot_id as int][c],
    {
        let len: usize = self.schema.tuple_length();
        let total: usize = self.data.len();
        proof {
            lemma_slot_range(tuple_slot_id as nat, self.tuple_count as nat, len as nat);
            assert(0 <= tuple_slot_id * len) by (nonlinear_arith)
                requires
                    0 <= tuple_slot_id,
                    0 <= len,
            ;
        }
        let start: usize = tuple_slot_id as usize * len;
        let bytes: &[u8] = slice_subrange(self.data.as_slice(), start, start + len);
        proof {
            assert forall|c: int| 0 <= c < self.columns().len() && self.columns()[c].is_inlined implies fixed_value(
                self.columns()[c].value_type,
                bytes@.subrange(
                    self.columns()[c].offset as int,
                    self.columns()[c].offset + self.columns()[c].reserved(),
                ),
            ) == #[trigger] self@[tuple_slot_id as int][c] by {
                self.lemma_tuple_bytes_cell(tuple_slot_id as int, c);
                assert(self@[tuple_slot_id as int][c] == self.cell(tuple_slot_id as int, c));
            }
        }
        bytes
    }

    /// The number of slots.
    pub fn get_capacity(&self) -> (n: usize)
        ensures
            n == self.capacity(),
    {
        self.tuple_count
    }

    /// The number of columns.
    pub fn column_count(&self) -> (n: usize)
        ensures
            n == self.columns().len(),
    {
        self.schema.column_count()
    }

    /// The declared type of column `col`.
    pub fn column_type(&self, col: usize) -> (t: ValueType)
        requires
            col < self.columns().len(),
        ensures
            t == self.columns()[col as int].value_type,
    {
        self.schema.get_type(col)
    }
}

} // verus!
