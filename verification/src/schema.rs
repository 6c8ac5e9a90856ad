//! Column layout metadata: where each column of a tuple lies.

use vstd::prelude::*;
use crate::types::StorageError;
use crate::value::{REFERENCE_SIZE, ValueType};

verus! {

/// One column of a schema.
#[derive(Clone, Copy, Debug, PartialEq, Eq, Structural)]
pub struct Column {
    /// The type of the column's values.
    pub value_type: ValueType,
    /// Whether the value itself lies in the tuple; otherwise the tuple holds
    /// a reference to a payload that is stored elsewhere.
    pub is_inlined: bool,
    /// The declared length: the width of an inlined value, or the longest
    /// payload that the column is declared for.
    pub length: usize,
    /// The offset of the column within a tuple. A schema computes it.
    pub offset: usize,
}

impl Column {
    /// The number of bytes that the column takes in a tuple: the width of its
    /// type if it is inlined, the size of a reference otherwise.
    pub open spec fn reserved(self) -> nat {
        if self.is_inlined {
            self.value_type.width()
        } else {
            REFERENCE_SIZE as nat
        }
    }

    /// A column is inlined exactly if its type has a fixed width.
    pub open spec fn consistent(self) -> bool {
        self.is_inlined != self.value_type.variable_length()
    }

    /// An inlined column of type `value_type`, declared as wide as the type.
    pub fn new_static(value_type: ValueType) -> (c: Column)
        ensures
            c == (Column {
                value_type,
                is_inlined: true,
                length: value_type.width() as usize,
                offset: 0,
            }),
    {
        Column { value_type, is_inlined: true, length: value_type.fixed_width(), offset: 0 }
    }

    /// A column of type `value_type` that is stored by reference, declared
    /// for payloads of up to `length` bytes.
    pub fn new_dynamic(value_type: ValueType, length: usize) -> (c: Column)
        ensures
            c == (Column { value_type, is_inlined: false, length, offset: 0 }),
    {
        Column { value_type, is_inlined: false, length, offset: 0 }
    }

    /// The number of bytes that the column takes in a tuple.
    pub fn reserved_size(&self) -> (n: usize)
        ensures
            n == self.reserved(),
            n <= REFERENCE_SIZE,
    {
        if self.is_inlined {
            self.value_type.fixed_width()
        } else {
            REFERENCE_SIZE
        }
    }

    /// Whether the inline flag fits the type.
    pub fn is_consistent(&self) -> (b: bool)
        ensures
            b == self.consistent(),
    {
        self.is_inlined != self.value_type.is_variable_length()
    }
}

/// The number of bytes that the first `i` columns take: the offset at which
/// column `i` starts when columns are laid out in order without gaps.
#[verifier::opaque]
pub open spec fn layout_end(cols: Seq<Column>, i: nat) -> nat
    decreases i,
{
    if i == 0 {
        0
    } else {
        layout_end(cols, (i - 1) as nat) + cols[i - 1].reserved()
    }
}

/// Whether every column of `cols` is consistent.
pub open spec fn all_consistent(cols: Seq<Column>) -> bool {
    forall|i: int| 0 <= i < cols.len() ==> (#[trigger] cols[i]).consistent()
}

/// The layout starts at 0.
pub proof fn lemma_layout_start(cols: Seq<Column>)
    ensures
        layout_end(cols, 0) == 0,
{
    reveal(layout_end);
}

/// Column `i` ends where the layout of the first `i + 1` columns ends.
pub proof fn lemma_layout_step(cols: Seq<Column>, i: nat)
    ensures
        layout_end(cols, i + 1) == layout_end(cols, i) + cols[i as int].reserved(),
{
    reveal(layout_end);
}

/// The layout only grows.
pub proof fn lemma_layout_monotonic(cols: Seq<Column>, i: nat, j: nat)
    requires
        i <= j,
    ensures
        layout_end(cols, i) <= layout_end(cols, j),
    decreases j,
{
    if i < j {
        lemma_layout_monotonic(cols, i, (j - 1) as nat);
        lemma_layout_step(cols, (j - 1) as nat);
    }
}

/// The layout depends on the types and inline flags of the columns alone.
pub proof fn lemma_layout_same(a: Seq<Column>, b: Seq<Column>, i: nat)
    requires
        i <= a.len() == b.len(),
        forall|k: int| 0 <= k < a.len() ==> (#[trigger] a[k]).reserved() == b[k].reserved(),
    ensures
        layout_end(a, i) == layout_end(b, i),
    decreases i,
{
    if i > 0 {
        lemma_layout_same(a, b, (i - 1) as nat);
        lemma_layout_step(a, (i - 1) as nat);
        lemma_layout_step(b, (i - 1) as nat);
    } else {
        lemma_layout_start(a);
        lemma_layout_start(b);
    }
}

/// The columns of a tuple, in declaration order, each with its offset.
pub struct Schema {
    cols: Vec<Column>,
    tuple_length: usize,
}

impl View for Schema {
    type V = Seq<Column>;

    closed spec fn view(&self) -> Seq<Column> {
        self.cols@
    }
}

impl Schema {
    /// The length of a tuple in bytes.
    pub closed spec fn tuple_len(&self) -> nat {
        self.tuple_length as nat
    }

    /// Every column is consistent and starts where the one before it ends,
    /// the first at 0; a tuple is as long as all columns together.
    pub open spec fn wf(&self) -> bool {
        &&& all_consistent(self@)
        &&& forall|i: int| 0 <= i < self@.len() ==> (#[trigger] self@[i]).offset == layout_end(self@, i as nat)
        &&& self.tuple_len() == layout_end(self@, self@.len())
        &&& self.tuple_len() <= usize::MAX
    }

    /// Lays `columns` out in order. Fails with `InvalidColumn` if the inline
    /// flag of some column contradicts its type, and otherwise with
    /// `InvalidLayout` if a tuple would be longer than the machine can
    /// address.
    pub fn new(columns: Vec<Column>) -> (r: Result<Schema, StorageError>)
        ensures
            r is Ok <==> all_consistent(columns@) && layout_end(columns@, columns@.len()) <= usize::MAX,
            r matches Ok(s) ==> {
                &&& s.wf()
                &&& s@.len() == columns@.len()
                &&& forall|i: int| 0 <= i < columns@.len() ==> #[trigger] s@[i] == (Column {
                        offset: layout_end(columns@, i as nat) as usize,
                        ..columns@[i]
                    })
            },
            r matches Err(e) ==> e == if all_consistent(columns@) {
                StorageError::InvalidLayout
            } else {
                StorageError::InvalidColumn
            },
    {
        let n: usize = columns.len();
        let mut k: usize = 0;
        while k < n
            invariant
                k <= n == columns@.len(),
                forall|i: int| 0 <= i < k ==> (#[trigger] columns@[i]).consistent(),
            decreases n - k,
        {
            if !columns[k].is_consistent() {
                return Err(StorageError::InvalidColumn);
            }
            k = k + 1;
        }
        let mut cols: Vec<Column> = Vec::new();
        let mut offset: usize = 0;
        let mut i: usize = 0;
        proof {
            lemma_layout_start(columns@);
        }
        while i < n
            invariant
                i <= n == columns@.len(),
                all_consistent(columns@),
                cols@.len() == i,
                offset == layout_end(columns@, i as nat),
                forall|j: int| 0 <= j < i ==> #[trigger] cols@[j] == (Column {
                        offset: layout_end(columns@, j as nat) as usize,
                        ..columns@[j]
                    }),
            decreases n - i,
        {
            let c: Column = columns[i];
            let size: usize = c.reserved_size();
            proof {
                lemma_layout_step(columns@, i as nat);
            }
            if offset > usize::MAX - size {
                proof {
                    lemma_layout_monotonic(columns@, (i + 1) as nat, n as nat);
                }
                return Err(StorageError::InvalidLayout);
            }
            cols.push(
                Column {
                    value_type: c.value_type,
                    is_inlined: c.is_inlined,
                    length: c.length,
                    offset,
                },
            );
            offset = offset + size;
            i = i + 1;
        }
        let s = Schema { cols, tuple_length: offset };
        proof {
            assert forall|j: int| 0 <= j < s@.len() implies (#[trigger] s@[j]).offset == layout_end(
                s@,
                j as nat,
            ) by {
                lemma_layout_same(s@, columns@, j as nat);
                lemma_layout_monotonic(columns@, j as nat, n as nat);
            }
            lemma_layout_same(s@, columns@, n as nat);
            assert(all_consistent(s@)) by {
                assert forall|j: int| 0 <= j < s@.len() implies (#[trigger] s@[j]).consistent() by {
                    assert(columns@[j].consistent());
                }
            }
        }
        Ok(s)
    }

    /// The number of columns.
    pub fn column_count(&self) -> (n: usize)
        ensures
            n == self@.len(),
    {
        self.cols.len()
    }

    /// The length of a tuple in bytes.
    pub fn tuple_length(&self) -> (n: usize)
        ensures
            n == self.tuple_len(),
    {
        self.tuple_length
    }

    /// Column `col`.
    pub fn get_column(&self, col: usize) -> (c: Column)
        requires
            col < self@.len(),
        ensures
            c == self@[col as int],
    {
        self.cols[col]
    }

    /// The declared type of column `col`.
    pub fn get_type(&self, col: usize) -> (t: ValueType)
        requires
            col < self@.len(),
        ensures
            t == self@[col as int].value_type,
    {
        self.cols[col].value_type
    }

    /// A schema with the same columns.
    pub fn duplicate(&self) -> (s: Schema)
        ensures
            s@ == self@,
            s.tuple_len() == self.tuple_len(),
    {
        let mut cols: Vec<Column> = Vec::new();
        let n: usize = self.cols.len();
        let mut i: usize = 0;
        while i < n
            invariant
                i <= n == self.cols@.len(),
                cols@ == self.cols@.subrange(0, i as int),
            decreases n - i,
        {
            cols.push(self.cols[i]);
            assert(self.cols@.subrange(0, i + 1) =~= self.cols@.subrange(0, i as int).push(self.cols@[i as int]));
            i = i + 1;
        }
        assert(self.cols@.subrange(0, n as int) =~= self.cols@);
        Schema { cols, tuple_length: self.tuple_length }
    }

    /// Within a well-formed schema every column lies inside the tuple, and a
    /// column ends before a later one starts.
    pub proof fn lemma_columns_disjoint(&self, i: int, j: int)
        requires
            self.wf(),
            0 <= i <= j < self@.len(),
        ensures
            self@[j].offset + self@[j].reserved() <= self.tuple_len(),
            i < j ==> self@[i].offset + self@[i].reserved() <= self@[j].offset,
    {
        lemma_layout_monotonic(self@, (j + 1) as nat, self@.len());
        lemma_layout_step(self@, j as nat);
        if i < j {
            lemma_layout_monotonic(self@, (i + 1) as nat, j as nat);
            lemma_layout_step(self@, i as nat);
        }
    }
}

} // verus!
