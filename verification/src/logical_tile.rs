//! A logical tile: a projection of row ids over a tile group. For each of
//! its columns it names a column of the group and, for each of its rows, the
//! slot that holds the row's value of that column.

use vstd::prelude::*;
use crate::tile_group::TileGroup;
use crate::types::{Oid, StorageError, INVALID_OID};
use crate::value::Value;

verus! {

/// For each row of a logical tile, the slot that holds it.
pub type PositionList = Vec<Oid>;

/// One column of a logical tile: the column of the tile group that it shows.
#[derive(Clone, Copy, Debug, PartialEq, Eq, Structural)]
pub struct LogicalCol {
    pub physical_col_id: Oid,
}

/// A read-only projection over a tile group.
pub struct LogicalTile {
    columns: Vec<LogicalCol>,
    position_lists: Vec<PositionList>,
    row_count: Oid,
}

impl LogicalTile {
    /// The columns.
    pub closed spec fn columns(&self) -> Seq<LogicalCol> {
        self.columns@
    }

    /// The position list of each column.
    pub closed spec fn positions(&self) -> Seq<Seq<Oid>> {
        Seq::new(self.position_lists@.len(), |c: int| self.position_lists@[c]@)
    }

    /// The number of rows.
    pub closed spec fn rows(&self) -> nat {
        self.row_count as nat
    }

    /// Every column has a position list, and every list one slot per row.
    pub closed spec fn wf(&self) -> bool {
        &&& self.columns@.len() == self.position_lists@.len()
        &&& forall|c: int|
            0 <= c < self.position_lists@.len() ==> (#[trigger] self.position_lists@[c])@.len()
                == self.row_count
        &&& self.row_count < INVALID_OID
    }

    /// The shape of a well-formed logical tile.
    pub proof fn lemma_shape(&self)
        requires
            self.wf(),
        ensures
            self.positions().len() == self.columns().len(),
            forall|c: int| 0 <= c < self.columns().len() ==> (#[trigger] self.positions()[c]).len() == self.rows(),
            self.rows() < INVALID_OID,
    {
    }

    /// A logical tile without columns and rows.
    pub fn new() -> (t: Self)
        ensures
            t.wf(),
            t.columns().len() == 0,
            t.rows() == 0,
    {
        LogicalTile { columns: Vec::new(), position_lists: Vec::new(), row_count: 0 }
    }

    /// Adds a column that shows column `physical_col_id` of the tile group,
    /// with the slot of each row in `positions`. The first column decides
    /// the number of rows, which has to stay below `INVALID_OID`; a later
    /// one has to have as many. Otherwise the call returns `false` and
    /// changes nothing.
    pub fn add_column(&mut self, physical_col_id: Oid, positions: PositionList) -> (added: bool)
        requires
            old(self).wf(),
        ensures
            final(self).wf(),
            added <==> if old(self).columns().len() == 0 {
                positions@.len() < INVALID_OID
            } else {
                positions@.len() == old(self).rows()
            },
            added ==> {
                &&& final(self).columns() == old(self).columns().push(LogicalCol { physical_col_id })
                &&& final(self).positions() == old(self).positions().push(positions@)
                &&& final(self).rows() == positions@.len()
            },
            !added ==> {
                &&& final(self).columns() == old(self).columns()
                &&& final(self).positions() == old(self).positions()
                &&& final(self).rows() == old(self).rows()
            },
    {
        let n: usize = positions.len();
        if self.columns.len() == 0 {
            if n >= 0xFFFF_FFFF {
                return false;
            }
            self.row_count = n as Oid;
        } else if n != self.row_count as usize {
            return false;
        }
        self.columns.push(LogicalCol { physical_col_id });
        self.position_lists.push(positions);
        assert(self.positions() =~= old(self).positions().push(positions@));
        true
    }

    /// The number of rows.
    pub fn row_count(&self) -> (n: Oid)
        ensures
            n == self.rows(),
    {
        self.row_count
    }

    /// The number of columns.
    pub fn column_count(&self) -> (n: usize)
        ensures
            n == self.columns().len(),
    {
        self.columns.len()
    }

    /// The value of column `col_id` in row `tuple_id`, read from `group`.
    /// Fails with `NoSuchColumn` if the logical tile has no such column and
    /// otherwise with `NoSuchSlot` if it has no such row; otherwise the
    /// result is that of reading, from `group`, the column that `col_id`
    /// shows at the slot that its position list gives for the row.
    pub fn get_value(&self, group: &TileGroup, tuple_id: Oid, col_id: Oid) -> (r: Result<
        Value,
        StorageError,
    >)
        requires
            self.wf(),
            group.wf(),
        ensures
            (col_id as nat) >= self.columns().len() ==> r == Err::<Value, StorageError>(
                StorageError::NoSuchColumn,
            ),
            (col_id as nat) < self.columns().len() && (tuple_id as nat) >= self.rows() ==> r == Err::<
                Value,
                StorageError,
            >(StorageError::NoSuchSlot),
            (col_id as nat) < self.columns().len() && (tuple_id as nat) < self.rows() ==> {
                let slot = self.positions()[col_id as int][tuple_id as int];
                let col = self.columns()[col_id as int].physical_col_id;
                &&& r is Ok <==> (slot as nat) < group.capacity() && (col as nat) < group.column_map().len()
                &&& r matches Ok(v) ==> v@ == group@[slot as int][col as int]
                &&& r matches Err(e) ==> e == if (slot as nat) < group.capacity() {
                    StorageError::NoSuchColumn
                } else {
                    StorageError::NoSuchSlot
                }
            },
    {
        if col_id as usize >= self.columns.len() {
            return Err(StorageError::NoSuchColumn);
        }
        if tuple_id >= self.row_count {
            return Err(StorageError::NoSuchSlot);
        }
        let slot: Oid = self.position_lists[col_id as usize][tuple_id as usize];
        group.read_column(slot, self.columns[col_id as usize].physical_col_id)
    }

    /// An iterator over the row ids, in index order.
    pub fn into_iter(self) -> (it: LogicalTileIter)
        requires
            self.wf(),
        ensures
            it.wf(),
            it.position() == 0,
            it.end() == self.rows(),
    {
        LogicalTileIter { next_row: 0, row_count: self.row_count }
    }
}

/// Iterates over the row ids of a logical tile: `0`, `1`, and so on up to
/// the number of rows.
pub struct LogicalTileIter {
    next_row: Oid,
    row_count: Oid,
}

impl LogicalTileIter {
    /// The row id that comes next.
    pub closed spec fn position(&self) -> nat {
        self.next_row as nat
    }

    /// The number of rows.
    pub closed spec fn end(&self) -> nat {
        self.row_count as nat
    }

    /// The iterator has not passed the last row.
    pub closed spec fn wf(&self) -> bool {
        self.next_row <= self.row_count
    }

    /// The next row id, or `None` when every row has been yielded.
    pub fn next(&mut self) -> (r: Option<Oid>)
        requires
            old(self).wf(),
        ensures
            final(self).wf(),
            final(self).end() == old(self).end(),
            old(self).position() < old(self).end() ==> r == Some(old(self).position() as Oid)
                && final(self).position() == old(self).position() + 1,
            old(self).position() >= old(self).end() ==> r.is_none() && final(self).position() == old(
                self,
            ).position(),
    {
        if self.next_row < self.row_count {
            let row: Oid = self.next_row;
            self.next_row = row + 1;
            Some(row)
        } else {
            None
        }
    }
}

} // verus!
