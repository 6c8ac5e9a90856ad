//! A tile group: one horizontal partition of a table. It owns the tiles that
//! hold the partition's column groups, and the header that hands out its
//! slots and holds their version metadata.

use vstd::prelude::*;
use std::collections::HashMap;
use crate::header::{fresh_entry, slot_at, TileGroupHeader};
use crate::schema::{Column, Schema};
use crate::tile::{lemma_write_then_read, zero_value, Tile};
use crate::types::{Oid, StorageError, INVALID_OID};
use crate::value::{Tuple, Value, ValueModel};

verus! {

broadcast use vstd::std_specs::hash::group_hash_axioms;

/// The number of columns of the first `n` schemas together.
#[verifier::opaque]
pub open spec fn column_total(schemas: Seq<Schema>, n: nat) -> nat
    decreases n,
{
    if n == 0 {
        0
    } else {
        column_total(schemas, (n - 1) as nat) + schemas[n - 1]@.len()
    }
}

/// Whether `col_map` sends each of the `total` logical columns to a column
/// of one of the tiles, and no two of them to the same one. `widths[t]` is
/// the number of columns of tile `t`.
pub open spec fn valid_column_map(
    col_map: Map<usize, (usize, usize)>,
    total: nat,
    widths: Seq<nat>,
) -> bool {
    &&& forall|k: usize|
        k < total ==> {
            &&& #[trigger] col_map.contains_key(k)
            &&& col_map[k].0 < widths.len()
            &&& col_map[k].1 < widths[col_map[k].0 as int]
        }
    &&& forall|j: usize, k: usize| j < k < total ==> #[trigger] col_map[j] != #[trigger] col_map[k]
}

/// The number of columns of each schema.
pub open spec fn schema_widths(schemas: Seq<Schema>) -> Seq<nat> {
    Seq::new(schemas.len(), |t: int| schemas[t]@.len())
}

/// Whether a tile of `tuple_count` tuples can be allocated for every schema.
pub open spec fn tiles_fit(schemas: Seq<Schema>, tuple_count: nat) -> bool {
    forall|t: int| 0 <= t < schemas.len() ==> tuple_count * (#[trigger] schemas[t]).tuple_len() <= usize::MAX
}

pub proof fn lemma_column_total_start(schemas: Seq<Schema>)
    ensures
        column_total(schemas, 0) == 0,
{
    reveal(column_total);
}

pub proof fn lemma_column_total_step(schemas: Seq<Schema>, n: nat)
    ensures
        column_total(schemas, n + 1) == column_total(schemas, n) + schemas[n as int]@.len(),
{
    reveal(column_total);
}

pub proof fn lemma_column_total_monotonic(schemas: Seq<Schema>, i: nat, j: nat)
    requires
        i <= j,
    ensures
        column_total(schemas, i) <= column_total(schemas, j),
    decreases j,
{
    if i < j {
        lemma_column_total_monotonic(schemas, i, (j - 1) as nat);
        lemma_column_total_step(schemas, (j - 1) as nat);
    }
}

/// One fixed-capacity partition of a table.
pub struct TileGroup {
    id: Oid,
    tiles: Vec<Tile>,
    col_map: Vec<(usize, usize)>,
    header: TileGroupHeader,
}

impl View for TileGroup {
    type V = Seq<Seq<ValueModel>>;

    /// The rows: for each slot, the value of each logical column.
    closed spec fn view(&self) -> Seq<Seq<ValueModel>> {
        rows_of(self.tiles@, self.col_map@, self.header.capacity())
    }
}

/// The rows that `tiles` hold under the lookup table `col_map`.
closed spec fn rows_of(tiles: Seq<Tile>, col_map: Seq<(usize, usize)>, capacity: nat) -> Seq<
    Seq<ValueModel>,
> {
    Seq::new(
        capacity,
        |s: int| Seq::new(col_map.len(), |k: int| tiles[col_map[k].0 as int]@[s][col_map[k].1 as int]),
    )
}

/// Whether tiles and lookup table fit each other and the capacity.
closed spec fn layout_fits(tiles: Seq<Tile>, col_map: Seq<(usize, usize)>, capacity: nat) -> bool {
    &&& forall|t: int| 0 <= t < tiles.len() ==> (#[trigger] tiles[t]).wf() && tiles[t].capacity() == capacity
    &&& forall|k: int|
        0 <= k < col_map.len() ==> (#[trigger] col_map[k]).0 < tiles.len() && col_map[k].1
            < tiles[col_map[k].0 as int].columns().len()
    &&& forall|j: int, k: int| 0 <= j < k < col_map.len() ==> #[trigger] col_map[j] != #[trigger] col_map[k]
}

impl TileGroup {
    /// The identifier of the group.
    pub closed spec fn group_id(&self) -> Oid {
        self.id
    }

    /// The header.
    pub closed spec fn header(&self) -> TileGroupHeader {
        self.header
    }

    /// The number of slots.
    pub open spec fn capacity(&self) -> nat {
        self.header().capacity()
    }

    /// The tiles.
    pub closed spec fn tiles(&self) -> Seq<Tile> {
        self.tiles@
    }

    /// The lookup table: for each logical column, the tile that holds it and
    /// its column within that tile.
    pub closed spec fn column_map(&self) -> Seq<(usize, usize)> {
        self.col_map@
    }

    /// The column of a tile that holds logical column `k`.
    pub open spec fn column(&self, k: int) -> Column {
        self.tiles()[self.column_map()[k].0 as int].columns()[self.column_map()[k].1 as int]
    }

    /// The value of logical column `k` of the tuple in slot `s`.
    closed spec fn cell(&self, s: int, k: int) -> ValueModel {
        self.tiles@[self.col_map@[k].0 as int]@[s][self.col_map@[k].1 as int]
    }

    /// Tiles and lookup table fit each other: every tile is well formed and
    /// has as many slots as the header, and the table sends the logical
    /// columns to distinct columns of the tiles.
    pub closed spec fn layout_wf(&self) -> bool {
        layout_fits(self.tiles@, self.col_map@, self.header.capacity())
    }

    /// The group is well formed: its layout is, and so is its header.
    pub open spec fn wf(&self) -> bool {
        &&& self.layout_wf()
        &&& self.header().wf()
    }

    /// The shape of the rows of a well-formed group: one row per slot, one
    /// value per logical column, each of the type of its column.
    pub proof fn lemma_shape(&self)
        requires
            self.wf(),
        ensures
            self@.len() == self.capacity(),
            forall|s: int| 0 <= s < self.capacity() ==> (#[trigger] self@[s]).len() == self.column_map().len(),
            forall|s: int, k: int|
                0 <= s < self.capacity() && 0 <= k < self.column_map().len() ==> (#[trigger] self@[s][k]).value_type()
                    == self.column(k).value_type,
    {
        assert forall|s: int, k: int|
            0 <= s < self.capacity() && 0 <= k < self.column_map().len() implies (#[trigger] self@[s][k]).value_type()
            == self.column(k).value_type by {
            let t = self.col_map@[k].0 as int;
            self.tiles@[t].lemma_shape();
        }
    }

    /// A group of `tuple_count` slots with one tile per schema, every value
    /// zero and no slot handed out. `col_map` says where each logical column
    /// lies. Fails with `InvalidLayout` if `tuple_count` slots cannot be told
    /// apart from `INVALID_OID`, if a tile would be larger than the machine
    /// can address, or if `col_map` is not valid for the schemas.
    #[verifier::loop_isolation(false)]
    pub fn new(
        id: Oid,
        schemas: Vec<Schema>,
        col_map: HashMap<usize, (usize, usize)>,
        tuple_count: usize,
    ) -> (r: Result<TileGroup, StorageError>)
        requires
            forall|t: int| 0 <= t < schemas@.len() ==> (#[trigger] schemas@[t]).wf(),
        ensures
            r is Ok <==> {
                &&& tuple_count < INVALID_OID
                &&& tiles_fit(schemas@, tuple_count as nat)
                &&& column_total(schemas@, schemas@.len()) <= usize::MAX
                &&& valid_column_map(
                    col_map@,
                    column_total(schemas@, schemas@.len()),
                    schema_widths(schemas@),
                )
            },
            r matches Err(e) ==> e == StorageError::InvalidLayout,
            r matches Ok(g) ==> {
                &&& g.wf()
                &&& g.group_id() == id
                &&& g.capacity() == tuple_count
                &&& g.header().allocated() == 0
                &&& forall|s: int| 0 <= s < tuple_count ==> #[trigger] g.header()@[s] == fresh_entry()
                &&& g.tiles().len() == schemas@.len()
                &&& forall|t: int| 0 <= t < schemas@.len() ==> (#[trigger] g.tiles()[t]).columns() == schemas@[t]@
                &&& g.column_map().len() == column_total(schemas@, schemas@.len())
                &&& forall|k: int|
                    0 <= k < g.column_map().len() ==> #[trigger] g.column_map()[k] == col_map@[k as usize]
                &&& forall|s: int, k: int|
                    0 <= s < tuple_count && 0 <= k < g.column_map().len() ==> #[trigger] g@[s][k]
                        == zero_value(g.column(k).value_type)
            },
    {
        let header = match TileGroupHeader::new(tuple_count) {
            Some(h) => h,
            None => {
                return Err(StorageError::InvalidLayout);
            },
        };
        let ntiles: usize = schemas.len();
        let mut tiles: Vec<Tile> = Vec::new();
        let mut total: usize = 0;
        let mut t: usize = 0;
        proof {
            lemma_column_total_start(schemas@);
        }
        while t < ntiles
            invariant
                t <= ntiles == schemas@.len(),
                forall|i: int| 0 <= i < schemas@.len() ==> (#[trigger] schemas@[i]).wf(),
                tiles@.len() == t,
                total == column_total(schemas@, t as nat),
                forall|i: int|
                    0 <= i < t ==> {
                        &&& (#[trigger] tiles@[i]).wf()
                        &&& tiles@[i].capacity() == tuple_count
                        &&& tiles@[i].columns() == schemas@[i]@
                        &&& tuple_count * schemas@[i].tuple_len() <= usize::MAX
                        &&& forall|s: int, c: int|
                            0 <= s < tuple_count && 0 <= c < schemas@[i]@.len() ==> #[trigger] tiles@[i]@[s][c]
                                == zero_value(schemas@[i]@[c].value_type)
                    },
            decreases ntiles - t,
        {
            let tile = match Tile::new(&schemas[t], tuple_count) {
                Ok(tile) => tile,
                Err(_) => {
                    return Err(StorageError::InvalidLayout);
                },
            };
            let width: usize = tile.column_count();
            proof {
                lemma_column_total_step(schemas@, t as nat);
            }
            if total > usize::MAX - width {
                proof {
                    lemma_column_total_monotonic(schemas@, (t + 1) as nat, ntiles as nat);
                }
                return Err(StorageError::InvalidLayout);
            }
            total = total + width;
            tiles.push(tile);
            t = t + 1;
        }
        let mut table: Vec<(usize, usize)> = Vec::new();
        let mut k: usize = 0;
        while k < total
            invariant
                k <= total,
                table@.len() == k,
                tiles@.len() == ntiles == schemas@.len(),
                forall|i: int| 0 <= i < ntiles ==> (#[trigger] tiles@[i]).columns() == schemas@[i]@,
                forall|j: usize|
                    j < k ==> {
                        &&& #[trigger] col_map@.contains_key(j)
                        &&& table@[j as int] == col_map@[j]
                        &&& col_map@[j].0 < ntiles
                        &&& col_map@[j].1 < schemas@[col_map@[j].0 as int]@.len()
                    },
            decreases total - k,
        {
            let entry: (usize, usize) = match col_map.get(&k) {
                Some(e) => *e,
                None => {
                    return Err(StorageError::InvalidLayout);
                },
            };
            assert(col_map@.contains_key(k) && col_map@[k] == entry);
            if entry.0 >= ntiles {
                return Err(StorageError::InvalidLayout);
            }
            if entry.1 >= tiles[entry.0].column_count() {
                assert(tiles@[entry.0 as int].columns() == schemas@[entry.0 as int]@);
                return Err(StorageError::InvalidLayout);
            }
            assert(tiles@[entry.0 as int].columns() == schemas@[entry.0 as int]@);
            let ghost earlier = table@;
            table.push(entry);
            assert forall|j: usize| j < k + 1 implies {
                &&& #[trigger] col_map@.contains_key(j)
                &&& table@[j as int] == col_map@[j]
                &&& col_map@[j].0 < ntiles
                &&& col_map@[j].1 < schemas@[col_map@[j].0 as int]@.len()
            } by {
                if j < k {
                    assert(earlier[j as int] == table@[j as int]);
                }
            }
            k = k + 1;
        }
        let mut b: usize = 0;
        while b < total
            invariant
                b <= total == table@.len(),
                forall|i: int, j: int| 0 <= i < j < b ==> #[trigger] table@[i] != #[trigger] table@[j],
            decreases total - b,
        {
            let mut a: usize = 0;
            while a < b
                invariant
                    a <= b < total == table@.len(),
                    forall|i: int| 0 <= i < a ==> #[trigger] table@[i] != table@[b as int],
                decreases b - a,
            {
                if table[a].0 == table[b].0 && table[a].1 == table[b].1 {
                    proof {
                        assert(col_map@.contains_key(a) && col_map@.contains_key(b));
                        assert(col_map@[a] == col_map@[b]);
                    }
                    return Err(StorageError::InvalidLayout);
                }
                a = a + 1;
            }
            b = b + 1;
        }
        let g = TileGroup { id, tiles, col_map: table, header };
        proof {
            assert forall|k: int| 0 <= k < table@.len() implies (#[trigger] table@[k]).0 < tiles@.len()
                && table@[k].1 < tiles@[table@[k].0 as int].columns().len() by {
                assert(col_map@.contains_key(k as usize));
            }
            assert(g.layout_wf());
            assert forall|k: int| 0 <= k < g.column_map().len() implies #[trigger] g.column_map()[k]
                == col_map@[k as usize] by {
                assert(col_map@.contains_key(k as usize));
            }
            assert(tiles_fit(schemas@, tuple_count as nat)) by {
                assert forall|i: int| 0 <= i < schemas@.len() implies tuple_count * (#[trigger] schemas@[i]).tuple_len()
                    <= usize::MAX by {
                    assert(tiles@[i].wf());
                }
            }
            assert forall|k: usize| k < total implies {
                &&& #[trigger] col_map@.contains_key(k)
                &&& col_map@[k].0 < schema_widths(schemas@).len()
                &&& col_map@[k].1 < schema_widths(schemas@)[col_map@[k].0 as int]
            } by {
                assert(col_map@.contains_key(k));
            }
            assert forall|j: usize, k: usize| j < k < total implies #[trigger] col_map@[j] != #[trigger] col_map@[k] by {
                assert(col_map@.contains_key(j) && col_map@.contains_key(k));
                assert(table@[j as int] != table@[k as int]);
            }
            assert forall|s: int, k: int|
                0 <= s < tuple_count && 0 <= k < g.column_map().len() implies #[trigger] g@[s][k] == zero_value(
                g.column(k).value_type,
            ) by {
                assert(col_map@.contains_key(k as usize));
                assert(g@[s][k] == g.cell(s, k));
            }
        }
        Ok(g)
    }

    /// Whether `tuple` has one value for each logical column, each of the
    /// declared type of its column.
    pub open spec fn accepts(&self, tuple: Seq<ValueModel>) -> bool {
        &&& tuple.len() == self.column_map().len()
        &&& forall|k: int|
            0 <= k < tuple.len() ==> (#[trigger] tuple[k]).value_type() == self.column(k).value_type
    }

    /// Whether `other` has the identifier, the lookup table and the tile
    /// columns of this group.
    pub open spec fn same_layout(&self, other: TileGroup) -> bool {
        &&& self.group_id() == other.group_id()
        &&& self.column_map() == other.column_map()
        &&& self.tiles().len() == other.tiles().len()
        &&& forall|t: int|
            0 <= t < self.tiles().len() ==> (#[trigger] self.tiles()[t]).columns() == other.tiles()[t].columns()
    }

    /// Stores `tuple` in the next free slot and returns the slot. Fails with
    /// `TypeMismatch` if the group does not accept `tuple`, and otherwise
    /// with `SlotExhausted` if every slot is in use; a failed insert changes
    /// nothing. Version metadata is untouched either way.
    pub fn insert_tuple(&mut self, tuple: &Tuple) -> (r: Result<Oid, StorageError>)
        requires
            old(self).wf(),
        ensures
            final(self).wf(),
            final(self).same_layout(*old(self)),
            final(self).header()@ == old(self).header()@,
            r is Ok <==> old(self).accepts(tuple@) && old(self).header().allocated() < old(self).capacity(),
            r matches Ok(slot) ==> {
                &&& slot == slot_at(old(self).header().allocated(), old(self).capacity())
                &&& slot == old(self).header().allocated()
                &&& final(self).header().allocated() == old(self).header().allocated() + 1
                &&& final(self)@ == old(self)@.update(slot as int, tuple@)
            },
            r matches Err(e) ==> {
                &&& final(self)@ == old(self)@
                &&& final(self).header().allocated() == old(self).header().allocated()
                &&& e == if old(self).accepts(tuple@) {
                    StorageError::SlotExhausted
                } else {
                    StorageError::TypeMismatch
                }
            },
    {
        let ncols: usize = self.col_map.len();
        if tuple.len() != ncols {
            return Err(StorageError::TypeMismatch);
        }
        let mut k: usize = 0;
        while k < ncols
            invariant
                k <= ncols == self.col_map@.len() == tuple@.len(),
                self.wf(),
                *self == *old(self),
                forall|j: int| 0 <= j < k ==> (#[trigger] tuple@[j]).value_type() == self.column(j).value_type,
            decreases ncols - k,
        {
            let place: (usize, usize) = self.col_map[k];
            if tuple.get_value(k).value_type() != self.tiles[place.0].column_type(place.1) {
                assert(tuple@[k as int].value_type() != self.column(k as int).value_type);
                return Err(StorageError::TypeMismatch);
            }
            k = k + 1;
        }
        proof {
            self.header.lemma_wf();
        }
        let slot: Oid = self.header.next_empty_tuple_slot();
        let ghost start = *self;
        assert(start@ == old(self)@) by {
            assert forall|s: int| 0 <= s < start.header.capacity() implies #[trigger] start@[s] =~= old(self)@[s] by {
                assert forall|j: int| 0 <= j < ncols implies start@[s][j] == old(self)@[s][j] by {
                    assert(start.cell(s, j) == old(self).cell(s, j));
                }
            }
            assert(start@ =~= old(self)@);
        }
        if slot == INVALID_OID {
            return Err(StorageError::SlotExhausted);
        }
        let mut k: usize = 0;
        while k < ncols
            invariant
                k <= ncols == self.col_map@.len() == tuple@.len(),
                start.wf(),
                (slot as nat) < start.header.capacity(),
                start.accepts(tuple@),
                self.layout_wf(),
                self.header == start.header,
                self.id == start.id,
                self.col_map == start.col_map,
                self.tiles@.len() == start.tiles@.len(),
                forall|t: int|
                    0 <= t < self.tiles@.len() ==> (#[trigger] self.tiles@[t]).columns() == start.tiles@[t].columns(),
                forall|s: int, j: int|
                    0 <= s < start.header.capacity() && 0 <= j < ncols ==> #[trigger] self.cell(s, j) == if s
                        == slot && j < k {
                        tuple@[j]
                    } else {
                        start.cell(s, j)
                    },
            decreases ncols - k,
        {
            let place: (usize, usize) = self.col_map[k];
            let ghost before = *self;
            proof {
                assert(tuple@[k as int].value_type() == start.column(k as int).value_type);
                before.tiles@[place.0 as int].lemma_shape();
            }
            let res = self.tiles[place.0].write_column(slot, place.1, tuple.get_value(k));
            proof {
                assert(res is Ok);
                assert(self.tiles@.len() == before.tiles@.len());
                assert forall|t: int| 0 <= t < self.tiles@.len() && t != place.0 implies #[trigger] self.tiles@[t]
                    == before.tiles@[t] by {}
                assert forall|s: int, j: int|
                    0 <= s < start.header.capacity() && 0 <= j < ncols implies #[trigger] self.cell(s, j) == if s
                    == slot && j < k + 1 {
                    tuple@[j]
                } else {
                    start.cell(s, j)
                } by {
                    let pj = self.col_map@[j];
                    assert(before.cell(s, j) == before.tiles@[pj.0 as int]@[s][pj.1 as int]);
                    if pj.0 == place.0 {
                        before.tiles@[place.0 as int].lemma_shape();
                        lemma_write_then_read(
                            before.tiles@[place.0 as int]@,
                            slot as int,
                            place.1 as int,
                            tuple@[k as int],
                            s,
                            pj.1 as int,
                        );
                        if j != k {
                            assert(self.col_map@[j] != self.col_map@[k as int]);
                        }
                    }
                }
            }
            k = k + 1;
        }
        proof {
            let expected = old(self)@.update(slot as int, tuple@);
            assert forall|s: int| 0 <= s < self.header.capacity() implies #[trigger] self@[s] =~= expected[s] by {
                assert forall|j: int| 0 <= j < ncols implies self@[s][j] == expected[s][j] by {
                    assert(self@[s][j] == self.cell(s, j));
                    assert(start@[s][j] == start.cell(s, j));
                }
            }
            assert(self@ =~= expected);
        }
        Ok(slot)
    }

    /// The value of logical column `col` of the tuple in `slot`. Fails with
    /// `NoSuchSlot` if the group has no such slot, and otherwise with
    /// `NoSuchColumn` if it has no such column.
    pub fn read_column(&self, slot: Oid, col: Oid) -> (r: Result<Value, StorageError>)
        requires
            self.wf(),
        ensures
            r is Ok <==> (slot as nat) < self.capacity() && (col as nat) < self.column_map().len(),
            r matches Ok(v) ==> v@ == self@[slot as int][col as int],
            r matches Err(e) ==> e == if (slot as nat) < self.capacity() {
                StorageError::NoSuchColumn
            } else {
                StorageError::NoSuchSlot
            },
    {
        if slot as usize >= self.header.get_capacity() {
            return Err(StorageError::NoSuchSlot);
        }
        if col as usize >= self.col_map.len() {
            return Err(StorageError::NoSuchColumn);
        }
        let place: (usize, usize) = self.col_map[col as usize];
        assert(self@[slot as int][col as int] == self.cell(slot as int, col as int));
        self.tiles[place.0].read_column(slot, place.1)
    }

    /// The header, for reading version metadata.
    pub fn get_header(&self) -> (h: &TileGroupHeader)
        ensures
            *h == self.header(),
    {
        &self.header
    }

    /// The identifier of the group.
    pub fn get_tile_group_id(&self) -> (id: Oid)
        ensures
            id == self.group_id(),
    {
        self.id
    }

    /// The number of slots handed out so far.
    pub fn get_allocated_tuple_count(&self) -> (n: usize)
        requires
            self.wf(),
        ensures
            n == self.header().allocated(),
    {
        self.header.get_allocated_tuple_count()
    }

    /// The number of logical columns.
    pub fn column_count(&self) -> (n: usize)
        ensures
            n == self.column_map().len(),
    {
        self.col_map.len()
    }

    /// The header, for writing version metadata. The tiles stay as they are;
    /// the group stays well formed as long as the header does and keeps its
    /// capacity.
    pub fn get_header_mut(&mut self) -> (h: &mut TileGroupHeader)
        requires
            old(self).wf(),
        ensures
            *h == old(self).header(),
            final(self).header() == *final(h),
            final(self).same_layout(*old(self)),
            final(h).wf() && final(h).capacity() == h.capacity() ==> final(self).wf() && final(self)@ == old(
                self,
            )@,
    {
        &mut self.header
    }
}

} // verus!
