//! Per-slot version metadata of a tile group, and the slot allocator.

use vstd::prelude::*;
use crate::types::{CID, INVALID_OID, INVALID_TXN_ID, ItemPointer, MAX_CID, Oid, TxID, null_item_pointer};

verus! {

/// Version metadata of one tuple slot.
#[derive(Clone, Copy, Debug, PartialEq, Eq, Structural)]
pub struct HeaderEntry {
    /// The transaction that claimed the slot, or `INVALID_TXN_ID`.
    pub owner: TxID,
    /// First timestamp at which the version is visible.
    pub begin_ts: CID,
    /// First timestamp at which the version is no longer visible.
    pub end_ts: CID,
    /// The previous version of the same logical row.
    pub prev: ItemPointer,
}

/// The entry of a slot that nobody has written yet: unowned, visible to no
/// snapshot, with no previous version.
pub open spec fn fresh_entry() -> HeaderEntry {
    HeaderEntry {
        owner: INVALID_TXN_ID,
        begin_ts: MAX_CID,
        end_ts: MAX_CID,
        prev: null_item_pointer(),
    }
}

/// The slot that an allocation hands out when `cursor` slots of `capacity`
/// are in use: the cursor itself, or `INVALID_OID` once the group is full.
pub open spec fn slot_at(cursor: nat, capacity: nat) -> Oid {
    if cursor < capacity {
        cursor as Oid
    } else {
        INVALID_OID
    }
}

/// The cursor after one allocation: it advances until it reaches the capacity.
pub open spec fn cursor_step(cursor: nat, capacity: nat) -> nat {
    if cursor < capacity {
        cursor + 1
    } else {
        cursor
    }
}

/// The cursor of a header of `capacity` slots after `n` allocations.
pub open spec fn cursor_after(capacity: nat, n: nat) -> nat
    decreases n,
{
    if n == 0 {
        0
    } else {
        cursor_step(cursor_after(capacity, (n - 1) as nat), capacity)
    }
}

/// Whether a version is visible to a reader with snapshot timestamp `ts`:
/// the snapshot lies in `[begin_ts, end_ts)`, and the owner either has
/// committed or is the reader.
pub open spec fn entry_visible(e: HeaderEntry, ts: CID, reader: TxID, owner_committed: bool) -> bool {
    e.begin_ts <= ts && ts < e.end_ts && (owner_committed || e.owner == reader)
}

/// After `n` allocations on a fresh header the cursor is `min(n, capacity)`.
pub proof fn lemma_cursor_after(capacity: nat, n: nat)
    ensures
        cursor_after(capacity, n) == if n <= capacity { n } else { capacity },
    decreases n,
{
    if n > 0 {
        lemma_cursor_after(capacity, (n - 1) as nat);
    }
}

/// Allocation order: on a fresh header of `capacity` slots (fewer than
/// `INVALID_OID`), the allocation that follows `n` earlier ones returns slot
/// `n` while `n < capacity`, and `INVALID_OID` from then on. The slots handed
/// out by the first `n <= capacity` allocations are therefore `0, .., n - 1`,
/// each once.
pub proof fn lemma_allocation_sequence(capacity: nat, n: nat)
    requires
        capacity < INVALID_OID,
    ensures
        n < capacity ==> slot_at(cursor_after(capacity, n), capacity) == n,
        n >= capacity ==> slot_at(cursor_after(capacity, n), capacity) == INVALID_OID,
        forall|m: nat|
            m < n && n < capacity ==> slot_at(cursor_after(capacity, m), capacity) != slot_at(
                cursor_after(capacity, n),
                capacity,
            ),
{
    lemma_cursor_after(capacity, n);
    assert forall|m: nat| m < n && n < capacity implies slot_at(cursor_after(capacity, m), capacity)
        != slot_at(cursor_after(capacity, n), capacity) by {
        lemma_cursor_after(capacity, m);
    }
}

/// Version metadata for every slot of a tile group, with the cursor that
/// hands the slots out in order.
pub struct TileGroupHeader {
    next_tuple_slot: u32,
    entries: Vec<HeaderEntry>,
}

impl View for TileGroupHeader {
    type V = Seq<HeaderEntry>;

    /// The entries, one per slot.
    closed spec fn view(&self) -> Seq<HeaderEntry> {
        self.entries@
    }
}

impl TileGroupHeader {
    /// The number of slots handed out so far.
    pub closed spec fn allocated(&self) -> nat {
        self.next_tuple_slot as nat
    }

    /// The number of slots.
    pub open spec fn capacity(&self) -> nat {
        self@.len()
    }

    /// The cursor never passes the capacity, and the capacity leaves room for
    /// `INVALID_OID`.
    pub closed spec fn wf(&self) -> bool {
        &&& self.next_tuple_slot as nat <= self.entries@.len()
        &&& self.entries@.len() < INVALID_OID
    }

    /// What `wf` says, in terms of the public model.
    pub proof fn lemma_wf(&self)
        requires
            self.wf(),
        ensures
            self.allocated() <= self.capacity(),
            self.capacity() < INVALID_OID,
    {
    }

    /// A header of `tuple_count` fresh slots, none handed out; `None` when
    /// `tuple_count` slots cannot be told apart from `INVALID_OID`.
    pub fn new(tuple_count: usize) -> (r: Option<Self>)
        ensures
            r is Some <==> tuple_count < INVALID_OID,
            r matches Some(h) ==> {
                &&& h.wf()
                &&& h.allocated() == 0
                &&& h.capacity() == tuple_count
                &&& forall|i: int| 0 <= i < tuple_count ==> h@[i] == fresh_entry()
            },
    {
        if tuple_count >= 0xFFFF_FFFF {
            return None;
        }
        let mut entries: Vec<HeaderEntry> = Vec::new();
        let mut i: usize = 0;
        while i < tuple_count
            invariant
                i <= tuple_count,
                entries@.len() == i,
                forall|k: int| 0 <= k < i ==> entries@[k] == fresh_entry(),
            decreases tuple_count - i,
        {
            entries.push(
                HeaderEntry {
                    owner: INVALID_TXN_ID,
                    begin_ts: MAX_CID,
                    end_ts: MAX_CID,
                    prev: ItemPointer { block: INVALID_OID, offset: INVALID_OID },
                },
            );
            i = i + 1;
        }
        Some(TileGroupHeader { next_tuple_slot: 0, entries })
    }

    /// Hands out the next free slot, or `INVALID_OID` when every slot is in
    /// use. Entries are untouched.
    pub fn next_empty_tuple_slot(&mut self) -> (slot: Oid)
        requires
            old(self).wf(),
        ensures
            final(self).wf(),
            slot == slot_at(old(self).allocated(), old(self).capacity()),
            final(self).allocated() == cursor_step(old(self).allocated(), old(self).capacity()),
            final(self)@ == old(self)@,
    {
        if (self.next_tuple_slot as usize) < self.entries.len() {
            let slot: Oid = self.next_tuple_slot;
            self.next_tuple_slot = slot + 1;
            slot
        } else {
            INVALID_OID
        }
    }

    /// Claims `tuple_id` for `txid` if no transaction owns it: the owner
    /// changes from `INVALID_TXN_ID` to `txid` and the call returns `true`.
    /// A slot that already has an owner is left as it is, and the call
    /// returns `false`.
    pub fn install_owning_tx(&mut self, tuple_id: Oid, txid: TxID) -> (claimed: bool)
        requires
            old(self).wf(),
            (tuple_id as nat) < old(self).capacity(),
        ensures
            final(self).wf(),
            final(self).allocated() == old(self).allocated(),
            claimed <==> old(self)@[tuple_id as int].owner == INVALID_TXN_ID,
            claimed ==> final(self)@ == old(self)@.update(
                tuple_id as int,
                (HeaderEntry { owner: txid, ..old(self)@[tuple_id as int] }),
            ),
            !claimed ==> final(self)@ == old(self)@,
    {
        let entry: HeaderEntry = self.entries[tuple_id as usize];
        if entry.owner == INVALID_TXN_ID {
            self.entries.set(
                tuple_id as usize,
                HeaderEntry {
                    owner: txid,
                    begin_ts: entry.begin_ts,
                    end_ts: entry.end_ts,
                    prev: entry.prev,
                },
            );
            true
        } else {
            false
        }
    }

    /// Publishes a new version in `slot`: claims the slot for `txn_id` as
    /// `install_owning_tx` does and, if that succeeds, stamps `begin_ts` and
    /// leaves the end timestamp at `MAX_CID`. Returns `false`, changing
    /// nothing, when another writer owns the slot.
    pub fn install_version(&mut self, slot: Oid, txn_id: TxID, begin_ts: CID) -> (installed: bool)
        requires
            old(self).wf(),
            (slot as nat) < old(self).capacity(),
        ensures
            final(self).wf(),
            final(self).allocated() == old(self).allocated(),
            installed <==> old(self)@[slot as int].owner == INVALID_TXN_ID,
            installed ==> final(self)@ == old(self)@.update(
                slot as int,
                (HeaderEntry {
                    owner: txn_id,
                    begin_ts: begin_ts,
                    end_ts: MAX_CID,
                    prev: old(self)@[slot as int].prev,
                }),
            ),
            !installed ==> final(self)@ == old(self)@,
    {
        if self.install_owning_tx(slot, txn_id) {
            let entry: HeaderEntry = self.entries[slot as usize];
            self.entries.set(
                slot as usize,
                HeaderEntry { owner: entry.owner, begin_ts, end_ts: MAX_CID, prev: entry.prev },
            );
            true
        } else {
            false
        }
    }

    /// Sets the end timestamp of `slot`, which marks the version as
    /// superseded from `ts` on.
    pub fn set_end_ts(&mut self, slot: Oid, ts: CID)
        requires
            old(self).wf(),
            (slot as nat) < old(self).capacity(),
        ensures
            final(self).wf(),
            final(self).allocated() == old(self).allocated(),
            final(self)@ == old(self)@.update(
                slot as int,
                (HeaderEntry { end_ts: ts, ..old(self)@[slot as int] }),
            ),
    {
        let entry: HeaderEntry = self.entries[slot as usize];
        self.entries.set(
            slot as usize,
            HeaderEntry { owner: entry.owner, begin_ts: entry.begin_ts, end_ts: ts, prev: entry.prev },
        );
    }

    /// Links `slot` to the previous version of the same logical row.
    pub fn chain_previous(&mut self, slot: Oid, prev: ItemPointer)
        requires
            old(self).wf(),
            (slot as nat) < old(self).capacity(),
        ensures
            final(self).wf(),
            final(self).allocated() == old(self).allocated(),
            final(self)@ == old(self)@.update(
                slot as int,
                (HeaderEntry { prev: prev, ..old(self)@[slot as int] }),
            ),
    {
        let entry: HeaderEntry = self.entries[slot as usize];
        self.entries.set(
            slot as usize,
            HeaderEntry { owner: entry.owner, begin_ts: entry.begin_ts, end_ts: entry.end_ts, prev },
        );
    }

    /// Whether the version in `slot` is visible to `reader` at snapshot
    /// timestamp `ts`. `owner_committed` says whether the slot's owner has
    /// committed.
    pub fn is_visible(&self, slot: Oid, ts: CID, reader: TxID, owner_committed: bool) -> (v: bool)
        requires
            self.wf(),
            (slot as nat) < self.capacity(),
        ensures
            v == entry_visible(self@[slot as int], ts, reader, owner_committed),
    {
        let entry: HeaderEntry = self.entries[slot as usize];
        entry.begin_ts <= ts && ts < entry.end_ts && (owner_committed || entry.owner == reader)
    }

    /// The begin timestamp of the version in slot `tuple_id`.
    pub fn get_tuple_begin_ts(&self, tuple_id: Oid) -> (ts: CID)
        requires
            self.wf(),
            (tuple_id as nat) < self.capacity(),
        ensures
            ts == self@[tuple_id as int].begin_ts,
    {
        self.entries[tuple_id as usize].begin_ts
    }

    /// The end timestamp of the version in slot `tuple_id`.
    pub fn get_tuple_end_ts(&self, tuple_id: Oid) -> (ts: CID)
        requires
            self.wf(),
            (tuple_id as nat) < self.capacity(),
        ensures
            ts == self@[tuple_id as int].end_ts,
    {
        self.entries[tuple_id as usize].end_ts
    }

    /// The transaction that owns slot `tuple_id`, or `INVALID_TXN_ID`.
    pub fn get_owning_tx(&self, tuple_id: Oid) -> (owner: TxID)
        requires
            self.wf(),
            (tuple_id as nat) < self.capacity(),
        ensures
            owner == self@[tuple_id as int].owner,
    {
        self.entries[tuple_id as usize].owner
    }

    /// The previous version that slot `tuple_id` is chained to.
    pub fn get_previous(&self, tuple_id: Oid) -> (prev: ItemPointer)
        requires
            self.wf(),
            (tuple_id as nat) < self.capacity(),
        ensures
            prev == self@[tuple_id as int].prev,
    {
        self.entries[tuple_id as usize].prev
    }

    /// The number of slots.
    pub fn get_capacity(&self) -> (n: usize)
        requires
            self.wf(),
        ensures
            n == self.capacity(),
    {
        self.entries.len()
    }

    /// The number of slots handed out so far.
    pub fn get_allocated_tuple_count(&self) -> (n: usize)
        requires
            self.wf(),
        ensures
            n == self.allocated(),
    {
        self.next_tuple_slot as usize
    }
}

} // verus!
