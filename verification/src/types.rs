//! Identifiers, timestamps and the error kinds shared by the storage modules.

use vstd::prelude::*;

verus! {

/// Index of a tuple slot, a tile, a column or a tile group.
pub type Oid = u32;

/// Commit sequence number: the timestamp of a version.
pub type CID = u64;

/// Transaction identifier. Larger identifiers belong to newer transactions.
pub type TxID = u32;

/// The slot id that stands for "no slot": a full tile group hands it out.
pub const INVALID_OID: Oid = 0xFFFF_FFFF;

/// The end timestamp of a version that nothing has superseded yet.
pub const MAX_CID: CID = 0xFFFF_FFFF_FFFF_FFFF;

/// The owner of a slot that no transaction has claimed.
pub const INVALID_TXN_ID: TxID = 0;

/// Address of a tuple version: a tile group and a slot in it.
#[derive(Clone, Copy, Debug, PartialEq, Eq, Structural)]
pub struct ItemPointer {
    pub block: Oid,
    pub offset: Oid,
}

/// The address that points at no version.
pub open spec fn null_item_pointer() -> ItemPointer {
    ItemPointer { block: INVALID_OID, offset: INVALID_OID }
}

/// What a storage operation can fail with.
#[derive(Clone, Copy, Debug, PartialEq, Eq, Structural)]
pub enum StorageError {
    /// The tile group has handed out all of its slots.
    SlotExhausted,
    /// A value's type differs from the declared type of its column.
    TypeMismatch,
    /// A column's inline flag contradicts its value type.
    InvalidColumn,
    /// A layout does not fit the machine, or a column map does not fit the schemas.
    InvalidLayout,
    /// The slot lies outside the tile group.
    NoSuchSlot,
    /// The column lies outside the schema.
    NoSuchColumn,
}

} // verus!
