//! The interface of the executors that consume the storage core.

use vstd::prelude::*;
use crate::logical_tile::LogicalTile;

verus! {

/// A query operator: it runs, and hands out what it produced as a logical
/// tile.
pub trait Executor {
    /// Runs the operator.
    fn execute(&self);

    /// What the operator produced.
    fn get_output(&self) -> LogicalTile;
}

} // verus!
