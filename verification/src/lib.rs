//! Transactional storage core: a tile-organised tuple store whose slots carry
//! multi-version metadata, and a two-phase-locking lock manager with
//! deadlock detection over a waits-for graph.
//!
//! Every function here is sequential and verified. Callers that share a
//! value between threads serialise access to it themselves.

pub mod types;
pub mod header;
pub mod value;
pub mod schema;
pub mod tile;
pub mod tile_group;
pub mod logical_tile;
pub mod exe;
pub mod txn;
pub mod lock_queue;
pub mod wait_graph;
pub mod lock_mgr;
pub mod tx_mgr;
