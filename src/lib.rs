//! Live, snapshotless, incremental block-device backup: the verified core.
//!
//! Writes seen by the kernel's block trace mark chunks dirty in a
//! hierarchical bitmap; the copier sweeps those maps until a pass under the
//! consistency locks finds nothing left to copy. Backups are stored raw or
//! in a sparse, indexed format, with a per-chunk checksum ledger that lets
//! incremental backups skip unchanged chunks.
use vstd::prelude::*;

pub mod lattice;
pub mod alias_tree;
pub mod chunk_tracker;
pub mod chunk;
pub mod device;
pub mod trace;
pub mod codec;
pub mod digests;
pub mod checksums;
pub mod storage;
pub mod shared_index;
pub mod sparse;
pub mod backup;
pub mod writer;
pub mod copier;
pub mod locker;
pub mod state;
pub mod control;

verus! {

} // verus!
