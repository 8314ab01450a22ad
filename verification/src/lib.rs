//! Snapshot-based mutation and commit engine for a columnar table store.
//!
//! A table is described by an immutable snapshot: an ordered list of
//! segments, each an immutable list of blocks.  A mutation (merge, update,
//! delete, compaction) never edits a block in place; it is folded into a
//! mutation log, built into a candidate snapshot, and made visible
//! atomically by a compare-and-swap on the table's current-snapshot
//! pointer, retrying against fresh snapshots on conflict.

pub mod datum;
pub mod errors;
pub mod stats;
pub mod block;
pub mod snapshot;
pub mod matcher;
pub mod aggregator;
pub mod accumulator;
pub mod append;
pub mod broadcast;
pub mod commit;
pub mod rules;
pub mod read_settings;
pub mod variable;
pub mod cluster;
pub mod export;
