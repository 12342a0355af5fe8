//! # keystory
//!
//! A crash-resilient key/value store engine.
//!
//! Nothing here touches a file, a socket, a clock or a thread. A function that needs the disk takes
//! a directory as a value ([`dir::DirImage`]) and returns the steps to perform on it
//! ([`dir::FileAction`]); what a crash between, or in the middle of, those steps leaves behind is
//! part of the model, so durability is a theorem about the code.
//!
//! | Module | Role |
//! |--------|------|
//! | [`engine`] | [`Store`]: group commit, atomic batches, snapshot reads, checkpoints. |
//! | [`wal`], [`wal_record`] | The segmented, CRC-guarded write-ahead log: torn-tail repair at open, batch records, segment boundaries for checkpoints. |
//! | [`snapshot`] | The checkpoint file: replaced atomically, the previous generation is kept. |
//! | [`recovery`] | The latest usable checkpoint and the log after it, and what survives a crash. |
//! | [`rcu`] | The snapshot cell that readers load. |
//! | [`types`] | Operations, entries and snapshots: the deterministic, index-ordered state model. |
//! | [`checker`] | An offline consistency check of recorded reads and writes. |
//! | [`consistency`] | What readers of published snapshots observe, by that check. |
//! | [`raft`] | A Raft state machine and a synchronous cluster of them. |
//! | [`btree_store`], [`btree_page`] | An ordered B+ tree with a CRC-guarded document format. |
//! | [`valuestore`] | A blob log for large values, with ids stable across compaction. |
//! | [`epoch_rcu`] | Epoch-based reclamation. |
//! | [`rt`] | The core of a cooperative scheduler: slot reuse, stale wake-ups. |
//! | [`asyncio`] | The decisions of a reactor: tokens, deadlines, retries. |
//! | [`crash_runner`] | The decisions of the crash runner. |
//!
//! The rest is what these are built on: [`bytes`], [`codec`], [`crc`] and [`decimal`] for the
//! formats, [`assoc`], [`ordmap`] and [`tree`] for ordered maps, and [`dir`] for directories.
//!
//! Only the logical commit index orders events. Nothing depends on wall-clock time, which is what
//! makes recovery deterministic.

pub mod assoc;
pub mod asyncio;
pub mod btree_page;
pub mod btree_store;
pub mod bytes;
pub mod checker;
pub mod codec;
pub mod consistency;
pub mod crash_runner;
pub mod crc;
pub mod decimal;
pub mod dir;
pub mod engine;
pub mod epoch_rcu;
pub mod ordmap;
pub mod raft;
pub mod rcu;
pub mod recovery;
pub mod rt;
pub mod snapshot;
pub mod tree;
pub mod types;
pub mod valuestore;
pub mod wal;
pub mod wal_record;

pub use engine::{Stats, Store};
pub use types::{Entry, Op, Shared, Snapshot};
