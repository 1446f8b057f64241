//! A small log-structured merge-tree storage engine: sorted blocks, Bloom
//! filters, sorted-string tables with checksummed footers, a write-ahead log
//! record format, memtables and the storage state that ties them together.
pub mod codec;
pub mod error;
pub mod keys;
pub mod block;
pub mod bloom;
pub mod wal;
pub mod sstable;
pub mod memtable;
pub mod lsm_storage;
