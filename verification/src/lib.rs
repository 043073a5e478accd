//! An embedded, single-process key/value store over byte-string keys and
//! values, organised as a log-structured merge tree: recent writes accumulate
//! in an in-memory table; frozen tables are written out as immutable sorted
//! files (SSTables); reads consult the memory tier first and then walk the
//! on-disk tables newest to oldest. Deletions are logical, encoded as a
//! reserved sentinel value (the tombstone).
//!
//! The engine itself is pure logic over byte vectors: an SSTable carries its
//! file's bytes, and the set of files of a store directory moves in and out of
//! the engine as plain `(name, content)` pairs. The surrounding process reads
//! the directory into those pairs when it opens a store and writes them back
//! when it closes one.

pub mod codec;
pub mod errors;
pub mod keys;
pub mod laws;
pub mod lsm;
pub mod memtable;
pub mod sstable;
pub mod store;

pub use errors::StoreError;
pub use lsm::LSMTree;
pub use memtable::HashMapMemTable;
pub use memtable::MemTable;
pub use memtable::VecMemTable;
pub use sstable::SSTable;
pub use store::KVStore;
