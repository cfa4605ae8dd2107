//! A transactional key-value storage abstraction with secondary indexes that
//! every write keeps up to date.
//!
//! An application declares types of objects, each kept as bytes in a column
//! family of its own, and indexes on them. A write to an object goes
//! through the indexes of its type within the same transaction, so that at
//! every commit each index is the image of the column family that it
//! indexes.
//!
//! The storage engine is reached through the traits of `backend`; `memdb`
//! is an engine that keeps everything in memory. The contracts are stated
//! over the model of `store`: a column family is a map from keys to values,
//! in the lexicographic order of the keys.

pub mod backend;
pub mod btree;
pub mod builder;
pub mod bytes;
pub mod column_family;
pub mod datum;
pub mod db;
pub mod end_index;
pub mod errors;
pub mod handles;
pub mod index;
pub mod indexer;
pub mod memdb;
pub mod mode;
pub mod names;
pub mod range;
pub mod rocks;
pub mod store;

pub use backend::Backend;
pub use btree::fixed_len::FixedLenKey;
pub use btree::index::BTreeIndex;
pub use btree::key::Key;
pub use btree::query::BTreeQuery;
pub use builder::{BackendBuilder, Builder};
pub use datum::{Datum, IndexedDatum};
pub use db::{Db, Transaction};
pub use end_index::EndIndex;
pub use errors::{BuilderError, CfOperationError, Error};
pub use index::Index;
pub use indexer::Indexer;
pub use memdb::MemDb;
pub use mode::Mode;
