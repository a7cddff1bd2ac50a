//! An append-only key/value log: a file of checksummed records and an
//! in-memory index from each key to the offset of its latest record.

pub mod codec;
pub mod store;
pub mod lemmas;

pub use codec::{process_record, encode, KeyValuePair, RecordError};
pub use store::{KVStore, LoadError};
