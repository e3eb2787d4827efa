//! Consensus core of a federated mint: a transactional key-value store,
//! the consensus codec, the module plug-in contract, the transaction
//! pipeline and the epoch processor.
pub mod bytes;
pub mod kv;
pub mod db;
pub mod codec;
pub mod hex;
pub mod module_types;
pub mod transaction;
pub mod epoch;
pub mod consensus;
pub mod client;
pub mod records;
pub mod setup;
pub mod tweak;
pub mod text;

