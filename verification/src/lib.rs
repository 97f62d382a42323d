//! An embedded, single-writer key/value store with atomic transactions.
//!
//! The store keeps two byte logs: a data log of committed records and a
//! write-ahead log that makes a multi-key transaction atomic across a crash.
//! Everything here works on byte images of those logs, so that every rule of
//! the format, of recovery and of the commit protocol is proved.

pub mod codec;
pub mod ops;
pub mod index;
pub mod datalog;
pub mod wal;
pub mod db;
pub mod recovery;
pub mod simple_kv;

pub use db::{Db, OpenError, Transaction};
pub use ops::Op;
pub use simple_kv::KvStore;
pub use wal::Corruption;
