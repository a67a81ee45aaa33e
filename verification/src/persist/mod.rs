//! Persistence: the write-ahead log, key custody, manifests, snapshots and the
//! view cache, as far as they compute; files are read and written elsewhere.

pub mod wal;
pub mod kms;
pub mod manifest;
pub mod snapshot;
pub mod store;
pub mod viewcache;
