//! An embedded, append-only secondary index that maps hashed keys to 64-bit
//! offsets in an external primary storage.
//!
//! Keys are hashed byte strings of at least 4 bytes. The index keeps, per
//! bucket, a sorted record list of `(key prefix, file offset)` pairs inside an
//! append-only log, and trims each stored prefix to the shortest length that
//! still distinguishes it from its neighbors. The in-memory bucket table is
//! rebuilt by replaying the log.

pub mod buckets;
pub mod carblock;
pub mod db;
pub mod error;
pub mod index;
pub mod inmemory;
pub mod primary;
pub mod recordlist;
