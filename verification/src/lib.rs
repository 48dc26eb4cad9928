//! A sharded, resizable hash table mapping 64-bit keys to 64-bit values.
//!
//! The table is split into independently resizable shards. A fixed avalanche
//! hash routes each key to one shard; within a shard, entries live in an
//! open-addressed slot array with linear probing and tombstones. Every
//! operation touches exactly one shard, which bounds the work (and, in a
//! concurrent deployment, the contention domain) of each call.
//!
//! The public type is [`table::ConcurrentMap`] with `new`, `insert`, `find`
//! and `erase`. Absence is reported as `None`, never as a sentinel value, so
//! the whole 64-bit value range — `u64::MAX` included — is usable as data.

pub mod hashing;
pub mod laws;
pub mod shard;
pub mod slots;
pub mod table;
