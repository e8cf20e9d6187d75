//! Capability-secured access to a partitioned key-value store.
//!
//! Code that runs inside a host reads, writes and merges values in a store
//! that the host owns. It names a slot of the global partition by a
//! capability, an address together with the rights that its holder may
//! exercise, and a place in the local partition of its own context by any
//! key it can encode. The host decides what is permitted; this crate is the
//! layer between the two: it encodes what goes to the host, keeps to the
//! order of calls that the host expects, and decodes what comes back.
//!
//! - `bytesrepr`, `uref`, `key`, `named_keys` and `value` hold the data and
//!   its byte encoding, with the proof that every encoding decodes to what
//!   was encoded.
//! - `turef` holds capabilities that remember the kind of value behind them.
//! - `host` states what a host is: a model of its state and the contract of
//!   each call.
//! - `storage` holds the accessors, each with a contract over that model.
//! - `laws` proves what holds of the accessors together: what is written is
//!   read back, the partitions do not see each other, rights are enforced
//!   and never grow, addresses that the host hands out are new.
//! - `memory_host` with `byte_map` is a host that keeps the store in memory,
//!   proved to keep the contract.

pub mod byte_map;
pub mod bytesrepr;
pub mod host;
pub mod key;
pub mod laws;
pub mod memory_host;
pub mod named_keys;
pub mod storage;
pub mod turef;
pub mod uref;
pub mod value;
