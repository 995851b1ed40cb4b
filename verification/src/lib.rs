//! Two from-scratch associative containers with `String` keys and values,
//! each verified against a mathematical map view:
//!
//! - [`chaining_hash_map`]: an array of optional buckets, each bucket an
//!   ordered sequence of entries.
//! - [`open_addressing_hash_map`]: a flat array of optional entries, with
//!   collisions resolved by linear probing.
//!
//! Both reduce a bytewise digest of the key modulo the current capacity to
//! pick a slot (see [`hashing`]), double their capacity when the entry count
//! reaches it, and rehash every stored entry on growth so that no entry is
//! ever lost. Inserting an existing key overwrites its value in place and
//! leaves the length unchanged. [`laws`] states the algebraic facts that tie
//! the operations together.

pub mod chaining_hash_map;
pub mod hashing;
pub mod laws;
pub mod open_addressing_hash_map;
