//! A key-value store built from a hash index over an append-only log.
//!
//! The index maps the bucket and tag of a key's hash to the address of the
//! newest record of that chain; records link backward to older records of
//! the same chain, so a lookup walks the chain from its head and stops at
//! the first record of its key. Values are never overwritten in place: an
//! upsert appends a record and makes it the new head.
pub mod address;
pub mod bytes;
pub mod hash;
pub mod index;
pub mod log;
pub mod plain_record;
pub mod record;
pub mod slot_index;
pub mod store;
