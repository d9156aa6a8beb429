//! A chunked index table for hash-join probing over row-encoded keys.
//!
//! The table is built once, chunk by chunk, from hashed byte-string keys and
//! is then probed many times. Every distinct key owns a bucket of packed
//! [`chunk_id::ChunkId`]s that locate the inner rows carrying that key; the
//! top bit of a bucket's first cell records whether the key was ever matched.

pub mod chunk_id;
pub mod hash_keys;
pub mod idx_map;
pub mod idx_vec;
pub mod laws;
pub mod lemmas;
pub mod model;
pub mod table;
