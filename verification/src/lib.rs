//! A minimal persistent key-value store.
//!
//! A [`store::Store`] owns an in-memory mapping from string keys to string
//! values together with the path of the snapshot file it is bound to. Reads
//! and writes go against the in-memory mapping; an explicit sync renders the
//! whole mapping as a snapshot, which the caller writes to the path. Opening
//! a store decodes such a snapshot back into a mapping, treating a missing
//! file as an empty store and surfacing every other failure.
//!
//! The snapshot format itself lives in [`codec`]: encoding is deterministic
//! in the entry order, and decoding an encoded snapshot is proved to give
//! back exactly the entries that were encoded.

pub mod codec;
pub mod store;
