//! A fixed-capacity key/value store built on equal-size slots, with
//! open-addressing collision resolution, chained overflow storage for values
//! too large to fit in one slot, and load-factor-driven growth.
//!
//! The pieces, leaf first: [`hasher`] digests keys; [`codec`] fixes the
//! record format and converts slots to and from bytes; [`store`] is the
//! array of slots read and written by index; [`hash_bucket`] is the chained
//! table itself — placement by linear probing, overflow chains, tombstone
//! deletion, growth by rebuild, and whole-table byte images. Beside it,
//! [`probe`] is a single-slot placement engine shared by two simpler
//! in-memory fronts: the string-keyed [`hash`] table of fixed-width records
//! and the generic [`table`]. The store's laws live in [`laws`].
//!
//! Every table stands for a map from keys to values, and every operation's
//! contract says exactly how it reads or changes that map.

pub mod codec;
pub mod err;
pub mod hash;
pub mod hash_bucket;
pub mod hasher;
pub mod laws;
pub mod probe;
pub mod store;
pub mod table;
