//! An in-memory key-value store whose keys each own one typed item: a counter,
//! a byte blob, a list of blobs, a set of blobs, or a vector of blobs sorted by
//! a 32-bit ordinal. Every operation carries a contract over a mathematical
//! model of the store, and the contracts are proved.

pub mod blob;
pub mod error;
pub mod kv;
pub mod laws;
pub mod model;
pub mod sorted;
