//! Sorted-table encoding, indexing and iteration for a log-structured
//! storage engine: block codec, bloom filter, table builder, read view and
//! table cursor, with their contracts.

pub mod codec;
pub mod key;
pub mod bloom;
pub mod block;
pub mod table;
pub mod builder;
pub mod iterator;
pub mod sorted;
