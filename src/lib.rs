//! Offline upgrade of a column-oriented key-value store to schema version 10:
//! a bounded column-copy pipeline and the rebuild of the account bloom filter
//! from the canonical state trie.

pub mod transaction;
pub mod batch;
pub mod bloom;
pub mod columns;
pub mod rebuild;
pub mod migration;
