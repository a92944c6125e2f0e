//! A trie that maps paths (sequences of keys) to values.
//!
//! Each node owns a hash map from one key segment to a child node, and an
//! optional value for the path that ends exactly at that node.

pub mod laws;
mod trie;

pub use trie::{entries_map, entries_view, Trie};
