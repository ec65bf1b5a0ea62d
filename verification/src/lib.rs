//! A trie keyed by text made of segments, with a fold that builds one
//! aggregate for every node out of the aggregates of the nodes below it.
//!
//! `segments` says what the segments of a key are, and `trie_key` takes keys
//! apart, byte by byte on the strength of `encoding`. `view` is the trie as a
//! mathematical value, `node` and `trie` are the trie in memory, and `fold`
//! says what a fold does. `laws` states how the operations answer to each
//! other. `naming` makes the names under which generated code knows a
//! command.

pub mod encoding;
pub mod fold;
pub mod laws;
pub mod naming;
pub mod node;
pub mod segments;
pub mod trie;
pub mod trie_key;
pub mod view;

pub use fold::VisitingAggregator;
pub use node::TrieNode;
pub use trie::Trie;
pub use trie_key::{MaybeEmptyIter, TrieKey};
