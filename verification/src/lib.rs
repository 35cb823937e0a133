//! Multi-pattern keyword matching: a trie with failure links that scans a
//! text once, counts every reported keyword and wraps it in a highlight.

pub mod node;
pub mod automaton;
pub mod links;
pub mod language;
pub mod result;
pub mod scan;
pub mod store;
pub mod trie;
pub mod laws;

pub use node::TrieNode;
pub use result::MatchResult;
pub use trie::Trie;
