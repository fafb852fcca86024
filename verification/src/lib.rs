//! A trie keyed by filesystem-style paths, answering lookups by
//! longest-prefix match: a value stored at a directory is inherited by every
//! path beneath it until a deeper value overrides it.
//!
//! The structure maps paths to values of an arbitrary cloneable type. A
//! lookup walks the queried path's components from the root, tracking the
//! most recent value seen, and returns the value of the deepest ancestor
//! (the path itself included) that holds one. Insertion creates the missing
//! intermediate directories on demand, reuses any already present, and never
//! discards a value or a subtree elsewhere in the trie.

mod child_index;
pub mod directory_trie;
mod directory_trie_node;
pub mod longest_prefix;
pub mod paths;

pub use directory_trie::{DirectoryTrie, TrieError};
