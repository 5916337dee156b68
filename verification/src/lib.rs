//! A generic radix trie (compressed prefix tree).
//!
//! Keys are reduced to sequences of 4-bit nibbles; the tree stores one
//! fragment of nibbles per node and keeps itself canonical: a non-root
//! node without a value always has at least two children.
//!
//! The container is synchronous and single-threaded: shared views (lookups,
//! iterators, subtries) may coexist freely, while a mutating operation
//! needs exclusive access to the trie for its whole duration. The borrow
//! checker enforces this discipline for every caller.

pub mod nibble;
pub mod keys;
pub mod node;
pub mod trie;

pub use keys::TrieKey;
pub use nibble::NibbleVec;
pub use trie::Trie;
pub use trie::SubTrie;
pub use trie::Iter;
pub use trie::Keys;
pub use trie::Values;
