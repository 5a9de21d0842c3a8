//! A keyed, content-addressed Merkle trie.
//!
//! Keys and values are arbitrary byte strings. The contents are organised as
//! a nibble-indexed radix tree; every committed subtree is identified by the
//! cryptographic digest of its serialised form, so a single 32-byte root
//! digest commits to the whole data set.

pub mod codec;
pub mod hashing;
pub mod inspect;
pub mod nibbles;
pub mod node;
pub mod ops;
pub mod store;
pub mod trie;
