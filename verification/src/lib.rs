//! A persistent vector: an immutable sequence whose `push` returns a new
//! vector and leaves the one it was called on as it was. The two share all
//! storage that the append did not have to copy.
//!
//! The elements are kept in a trie with 32 slots per node, whose leaves are
//! all complete, and in a tail leaf that takes the most recent elements.
//! `vector` holds the handle and its operations, `iter` the walk over the
//! elements, `radix` the arithmetic of indices in the trie, and `laws` what
//! follows for every sequence of pushes and every walk.

pub mod iter;
pub mod laws;
pub mod radix;
pub mod vector;
mod node;

pub use iter::Iter;
pub use vector::PersistentVector;
