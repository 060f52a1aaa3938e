//! Verified container data structures: a red-black tree kept in an index
//! arena, a rose tree, and the pairing and face tracing of a half-edge
//! table.

pub mod order;
pub mod sequences;
pub mod rbtree;
pub mod tree;
pub mod dcel;
