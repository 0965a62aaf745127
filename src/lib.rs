//! A binary Merkle commitment over a keyed set of characters.
//!
//! Leaves are kept in ascending key order and the whole tree is rebuilt
//! after every insertion, so the root digest is a function of the
//! key/value contents alone.

pub mod hashing;
pub mod model;
pub mod tree;
pub mod inclusion;
pub mod letters;
pub mod laws;
