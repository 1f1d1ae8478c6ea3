//! Helpers that the algorithms share.

pub mod union_find;

pub use union_find::UnionFind;
