//! A disjoint-set (union-find) store over `u64` identifiers, with lazy
//! insertion, path compression and union by size.
pub mod model;
pub mod text;
pub mod union_find;

pub use union_find::UnionFind;
