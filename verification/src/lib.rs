//! An interned, undirected, labeled network graph and the operations a
//! network tool needs on it: listing the participating node names, taking
//! the union of two networks, overlaying one network's edges onto another,
//! filtering a network by an exclusion list, and converting between a
//! tab-separated triplet line format and a sparse-adjacency document.

pub mod codec;
pub mod graph;
pub mod ops;
pub mod sparse;
pub mod text;
