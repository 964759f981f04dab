//! Builds a compact, sorted, fixed-width binary index from identifier/locus
//! rows, and resolves identifiers against it by binary search.
pub mod builder;
pub mod codec;
pub mod locate;
pub mod mapping;
pub mod text;
