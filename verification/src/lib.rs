//! Line-based set algebra over byte buffers.
//!
//! Given an ordered sequence of byte buffers, each treated as a stream of
//! newline-terminated lines, this crate computes the union or the
//! intersection of the lines occurring across the buffers, deduplicated by
//! byte content and ordered by first occurrence.

pub mod dedup;
pub mod driver;
pub mod intersect_set;
pub mod laws;
pub mod lines;
pub mod union_set;
