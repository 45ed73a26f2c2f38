//! Least-cost route finding over a network of one-way hiking trails, with
//! small utilities on pattern matching, ordering, sequences and vectors.
pub mod common_traits;
pub mod dijkstra;
pub mod iterators;
pub mod laws;
pub mod path_finding;
pub mod pattern_matching;
pub mod text;
pub mod trail_text;
pub mod trails;
pub mod vector_operations;
pub mod walks;
