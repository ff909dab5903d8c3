//! Shortest edit scripts between two sequences, after Myers' difference
//! algorithm: a quadratic engine that records the search history and walks
//! it back, and a linear-space engine that splits on middle snakes.

pub mod array;
pub mod edit;
pub mod shortest_edit;
pub mod laws;
pub mod digits;
pub mod corner;
