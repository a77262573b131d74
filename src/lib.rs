//! A small graph with breadth-first traversal, and a word-occurrence counter
//! that splits its work across threads.
pub mod graph;
pub mod search;
