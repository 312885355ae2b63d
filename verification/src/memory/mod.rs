//! In-memory B+ trees.
pub mod pointer;
