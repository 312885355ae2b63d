//! Lists held in memory.
pub mod point;
