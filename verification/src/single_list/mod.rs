//! A singly linked list.
pub mod memory;
