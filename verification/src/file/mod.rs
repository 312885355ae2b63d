//! Indexes kept in files.
pub mod kv;
