pub mod key_order;
pub mod memory;
pub mod single_list;
pub mod file;
