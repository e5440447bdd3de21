//! Memory management: addresses, page-table entries, page tables, the frame
//! allocator and physical memory.
pub mod address;
pub mod page_table;
pub mod memory;
pub mod user_buffer;
pub mod flags;
