//! Allocators for freestanding targets, with the arithmetic they rest on.

pub mod align;
pub mod block;
pub mod bump_allocator;
pub mod linked_list_allocator;
pub mod mmap;
pub mod mutex;
