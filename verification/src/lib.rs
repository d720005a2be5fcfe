//! A free-list memory allocator whose block headers live inside the region
//! they manage, with simpler bump, stack and page strategies beside it.
//!
//! The region is a byte buffer that starts at a base address. `header` packs
//! a block's size, padding and "used" flag into two words, `region` reads
//! and writes them in the buffer, `chain` reads the chain of blocks off the
//! bytes, `policy` says over that chain what the allocator decides, and
//! `linked_list_allocator` carries the decisions out on the bytes.

pub mod chain;
pub mod header;
pub mod linear_allocator;
pub mod linked_list_allocator;
pub mod page_allocator;
pub mod policy;
pub mod region;
pub mod stack_allocator;
