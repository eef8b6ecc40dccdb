//! A first-fit free-list heap.
//!
//! The heap is a chain of variable-size blocks kept in the order in which they
//! were carved from the address space. Every block is a header followed by the
//! region loaned to the caller. Requests are served by the first free block
//! that is large enough and, failing that, by a new block placed on space
//! granted by the heap-extension primitive. Blocks are never split, merged,
//! moved or given back.
//!
//! The allocator value owns the chain and the bytes of every region. It never
//! calls the heap-extension primitive itself: the caller asks
//! [`BasicAllocator::growth_needed`] how much space a request needs, obtains it,
//! and hands the primitive's answer to the operation.

pub mod api;
pub mod block;
pub mod chain;
pub mod heap;
pub mod laws;

pub use api::{alloc_impl, calloc, dealloc_impl, free, malloc, realloc, zeroed_size};
pub use block::{Block, BlockMeta, BRK_FAILED, HEADER_SIZE};
pub use heap::BasicAllocator;
