//! Block headers and the two pointer conversions.

use vstd::prelude::*;

verus! {

/// Number of bytes one header occupies in the address space.
pub const HEADER_SIZE: usize = 24;

/// What the heap-extension primitive answers when it grants no space.
pub const BRK_FAILED: usize = usize::MAX;

/// The record in front of every region.
///
/// `size` is the length of the region in bytes, fixed when the block is carved.
/// `next` is the address of the header that was carved next, or 0 at the tail.
#[derive(Clone, Copy, Debug, PartialEq, Eq, Structural)]
pub struct BlockMeta {
    pub size: usize,
    pub is_free: bool,
    pub next: usize,
}

/// One block of the chain as contracts see it: where its header lies, what the
/// header says, and the bytes of its region.
#[verifier::ext_equal]
pub struct Block {
    pub addr: usize,
    pub meta: BlockMeta,
    pub data: Seq<u8>,
}

/// The address right behind a header placed at `header`.
pub open spec fn data_ptr(header: usize) -> int {
    header + HEADER_SIZE
}

/// The address one header in front of `ptr`.
pub open spec fn meta_ptr(ptr: usize) -> int {
    ptr - HEADER_SIZE
}

/// The space that a block of `size` bytes takes, header included, as the
/// signed number of bytes to ask the heap-extension primitive for. There is
/// none where that number exceeds what its signed argument can express.
pub open spec fn space_for(size: usize) -> Option<isize> {
    if size + HEADER_SIZE <= isize::MAX {
        Some((size + HEADER_SIZE) as isize)
    } else {
        None
    }
}

impl BlockMeta {
    /// The number of bytes to ask the heap-extension primitive for to place a
    /// block of `size` bytes.
    pub fn space_needed(size: usize) -> (delta: Option<isize>)
        ensures
            delta == space_for(size),
    {
        if size <= isize::MAX as usize - HEADER_SIZE {
            Some((size + HEADER_SIZE) as isize)
        } else {
            None
        }
    }


    /// The pointer surfaced to callers for the header at `header`.
    pub fn get_data_ptr(header: usize) -> (ptr: usize)
        requires
            data_ptr(header) <= usize::MAX,
        ensures
            ptr == data_ptr(header),
            meta_ptr(ptr) == header,
    {
        header + HEADER_SIZE
    }

    /// The header in front of a pointer that `get_data_ptr` produced.
    pub fn get_meta_ptr(ptr: usize) -> (header: usize)
        requires
            meta_ptr(ptr) >= 0,
        ensures
            header == meta_ptr(ptr),
            data_ptr(header) == ptr,
    {
        ptr - HEADER_SIZE
    }

    /// A block of this header can serve a request for `size` bytes.
    pub open spec fn fits(self, size: usize) -> bool {
        self.is_free && self.size >= size
    }
}

} // verus!
