//! The four allocation operations.

use vstd::prelude::*;
use crate::block::{data_ptr, Block, BlockMeta};
use crate::chain::{
    block_end, claimed, copied, first_fit, grant_usable, lemma_claimed_valid, lemma_locate_is,
    lemma_null_not_located, loaned, released, valid_chain, zeroed,
};
use crate::heap::BasicAllocator;

verus! {

/// Allocating `size` bytes: the chain afterwards and the pointer returned,
/// which is the null pointer where no block could be claimed.
pub open spec fn allocated(chain: Seq<Block>, size: usize, brk: usize) -> (Seq<Block>, usize) {
    let (after, at) = claimed(chain, size, brk);
    match at {
        Some(i) => (after, data_ptr(after[i].addr) as usize),
        None => (after, 0),
    }
}

/// Allocating `num * size` zero bytes: nothing where the product does not fit
/// the address width; otherwise an allocation whose first `num * size` bytes
/// are set to zero.
pub open spec fn zero_allocated(chain: Seq<Block>, num: usize, size: usize, brk: usize) -> (
    Seq<Block>,
    usize,
) {
    if num * size > usize::MAX {
        (chain, 0)
    } else {
        let (after, ptr) = allocated(chain, (num * size) as usize, brk);
        (zeroed(after, ptr, (num * size) as usize), ptr)
    }
}

/// The smaller of two sizes.
pub open spec fn smaller(a: usize, b: usize) -> usize {
    if a <= b {
        a
    } else {
        b
    }
}

/// Resizing the region at `ptr` to `size` bytes. With the null pointer this
/// is an allocation. With a region on loan, a fresh region is allocated, the
/// old bytes are copied to its front as far as both regions reach, and the
/// old region is released; where the allocation fails the chain stays as it
/// was. A pointer with no region on loan changes nothing and yields null.
pub open spec fn resized(chain: Seq<Block>, ptr: usize, size: usize, brk: usize) -> (
    Seq<Block>,
    usize,
) {
    if ptr == 0 {
        allocated(chain, size, brk)
    } else {
        match loaned(chain, ptr) {
            None => (chain, 0),
            Some(from) => {
                let (after, fresh) = allocated(chain, size, brk);
                if fresh == 0 {
                    (chain, 0)
                } else {
                    let n = smaller(chain[from].meta.size, size);
                    (released(copied(after, fresh, ptr, n), ptr), fresh)
                }
            },
        }
    }
}

/// An allocation on a valid chain leaves a valid chain. It succeeds exactly
/// where a free block is large enough or the grant is usable. Where it fails
/// it returns the null pointer and the chain is as it was; any other pointer
/// is that of the claimed block, which is on loan and holds at least `size`
/// bytes.
pub proof fn lemma_allocated(chain: Seq<Block>, size: usize, brk: usize)
    requires
        valid_chain(chain),
    ensures
        ({
            let (after, ptr) = allocated(chain, size, brk);
            let at = claimed(chain, size, brk).1;
            &&& valid_chain(after)
            &&& ptr != 0 <==> first_fit(chain, size).is_some() || grant_usable(chain, size, brk)
            &&& ptr == 0 <==> at.is_none()
            &&& ptr == 0 ==> after == chain
            &&& ptr != 0 ==> {
                &&& loaned(after, ptr) == at
                &&& at matches Some(i)
                &&& after[i].meta.size >= size
            }
        }),
{
    lemma_claimed_valid(chain, size, brk);
    let (after, at) = claimed(chain, size, brk);
    match at {
        Some(i) => {
            assert(block_end(after[i]) <= usize::MAX);
            let ptr = data_ptr(after[i].addr) as usize;
            lemma_locate_is(after, ptr, i);
        },
        None => {},
    }
}

/// Serves a request for `size` bytes from the heap and returns the pointer to
/// the region, or the null pointer where no block could be claimed.
pub fn alloc_impl(heap: &mut BasicAllocator, size: usize, brk: usize) -> (ptr: usize)
    requires
        old(heap).wf(),
    ensures
        final(heap).wf(),
        (final(heap)@, ptr) == allocated(old(heap)@, size, brk),
{
    match heap.claim_block(size, brk) {
        None => 0,
        Some(block) => {
            let (addr, _) = heap.header(block).unwrap();
            proof {
                heap.lemma_wf_valid();
                assert(block_end(heap@[block as int]) <= usize::MAX);
            }
            BlockMeta::get_data_ptr(addr)
        },
    }
}

/// Releases the region at `ptr`. The null pointer is ignored.
pub fn dealloc_impl(heap: &mut BasicAllocator, ptr: usize)
    requires
        old(heap).wf(),
    ensures
        final(heap).wf(),
        final(heap)@ == released(old(heap)@, ptr),
{
    if ptr == 0 {
        proof {
            heap.lemma_wf_valid();
            lemma_null_not_located(heap@);
        }
        return ;
    }
    match heap.block_of(ptr) {
        Some(block) => {
            heap.set_free(block, true);
        },
        None => {},
    }
}

impl BasicAllocator {
    /// Allocates a region of `size` bytes.
    pub fn allocate(&mut self, size: usize, brk: usize) -> (ptr: usize)
        requires
            old(self).wf(),
        ensures
            final(self).wf(),
            (final(self)@, ptr) == allocated(old(self)@, size, brk),
    {
        alloc_impl(self, size, brk)
    }

    /// Releases the region at `ptr`.
    pub fn dealloc(&mut self, ptr: usize)
        requires
            old(self).wf(),
        ensures
            final(self).wf(),
            final(self)@ == released(old(self)@, ptr),
    {
        dealloc_impl(self, ptr)
    }
}

/// Allocates `size` bytes. `brk` is what the heap-extension primitive answered
/// when asked for `heap.growth_needed(size)` bytes, or `BRK_FAILED` where it
/// was not asked. Returns the null pointer where the heap could not grow.
pub fn malloc(heap: &mut BasicAllocator, size: usize, brk: usize) -> (ptr: usize)
    requires
        old(heap).wf(),
    ensures
        final(heap).wf(),
        (final(heap)@, ptr) == allocated(old(heap)@, size, brk),
{
    heap.allocate(size, brk)
}

/// Releases the region at `ptr`: its block becomes free for reuse, its bytes
/// stay as they are. The null pointer is ignored.
pub fn free(heap: &mut BasicAllocator, ptr: usize)
    requires
        old(heap).wf(),
    ensures
        final(heap).wf(),
        final(heap)@ == released(old(heap)@, ptr),
{
    dealloc_impl(heap, ptr)
}

/// The number of bytes that `num` items of `size` bytes take, or `None` where
/// that number does not fit the address width.
pub fn zeroed_size(num: usize, size: usize) -> (bytes: Option<usize>)
    ensures
        bytes == (if num * size > usize::MAX {
            None
        } else {
            Some((num * size) as usize)
        }),
{
    num.checked_mul(size)
}

/// Allocates `num * size` bytes and sets them to zero. `brk` answers a
/// request for `heap.growth_needed(bytes)` bytes, where `bytes` is what
/// `zeroed_size(num, size)` gives. Returns the null pointer, and changes
/// nothing, where the product does not fit the address width.
pub fn calloc(heap: &mut BasicAllocator, num: usize, size: usize, brk: usize) -> (ptr: usize)
    requires
        old(heap).wf(),
    ensures
        final(heap).wf(),
        (final(heap)@, ptr) == zero_allocated(old(heap)@, num, size, brk),
{
    let bytes = match zeroed_size(num, size) {
        Some(bytes) => bytes,
        None => {
            return 0;
        },
    };
    let ptr = malloc(heap, bytes, brk);
    if ptr != 0 {
        heap.zero(ptr, bytes);
    } else {
        proof {
            heap.lemma_wf_valid();
            lemma_null_not_located(heap@);
        }
    }
    ptr
}

/// Moves the region at `ptr` to a fresh region of `size` bytes. `brk` answers
/// a request for `heap.growth_needed(size)` bytes. With the null pointer this
/// is `malloc(heap, size, brk)`. Returns the null pointer, and leaves the old
/// region on loan, where the fresh region could not be had.
pub fn realloc(heap: &mut BasicAllocator, ptr: usize, size: usize, brk: usize) -> (fresh: usize)
    requires
        old(heap).wf(),
    ensures
        final(heap).wf(),
        (final(heap)@, fresh) == resized(old(heap)@, ptr, size, brk),
{
    if ptr == 0 {
        return malloc(heap, size, brk);
    }
    let current_size = match heap.loan_of(ptr) {
        Some(block) => heap.header(block).unwrap().1.size,
        None => {
            return 0;
        },
    };
    proof {
        heap.lemma_wf_valid();
        lemma_allocated(heap@, size, brk);
    }
    let fresh = malloc(heap, size, brk);
    if fresh == 0 {
        return 0;
    }
    let n = if current_size <= size {
        current_size
    } else {
        size
    };
    heap.copy(fresh, ptr, n);
    free(heap, ptr);
    fresh
}

} // verus!
