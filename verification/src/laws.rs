//! What holds of the operations taken together.

use vstd::prelude::*;
use crate::api::{allocated, lemma_allocated, resized, smaller, zero_allocated};
use crate::block::{Block, data_ptr, meta_ptr};
use crate::chain::{
    block_end, can_copy, claimed, copied, first_fit, grant_usable, is_block_of, is_first_fit,
    lemma_first_fit_is, lemma_first_fit_none, lemma_grown_valid, lemma_locate_is,
    lemma_null_not_located, lemma_some_first_fit, lemma_with_data_valid, lemma_with_flag_valid,
    loaded, loaned, locate, released, stored, valid_chain, with_flag, zeroed,
};

verus! {

/// `after` still holds every block of `before` at its place, with its address
/// and its size.
pub open spec fn keeps_blocks(before: Seq<Block>, after: Seq<Block>) -> bool {
    &&& before.len() <= after.len()
    &&& forall|i: int|
        0 <= i < before.len() ==> (#[trigger] after[i]).addr == before[i].addr && after[i].meta.size
            == before[i].meta.size
}

/// The pointer of a header and the header of a pointer undo each other.
pub proof fn law_pointer_round_trip(addr: usize)
    ensures
        data_ptr(addr) <= usize::MAX ==> meta_ptr(data_ptr(addr) as usize) == addr,
        meta_ptr(addr) >= 0 ==> data_ptr(meta_ptr(addr) as usize) == addr,
{
}

/// Release keeps a chain valid and as long as it was. The pointer still
/// belongs to its block afterwards, and nothing is on loan there.
pub proof fn lemma_released(chain: Seq<Block>, ptr: usize)
    requires
        valid_chain(chain),
    ensures
        valid_chain(released(chain, ptr)),
        released(chain, ptr).len() == chain.len(),
        loaned(released(chain, ptr), ptr).is_none(),
        locate(released(chain, ptr), ptr) == locate(chain, ptr),
{
    match locate(chain, ptr) {
        Some(i) => {
            assert(is_block_of(chain, ptr, i));
            lemma_with_flag_valid(chain, i, true);
            lemma_locate_is(released(chain, ptr), ptr, i);
        },
        None => {},
    }
}

/// Allocating, releasing at once and allocating the same size again returns
/// the same pointer and the same heap, whatever the heap-extension primitive
/// answers the second time.
pub proof fn law_release_then_allocate_again(
    chain: Seq<Block>,
    size: usize,
    brk: usize,
    brk_again: usize,
)
    requires
        valid_chain(chain),
        allocated(chain, size, brk).1 != 0,
    ensures
        ({
            let (first, ptr) = allocated(chain, size, brk);
            allocated(released(first, ptr), size, brk_again) == (first, ptr)
        }),
{
    let (first, ptr) = allocated(chain, size, brk);
    lemma_allocated(chain, size, brk);
    lemma_first_fit_none(chain, size);
    let at = claimed(chain, size, brk).1.unwrap();
    assert(locate(first, ptr) == Some(at));
    let freed = released(first, ptr);
    assert(freed == with_flag(first, at, true));
    match first_fit(chain, size) {
        Some(i) => {
            assert(at == i);
            assert(freed =~= chain);
        },
        None => {
            lemma_grown_valid(chain, size, brk);
            assert(at == chain.len());
            assert forall|j: int| 0 <= j < at implies !(#[trigger] freed[j]).meta.fits(size) by {
                assert(!chain[j].meta.fits(size));
            }
            assert(is_first_fit(freed, size, at));
            lemma_first_fit_is(freed, size, at);
            assert(with_flag(freed, at, false) =~= first);
        },
    }
}

/// After a region was released, a request for no more bytes than its block
/// holds is served without growing the heap, whatever the heap-extension
/// primitive answers: by the first free block that is large enough, which
/// lies at or in front of the released block. Where no block in front of it
/// is free and large enough, the released block itself is handed out again,
/// whichever blocks behind it would fit more tightly.
pub proof fn law_released_block_reused(chain: Seq<Block>, ptr: usize, size: usize, brk: usize)
    requires
        valid_chain(chain),
        loaned(chain, ptr) matches Some(a) && size <= chain[a].meta.size,
    ensures
        ({
            let a = loaned(chain, ptr).unwrap();
            let (after, again) = allocated(released(chain, ptr), size, brk);
            &&& after.len() == chain.len()
            &&& again != 0
            &&& first_fit(released(chain, ptr), size) matches Some(k)
            &&& k <= a
            &&& again == data_ptr(chain[k].addr)
            &&& (forall|j: int| 0 <= j < a ==> !(#[trigger] chain[j]).meta.fits(size)) ==> again
                == ptr
        }),
{
    let a = loaned(chain, ptr).unwrap();
    let freed = released(chain, ptr);
    assert(is_block_of(chain, ptr, a));
    lemma_released(chain, ptr);
    assert(freed[a].meta.fits(size));
    lemma_some_first_fit(freed, size, a);
    let k = first_fit(freed, size).unwrap();
    lemma_allocated(freed, size, brk);
    assert(block_end(chain[k]) <= usize::MAX);
    if forall|j: int| 0 <= j < a ==> !(#[trigger] chain[j]).meta.fits(size) {
        if k < a {
            assert(!chain[k].meta.fits(size));
        }
    }
}

/// Zero-allocation leaves a valid heap. Where `num * size` does not fit the
/// address width it returns the null pointer and changes nothing. Any other
/// pointer it returns is that of a region on loan whose first `num * size`
/// bytes are zero.
pub proof fn law_zero_allocated(chain: Seq<Block>, num: usize, size: usize, brk: usize)
    requires
        valid_chain(chain),
    ensures
        ({
            let (after, ptr) = zero_allocated(chain, num, size, brk);
            &&& valid_chain(after)
            &&& num * size > usize::MAX ==> ptr == 0
            &&& num * size <= usize::MAX ==> (ptr != 0 <==> allocated(
                chain,
                (num * size) as usize,
                brk,
            ).1 != 0)
            &&& ptr == 0 ==> after == chain
            &&& ptr != 0 ==> forall|k: usize|
                k < num * size ==> #[trigger] loaded(after, ptr, k) == Some(0u8)
        }),
{
    if num * size <= usize::MAX {
        let bytes = (num * size) as usize;
        let (mid, ptr) = allocated(chain, bytes, brk);
        lemma_allocated(chain, bytes, brk);
        if ptr != 0 {
            let i = loaned(mid, ptr).unwrap();
            let after = zeroed(mid, ptr, bytes);
            lemma_with_data_valid(mid, i, after[i].data);
            assert(is_block_of(mid, ptr, i));
            lemma_locate_is(after, ptr, i);
        } else {
            lemma_null_not_located(mid);
        }
    }
}

/// Resizing a region on loan leaves a valid heap. Where it returns the null
/// pointer nothing has changed and the old region is still on loan. Any other
/// pointer is that of another region, on loan, of at least `size` bytes,
/// which holds the bytes of the old region as far as the smaller of the old
/// block's size and `size` reaches; the old region is then free.
pub proof fn law_resized_keeps_bytes(chain: Seq<Block>, ptr: usize, size: usize, brk: usize)
    requires
        valid_chain(chain),
        loaned(chain, ptr).is_some(),
    ensures
        ({
            let from = loaned(chain, ptr).unwrap();
            let (after, fresh) = resized(chain, ptr, size, brk);
            &&& valid_chain(after)
            &&& fresh != 0 <==> allocated(chain, size, brk).1 != 0
            &&& fresh == 0 ==> after == chain
            &&& fresh != 0 ==> {
                &&& fresh != ptr
                &&& loaned(after, fresh) matches Some(to)
                &&& after[to].meta.size >= size
                &&& loaned(after, ptr).is_none()
                &&& after[from].meta.is_free
                &&& forall|k: usize|
                    k < smaller(chain[from].meta.size, size) ==> #[trigger] loaded(after, fresh, k)
                        == loaded(chain, ptr, k)
            }
        }),
{
    let from = loaned(chain, ptr).unwrap();
    assert(is_block_of(chain, ptr, from));
    lemma_null_not_located(chain);
    assert(ptr != 0);
    let (mid, fresh) = allocated(chain, size, brk);
    lemma_allocated(chain, size, brk);
    lemma_first_fit_none(chain, size);
    if fresh != 0 {
        let to = claimed(chain, size, brk).1.unwrap();
        let n = smaller(chain[from].meta.size, size);
        assert(to != from && mid[from] == chain[from] || (to != from && mid[from].data
            == chain[from].data && mid[from].meta.is_free == chain[from].meta.is_free
            && mid[from].addr == chain[from].addr && mid[from].meta.size == chain[from].meta.size))
            by {
            match first_fit(chain, size) {
                Some(i) => {},
                None => {
                    lemma_grown_valid(chain, size, brk);
                },
            }
        }
        assert(is_block_of(mid, ptr, from));
        lemma_locate_is(mid, ptr, from);
        assert(loaned(mid, ptr) == Some(from));
        assert(can_copy(mid, fresh, ptr, n));
        let moved = copied(mid, fresh, ptr, n);
        lemma_with_data_valid(mid, to, moved[to].data);
        assert(is_block_of(moved, ptr, from));
        lemma_locate_is(moved, ptr, from);
        let after = released(moved, ptr);
        lemma_released(moved, ptr);
        assert(is_block_of(after, fresh, to));
        lemma_locate_is(after, fresh, to);
        assert(after[to].data == moved[to].data);
    }
}

/// Releasing the null pointer changes nothing, and resizing the null pointer
/// is an allocation.
pub proof fn law_null_pointer(chain: Seq<Block>, size: usize, brk: usize)
    requires
        valid_chain(chain),
    ensures
        released(chain, 0) == chain,
        resized(chain, 0, size, brk) == allocated(chain, size, brk),
{
    lemma_null_not_located(chain);
}

/// Allocation leaves every block at its place in the chain, with its address
/// and its size, and leaves the chain valid.
pub proof fn law_allocation_keeps_blocks(chain: Seq<Block>, size: usize, brk: usize)
    requires
        valid_chain(chain),
    ensures
        keeps_blocks(chain, allocated(chain, size, brk).0),
        valid_chain(allocated(chain, size, brk).0),
{
    lemma_claimed_keeps(chain, size, brk);
    lemma_allocated(chain, size, brk);
}

/// Release leaves every block at its place in the chain, with its address,
/// its size and its bytes, and leaves the chain valid.
pub proof fn law_release_keeps_blocks(chain: Seq<Block>, ptr: usize)
    requires
        valid_chain(chain),
    ensures
        keeps_blocks(chain, released(chain, ptr)),
        valid_chain(released(chain, ptr)),
        released(chain, ptr).len() == chain.len(),
        forall|i: int| 0 <= i < chain.len() ==> (#[trigger] released(chain, ptr)[i]).data == chain[i].data,
{
    lemma_released(chain, ptr);
}

/// Zero-allocation leaves every block at its place in the chain, with its
/// address and its size.
pub proof fn law_zero_allocation_keeps_blocks(
    chain: Seq<Block>,
    num: usize,
    size: usize,
    brk: usize,
)
    requires
        valid_chain(chain),
    ensures
        keeps_blocks(chain, zero_allocated(chain, num, size, brk).0),
{
    if num * size <= usize::MAX {
        let bytes = (num * size) as usize;
        lemma_claimed_keeps(chain, bytes, brk);
        lemma_allocated(chain, bytes, brk);
        let (mid, ptr) = allocated(chain, bytes, brk);
        assert(keeps_blocks(mid, zeroed(mid, ptr, bytes)));
    }
}

/// Resizing leaves every block at its place in the chain, with its address
/// and its size, and leaves the chain valid, whatever pointer it is given.
pub proof fn law_resize_keeps_blocks(chain: Seq<Block>, ptr: usize, size: usize, brk: usize)
    requires
        valid_chain(chain),
    ensures
        keeps_blocks(chain, resized(chain, ptr, size, brk).0),
        valid_chain(resized(chain, ptr, size, brk).0),
{
    lemma_claimed_keeps(chain, size, brk);
    lemma_allocated(chain, size, brk);
    if ptr != 0 && loaned(chain, ptr).is_some() {
        law_resized_keeps_bytes(chain, ptr, size, brk);
        let (mid, fresh) = allocated(chain, size, brk);
        if fresh != 0 {
            let n = smaller(chain[loaned(chain, ptr).unwrap()].meta.size, size);
            let moved = copied(mid, fresh, ptr, n);
            assert(keeps_blocks(mid, moved));
            assert(keeps_blocks(moved, released(moved, ptr)));
        }
    }
}

/// Writing to a region leaves every block at its place in the chain, with its
/// address and its size, and leaves the chain valid.
pub proof fn law_store_keeps_blocks(chain: Seq<Block>, ptr: usize, offset: usize, value: u8)
    requires
        valid_chain(chain),
    ensures
        keeps_blocks(chain, stored(chain, ptr, offset, value)),
        valid_chain(stored(chain, ptr, offset, value)),
{
    match loaned(chain, ptr) {
        Some(i) => {
            assert(is_block_of(chain, ptr, i));
            if offset < chain[i].meta.size {
                lemma_with_data_valid(chain, i, chain[i].data.update(offset as int, value));
            }
        },
        None => {},
    }
}

/// Claiming a block leaves every block at its place, with its address and
/// its size, and adds at most one block.
pub proof fn lemma_claimed_keeps(chain: Seq<Block>, size: usize, brk: usize)
    requires
        valid_chain(chain),
    ensures
        keeps_blocks(chain, claimed(chain, size, brk).0),
        claimed(chain, size, brk).0.len() <= chain.len() + 1,
        claimed(chain, size, brk).0.len() == chain.len() + 1 ==> first_fit(chain, size).is_none()
            && grant_usable(chain, size, brk),
{
    lemma_first_fit_none(chain, size);
    if first_fit(chain, size).is_none() && grant_usable(chain, size, brk) {
        lemma_grown_valid(chain, size, brk);
    }
}

} // verus!
