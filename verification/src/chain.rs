//! The chain of blocks as contracts see it, and what each step does to it.

use vstd::prelude::*;
use crate::block::{data_ptr, space_for, Block, BlockMeta, BRK_FAILED, HEADER_SIZE};

verus! {

/// The first address behind the region of `b`.
pub open spec fn block_end(b: Block) -> int {
    b.addr + HEADER_SIZE + b.meta.size
}

/// What holds of every chain the allocator builds: no header lies at address
/// 0, every block ends inside the address space, blocks lie in the order in
/// which they were carved without overlap, every region is as long as its
/// header says, and every header links to the one carved after it.
pub open spec fn valid_chain(chain: Seq<Block>) -> bool {
    &&& forall|i: int|
        0 <= i < chain.len() ==> {
            &&& (#[trigger] chain[i]).addr != 0
            &&& block_end(chain[i]) <= usize::MAX
            &&& chain[i].data.len() == chain[i].meta.size
        }
    &&& forall|i: int| 0 <= i < chain.len() ==> chain[i].meta.next == #[trigger] link_of(chain, i)
    &&& forall|i: int, j: int|
        0 <= i < j < chain.len() ==> block_end(#[trigger] chain[i]) <= (#[trigger] chain[j]).addr
}

/// The address of the header carved after block `i`, 0 for the last block.
pub open spec fn link_of(chain: Seq<Block>, i: int) -> usize {
    if i + 1 < chain.len() {
        chain[i + 1].addr
    } else {
        0
    }
}

/// The head reference: the address of the first header, 0 while there is none.
pub open spec fn head(chain: Seq<Block>) -> usize {
    if chain.len() == 0 {
        0
    } else {
        chain[0].addr
    }
}

/// The first address behind the last block, 0 while there is none.
pub open spec fn top(chain: Seq<Block>) -> int {
    if chain.len() == 0 {
        0
    } else {
        block_end(chain.last())
    }
}

/// Block `i` is free, large enough for `size` bytes, and no block in front of
/// it is.
pub open spec fn is_first_fit(chain: Seq<Block>, size: usize, i: int) -> bool {
    &&& 0 <= i < chain.len()
    &&& chain[i].meta.fits(size)
    &&& forall|j: int| 0 <= j < i ==> !(#[trigger] chain[j]).meta.fits(size)
}

/// The position of the block that first-fit search picks for `size` bytes.
pub open spec fn first_fit(chain: Seq<Block>, size: usize) -> Option<int> {
    if exists|i: int| is_first_fit(chain, size, i) {
        Some(choose|i: int| is_first_fit(chain, size, i))
    } else {
        None
    }
}

/// The last header a first-fit search for `size` bytes visits.
pub open spec fn last_visited(chain: Seq<Block>, size: usize) -> Option<int> {
    match first_fit(chain, size) {
        Some(i) => Some(i),
        None => if chain.len() == 0 {
            None
        } else {
            Some(chain.len() - 1)
        },
    }
}

/// `ptr` is the pointer surfaced for block `i`.
pub open spec fn is_block_of(chain: Seq<Block>, ptr: usize, i: int) -> bool {
    0 <= i < chain.len() && data_ptr(chain[i].addr) == ptr
}

/// The position of the block whose region starts at `ptr`.
pub open spec fn locate(chain: Seq<Block>, ptr: usize) -> Option<int> {
    if exists|i: int| is_block_of(chain, ptr, i) {
        Some(choose|i: int| is_block_of(chain, ptr, i))
    } else {
        None
    }
}

/// The chain with the occupancy flag of block `i` set to `is_free`.
pub open spec fn with_flag(chain: Seq<Block>, i: int, is_free: bool) -> Seq<Block> {
    chain.update(
        i,
        Block { meta: BlockMeta { is_free, ..chain[i].meta }, ..chain[i] },
    )
}

/// The heap-extension primitive answered `brk` to a request for a block of
/// `size` bytes, and a header can be placed there: the answer is neither the
/// failure value nor 0, the request fitted the primitive's signed argument, and
/// the granted space lies behind every block and inside the address space.
pub open spec fn grant_usable(chain: Seq<Block>, size: usize, brk: usize) -> bool {
    &&& brk != BRK_FAILED
    &&& brk != 0
    &&& size + HEADER_SIZE <= isize::MAX
    &&& brk + HEADER_SIZE + size <= usize::MAX
    &&& top(chain) <= brk
}

/// The number of bytes by which the heap has to grow before a request for
/// `size` bytes can be served: none where a free block serves it, and none
/// where header and region together exceed what the primitive's signed
/// argument can express.
pub open spec fn growth(chain: Seq<Block>, size: usize) -> Option<isize> {
    if first_fit(chain, size).is_none() {
        space_for(size)
    } else {
        None
    }
}

/// A position in the chain as an executable function reports it.
pub open spec fn position(at: Option<usize>) -> Option<int> {
    match at {
        Some(i) => Some(i as int),
        None => None,
    }
}

/// A block of `size` bytes as growth creates it at `brk`: in use, last in the
/// chain, its region reading as zero.
pub open spec fn fresh_block(size: usize, brk: usize) -> Block {
    Block {
        addr: brk,
        meta: BlockMeta { size, is_free: false, next: 0 },
        data: Seq::new(size as nat, |k: int| 0u8),
    }
}

/// The chain after a block of `size` bytes was carved at `brk` and linked
/// behind the last block.
pub open spec fn grown(chain: Seq<Block>, size: usize, brk: usize) -> Seq<Block> {
    if chain.len() == 0 {
        seq![fresh_block(size, brk)]
    } else {
        let last = chain.len() - 1;
        chain.update(
            last,
            Block { meta: BlockMeta { next: brk, ..chain[last].meta }, ..chain[last] },
        ).push(fresh_block(size, brk))
    }
}

/// Claiming a block for `size` bytes: the chain afterwards and the position of
/// the claimed block. The first free block that is large enough is taken as it
/// is; without one the chain grows by a block at `brk` if that grant is usable,
/// and nothing changes if it is not.
pub open spec fn claimed(chain: Seq<Block>, size: usize, brk: usize) -> (Seq<Block>, Option<int>) {
    match first_fit(chain, size) {
        Some(i) => (with_flag(chain, i, false), Some(i)),
        None => if grant_usable(chain, size, brk) {
            (grown(chain, size, brk), Some(chain.len() as int))
        } else {
            (chain, None)
        },
    }
}

/// The position of the block whose region starts at `ptr` and is on loan.
pub open spec fn loaned(chain: Seq<Block>, ptr: usize) -> Option<int> {
    match locate(chain, ptr) {
        Some(i) => if chain[i].meta.is_free {
            None
        } else {
            Some(i)
        },
        None => None,
    }
}

/// The chain with the region of block `i` holding `data`.
pub open spec fn with_data(chain: Seq<Block>, i: int, data: Seq<u8>) -> Seq<Block> {
    chain.update(i, Block { data, ..chain[i] })
}

/// The byte at `offset` of the region on loan at `ptr`.
pub open spec fn loaded(chain: Seq<Block>, ptr: usize, offset: usize) -> Option<u8> {
    match loaned(chain, ptr) {
        Some(i) => if offset < chain[i].meta.size {
            Some(chain[i].data[offset as int])
        } else {
            None
        },
        None => None,
    }
}

/// The chain after `value` was written at `offset` of the region on loan at
/// `ptr`. Nothing changes where no such byte is on loan.
pub open spec fn stored(chain: Seq<Block>, ptr: usize, offset: usize, value: u8) -> Seq<Block> {
    match loaned(chain, ptr) {
        Some(i) => if offset < chain[i].meta.size {
            with_data(chain, i, chain[i].data.update(offset as int, value))
        } else {
            chain
        },
        None => chain,
    }
}

/// `data` with its first `n` bytes set to zero.
pub open spec fn zero_prefix(data: Seq<u8>, n: int) -> Seq<u8> {
    Seq::new(data.len(), |k: int| if k < n { 0u8 } else { data[k] })
}

/// `dst` with its first `n` bytes taken from `src`.
pub open spec fn copy_prefix(dst: Seq<u8>, src: Seq<u8>, n: int) -> Seq<u8> {
    Seq::new(dst.len(), |k: int| if k < n { src[k] } else { dst[k] })
}

/// The chain after the first `n` bytes of the region on loan at `ptr` were set
/// to zero. Nothing changes where no region of at least `n` bytes is on loan
/// there.
pub open spec fn zeroed(chain: Seq<Block>, ptr: usize, n: usize) -> Seq<Block> {
    match loaned(chain, ptr) {
        Some(i) => if n <= chain[i].meta.size {
            with_data(chain, i, zero_prefix(chain[i].data, n as int))
        } else {
            chain
        },
        None => chain,
    }
}

/// The two regions on loan at `dst` and `src` are different regions of at
/// least `n` bytes each.
pub open spec fn can_copy(chain: Seq<Block>, dst: usize, src: usize, n: usize) -> bool {
    &&& loaned(chain, dst) matches Some(d)
    &&& loaned(chain, src) matches Some(s)
    &&& d != s
    &&& n <= chain[d].meta.size
    &&& n <= chain[s].meta.size
}

/// The chain after the first `n` bytes of the region on loan at `src` were
/// copied to the front of the region on loan at `dst`. Nothing changes where
/// `can_copy` does not hold.
pub open spec fn copied(chain: Seq<Block>, dst: usize, src: usize, n: usize) -> Seq<Block> {
    if can_copy(chain, dst, src, n) {
        let d = loaned(chain, dst).unwrap();
        let s = loaned(chain, src).unwrap();
        with_data(chain, d, copy_prefix(chain[d].data, chain[s].data, n as int))
    } else {
        chain
    }
}

/// The chain after the region at `ptr` was released: its block is marked
/// free, and nothing else changes. A pointer that no block surfaces, the null
/// pointer among them, changes nothing.
pub open spec fn released(chain: Seq<Block>, ptr: usize) -> Seq<Block> {
    match locate(chain, ptr) {
        Some(i) => with_flag(chain, i, true),
        None => chain,
    }
}

/// At most one position is the first fit.
pub proof fn lemma_first_fit_is(chain: Seq<Block>, size: usize, i: int)
    requires
        is_first_fit(chain, size, i),
    ensures
        first_fit(chain, size) == Some(i),
{
    let k = choose|k: int| is_first_fit(chain, size, k);
    assert(is_first_fit(chain, size, k));
    if k < i {
        assert(!chain[k].meta.fits(size));
    }
    if i < k {
        assert(!chain[i].meta.fits(size));
    }
}

/// No block fits exactly when first-fit search finds none.
pub proof fn lemma_first_fit_none(chain: Seq<Block>, size: usize)
    ensures
        first_fit(chain, size).is_none() <==> forall|j: int|
            0 <= j < chain.len() ==> !(#[trigger] chain[j]).meta.fits(size),
        first_fit(chain, size) matches Some(i) ==> is_first_fit(chain, size, i),
    decreases chain.len(),
{
    if exists|j: int| 0 <= j < chain.len() && (#[trigger] chain[j]).meta.fits(size) {
        let j = choose|j: int| 0 <= j < chain.len() && (#[trigger] chain[j]).meta.fits(size);
        lemma_some_first_fit(chain, size, j);
    }
    if first_fit(chain, size).is_some() {
        let i = choose|i: int| is_first_fit(chain, size, i);
        assert(is_first_fit(chain, size, i));
        assert(chain[i].meta.fits(size));
    }
}

/// Where block `j` fits, some block at or in front of `j` is the first fit.
pub proof fn lemma_some_first_fit(chain: Seq<Block>, size: usize, j: int)
    requires
        0 <= j < chain.len(),
        chain[j].meta.fits(size),
    ensures
        first_fit(chain, size) matches Some(i) && i <= j && is_first_fit(chain, size, i),
    decreases j,
{
    if forall|k: int| 0 <= k < j ==> !(#[trigger] chain[k]).meta.fits(size) {
        assert(is_first_fit(chain, size, j));
        lemma_first_fit_is(chain, size, j);
    } else {
        let k = choose|k: int| 0 <= k < j && (#[trigger] chain[k]).meta.fits(size);
        lemma_some_first_fit(chain, size, k);
    }
}

/// In a valid chain a pointer is surfaced for at most one block.
pub proof fn lemma_locate_is(chain: Seq<Block>, ptr: usize, i: int)
    requires
        valid_chain(chain),
        is_block_of(chain, ptr, i),
    ensures
        locate(chain, ptr) == Some(i),
{
    let k = choose|k: int| is_block_of(chain, ptr, k);
    assert(is_block_of(chain, ptr, k));
    if k < i {
        assert(block_end(chain[k]) <= chain[i].addr);
    }
    if i < k {
        assert(block_end(chain[i]) <= chain[k].addr);
    }
}

/// The null pointer is surfaced for no block of a valid chain.
pub proof fn lemma_null_not_located(chain: Seq<Block>)
    requires
        valid_chain(chain),
    ensures
        locate(chain, 0) == None::<int>,
{
    if exists|i: int| is_block_of(chain, 0, i) {
        let i = choose|i: int| is_block_of(chain, 0, i);
        assert(is_block_of(chain, 0, i));
    }
}

/// Changing an occupancy flag keeps a chain valid.
pub proof fn lemma_with_flag_valid(chain: Seq<Block>, i: int, is_free: bool)
    requires
        valid_chain(chain),
        0 <= i < chain.len(),
    ensures
        valid_chain(with_flag(chain, i, is_free)),
{
    let after = with_flag(chain, i, is_free);
    assert forall|k: int| 0 <= k < after.len() implies {
        &&& (#[trigger] after[k]).addr != 0
        &&& block_end(after[k]) <= usize::MAX
        &&& after[k].data.len() == after[k].meta.size
    } by {
        assert(chain[k].addr != 0);
    }
    assert forall|k: int| 0 <= k < after.len() implies after[k].meta.next == #[trigger] link_of(
        after,
        k,
    ) by {
        assert(chain[k].meta.next == link_of(chain, k));
    }
    assert forall|a: int, b: int| 0 <= a < b < after.len() implies block_end(#[trigger] after[a])
        <= (#[trigger] after[b]).addr by {
        assert(block_end(chain[a]) <= chain[b].addr);
    }
}

/// Replacing the bytes of a region by as many bytes keeps a chain valid.
pub proof fn lemma_with_data_valid(chain: Seq<Block>, i: int, data: Seq<u8>)
    requires
        valid_chain(chain),
        0 <= i < chain.len(),
        data.len() == chain[i].meta.size,
    ensures
        valid_chain(with_data(chain, i, data)),
{
    let after = with_data(chain, i, data);
    assert forall|k: int| 0 <= k < after.len() implies {
        &&& (#[trigger] after[k]).addr != 0
        &&& block_end(after[k]) <= usize::MAX
        &&& after[k].data.len() == after[k].meta.size
    } by {
        assert(chain[k].addr != 0);
    }
    assert forall|k: int| 0 <= k < after.len() implies after[k].meta.next == #[trigger] link_of(
        after,
        k,
    ) by {
        assert(chain[k].meta.next == link_of(chain, k));
    }
    assert forall|a: int, b: int| 0 <= a < b < after.len() implies block_end(#[trigger] after[a])
        <= (#[trigger] after[b]).addr by {
        assert(block_end(chain[a]) <= chain[b].addr);
    }
}

/// Growth on a usable grant keeps a chain valid.
pub proof fn lemma_grown_valid(chain: Seq<Block>, size: usize, brk: usize)
    requires
        valid_chain(chain),
        grant_usable(chain, size, brk),
    ensures
        valid_chain(grown(chain, size, brk)),
        grown(chain, size, brk).len() == chain.len() + 1,
{
    let after = grown(chain, size, brk);
    let n = chain.len() as int;
    assert(after.len() == n + 1);
    assert(after[n] == fresh_block(size, brk));
    assert forall|k: int| 0 <= k < after.len() implies {
        &&& (#[trigger] after[k]).addr != 0
        &&& block_end(after[k]) <= usize::MAX
        &&& after[k].data.len() == after[k].meta.size
    } by {
        if k < n {
            assert(chain[k].addr != 0);
        }
    }
    assert forall|k: int| 0 <= k < after.len() implies after[k].meta.next == #[trigger] link_of(
        after,
        k,
    ) by {
        if k < n {
            assert(chain[k].meta.next == link_of(chain, k));
        }
    }
    assert forall|a: int, b: int| 0 <= a < b < after.len() implies block_end(#[trigger] after[a])
        <= (#[trigger] after[b]).addr by {
        if b < n {
            assert(block_end(chain[a]) <= chain[b].addr);
        } else {
            if a < n - 1 {
                assert(block_end(chain[a]) <= chain[n - 1].addr);
            }
            assert(block_end(chain[n - 1]) <= brk);
        }
    }
}

/// Claiming a block keeps a chain valid, and the claimed block is in use and
/// at least as large as asked for.
pub proof fn lemma_claimed_valid(chain: Seq<Block>, size: usize, brk: usize)
    requires
        valid_chain(chain),
    ensures
        valid_chain(claimed(chain, size, brk).0),
        claimed(chain, size, brk).1 matches Some(i) ==> {
            &&& 0 <= i < claimed(chain, size, brk).0.len()
            &&& !claimed(chain, size, brk).0[i].meta.is_free
            &&& claimed(chain, size, brk).0[i].meta.size >= size
        },
{
    lemma_first_fit_none(chain, size);
    match first_fit(chain, size) {
        Some(i) => {
            lemma_with_flag_valid(chain, i, false);
        },
        None => {
            if grant_usable(chain, size, brk) {
                lemma_grown_valid(chain, size, brk);
            }
        },
    }
}

} // verus!
